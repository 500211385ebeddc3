//! Breadth-first traversals over the dependency graph.
use std::collections::{HashSet, VecDeque};
use vstd::prelude::*;
use crate::digraph::{graph_in_edges, graph_node, graph_out_edges};
use crate::edge::{DependencyEdge, EdgeKind};
use crate::graph::{adjacency, kind_matches, CodeGraph, Direction};
use crate::id::SymbolId;
use crate::reach::{
    edge_end, edge_from, is_distance, lemma_adjacency_complete, lemma_adjacency_sound, lemma_bfs_covers,
    lemma_distance_unique, lemma_distinct_bounded, lemma_reach_step, lemma_reach_zero, reach_within, step,
};
use crate::symbol::SymbolNode;

verus! {

broadcast use vstd::std_specs::hash::group_hash_axioms;

/// Whether some entry of `o` is node `v`.
pub open spec fn has_node(o: Seq<(usize, usize)>, v: usize) -> bool {
    exists|i: int| 0 <= i < o.len() && o[i].0 == v
}

/// `o` extended, in order, by the endpoints of the entries of `adj` whose edge passes the kind
/// filter and whose node is not listed yet, each at depth `d + 1`.
pub open spec fn absorb(o: Seq<(usize, usize)>, adj: Seq<(usize, DependencyEdge)>, filter: Option<EdgeKind>, d: usize)
    -> Seq<(usize, usize)>
    decreases adj.len(),
{
    if adj.len() == 0 {
        o
    } else {
        let t = absorb(o, adj.drop_last(), filter, d);
        let v = adj.last().0;
        if kind_matches(adj.last().1, filter) && !has_node(t, v) {
            t.push((v, (d + 1) as usize))
        } else {
            t
        }
    }
}

/// Visiting entry `h` of the discovery order `o`: below the depth bound, its neighbours in
/// direction `dir` are absorbed in adjacency order.
pub open spec fn bfs_step(
    es: Seq<(usize, usize, DependencyEdge)>,
    dir: Direction,
    filter: Option<EdgeKind>,
    max_depth: usize,
    o: Seq<(usize, usize)>,
    h: int,
) -> Seq<(usize, usize)> {
    if o[h].1 < max_depth {
        absorb(o, adjacency(es, o[h].0, dir), filter, o[h].1)
    } else {
        o
    }
}

/// Visits the entries of `o` from position `h` on, at most `fuel` of them.
pub open spec fn bfs_run(
    es: Seq<(usize, usize, DependencyEdge)>,
    dir: Direction,
    filter: Option<EdgeKind>,
    max_depth: usize,
    o: Seq<(usize, usize)>,
    h: int,
    fuel: nat,
) -> Seq<(usize, usize)>
    decreases fuel,
{
    if fuel == 0 || h < 0 || h >= o.len() {
        o
    } else {
        bfs_run(es, dir, filter, max_depth, bfs_step(es, dir, filter, max_depth, o, h), h + 1, (fuel - 1) as nat)
    }
}

/// The breadth-first discovery order from node `root` in a graph of `n` nodes: the root at
/// depth 0, then every node the first time an already listed node below the depth bound
/// reaches it, visiting listed nodes in order and each one's edges in adjacency order.
pub open spec fn bfs_order(
    es: Seq<(usize, usize, DependencyEdge)>,
    dir: Direction,
    filter: Option<EdgeKind>,
    max_depth: usize,
    root: usize,
    n: nat,
) -> Seq<(usize, usize)> {
    bfs_run(es, dir, filter, max_depth, seq![(root, 0usize)], 0, n)
}

impl CodeGraph {
    /// The nodes, with their depths, that a traversal from the node at index `ri` lists: the
    /// breadth-first discovery order without the root.
    pub open spec fn traversal_order(&self, ri: int, dir: Direction, filter: Option<EdgeKind>, max_depth: usize)
        -> Seq<(SymbolNode, usize)>
    {
        bfs_order(self.edges(), dir, filter, max_depth, ri as usize, self.nodes().len()).drop_first().map_values(
            |p: (usize, usize)| (self.nodes()[p.0 as int], p.1),
        )
    }

    /// `res` lists, once each and by non-decreasing depth, exactly the nodes other than the
    /// root at index `ri` whose distance from it is between 1 and `max_depth`, each with that
    /// distance.
    pub open spec fn is_traversal(
        &self,
        res: Seq<(SymbolNode, usize)>,
        ri: int,
        dir: Direction,
        filter: Option<EdgeKind>,
        max_depth: nat,
    ) -> bool {
        &&& forall|j: int| 0 <= j < res.len() ==> {
            &&& 1 <= (#[trigger] res[j]).1 <= max_depth
            &&& exists|v: int| 0 <= v < self.nodes().len() && v != ri && #[trigger] self.nodes()[v] == res[j].0
                && is_distance(self.edges(), dir, filter, ri, v, res[j].1 as nat)
        }
        &&& forall|v: int, d: nat| 0 <= v < self.nodes().len() && v != ri && 1 <= d <= max_depth
            && #[trigger] reach_within(self.edges(), dir, filter, ri, v, d)
            ==> exists|j: int| 0 <= j < res.len() && (#[trigger] res[j]).0 == self.nodes()[v]
        &&& forall|j1: int, j2: int| 0 <= j1 < j2 < res.len()
            ==> (#[trigger] res[j1]).0.id != (#[trigger] res[j2]).0.id && res[j1].1 <= res[j2].1
    }

    /// Breadth-first traversal from `root` in direction `direction`, following only edges that
    /// pass the kind filter, up to `max_depth` steps. The root itself is not listed; a missing
    /// root or `max_depth == 0` yields nothing.
    pub fn traverse_transitive(
        &self,
        root: &SymbolId,
        direction: Direction,
        kind_filter: Option<EdgeKind>,
        max_depth: usize,
    ) -> (res: Vec<(SymbolNode, usize)>)
        requires
            self.wf(),
        ensures
            !self.spec_contains(*root) || max_depth == 0 ==> res@.len() == 0,
            res@.len() <= self.nodes().len(),
            self.spec_contains(*root) ==> self.is_traversal(res@, self.spec_index_of(*root), direction, kind_filter, max_depth as nat),
            self.spec_contains(*root) ==> res@ == self.traversal_order(self.spec_index_of(*root), direction, kind_filter, max_depth),
    {
        let root_idx = match self.lookup_index(root) {
            Some(i) => i,
            None => return Vec::new(),
        };
        proof { self.lemma_index_of(*root, root_idx as int); }
        if max_depth == 0 {
            proof {
                let o0 = seq![(root_idx, 0usize)];
                assert(bfs_step(self.edges(), direction, kind_filter, max_depth, o0, 0) == o0);
                if self.nodes().len() > 0 {
                    assert(bfs_run(self.edges(), direction, kind_filter, max_depth, o0, 1, (self.nodes().len() - 1) as nat) == o0);
                }
                assert(self.traversal_order(root_idx as int, direction, kind_filter, max_depth) =~= Seq::<(SymbolNode, usize)>::empty());
            }
            return Vec::new();
        }
        let ghost es = self.edges();
        let ghost n = self.nodes().len();
        let ghost r = root_idx as int;
        let mut visited: HashSet<usize> = HashSet::new();
        let mut queue: VecDeque<(usize, usize)> = VecDeque::new();
        let mut results: Vec<(SymbolNode, usize)> = Vec::new();
        let ghost target = bfs_order(es, direction, kind_filter, max_depth, root_idx, n);
        visited.insert(root_idx);
        queue.push_back((root_idx, 0));
        let ghost mut order: Seq<(usize, usize)> = seq![(root_idx, 0usize)];
        let ghost mut head: int = 0;
        proof {
            lemma_reach_zero(es, direction, kind_filter, r, r);
            assert(queue@ =~= order.subrange(head, order.len() as int));
            assert forall|w: usize| #[trigger] visited@.contains(w) <==> exists|i: int| 0 <= i < order.len() && order[i].0 == w by {
                if visited@.contains(w) {
                    assert(order[0].0 == w);
                }
            }
        }
        while queue.len() > 0
            invariant
                self.wf(),
                n == self.nodes().len(),
                es == self.edges(),
                r == root_idx as int,
                root_idx < n,
                1 <= max_depth,
                0 <= head <= order.len(),
                order.len() <= n,
                order.len() > 0,
                order[0] == (root_idx, 0usize),
                queue@ == order.subrange(head, order.len() as int),
                forall|w: usize| #[trigger] visited@.contains(w) <==> exists|i: int| 0 <= i < order.len() && order[i].0 == w,
                forall|i: int, j: int| 0 <= i < order.len() && 0 <= j < order.len() && i != j
                    ==> (#[trigger] order[i]).0 != (#[trigger] order[j]).0,
                forall|i: int| 0 <= i < order.len() ==> (#[trigger] order[i]).0 < n && order[i].1 <= max_depth
                    && is_distance(es, direction, kind_filter, r, order[i].0 as int, order[i].1 as nat),
                forall|i: int, j: int| 0 <= i <= j < order.len() ==> (#[trigger] order[i]).1 <= (#[trigger] order[j]).1,
                head < order.len() ==> order.last().1 <= order[head].1 + 1,
                forall|i: int, e: int| 0 <= i < head && 0 <= e < es.len() && order[i].1 < max_depth
                    && #[trigger] edge_from(es[e], direction, kind_filter, order[i].0 as int)
                    ==> visited@.contains(edge_end(es[e], direction) as usize),
                results@.len() == order.len() - 1,
                forall|j: int| 0 <= j < results@.len() ==> (#[trigger] results@[j]).0 == self.nodes()[order[j + 1].0 as int]
                    && results@[j].1 == order[j + 1].1,
                target == bfs_order(es, direction, kind_filter, max_depth, root_idx, n),
                bfs_run(es, direction, kind_filter, max_depth, order, head, (n - head) as nat) == target,
            decreases 2 * n - order.len() - head,
        {
            let (curr, depth) = queue.pop_front().unwrap();
            let ghost h = head;
            let ghost order_h = order;
            proof {
                assert(order[h] == (curr, depth));
                head = head + 1;
            }
            if depth < max_depth {
                let ghost visited0 = visited@;
                let ghost adj = adjacency(es, curr, direction);
                proof {
                    assert forall|v: int| #[trigger] reach_within(es, direction, kind_filter, r, v, depth as nat)
                        implies visited0.contains(v as usize) by {
                        lemma_bfs_covers(es, direction, kind_filter, r, order, h, max_depth as nat, depth as nat, visited0, v, depth as nat);
                        let i = choose|i: int| 0 <= i < order.len() && order[i].0 as int == v;
                        assert(visited0.contains(order[i].0));
                    }
                    crate::graph::lemma_adjacency_bounds(es, curr, direction, n);
                }
                let nbrs = match direction {
                    Direction::Outgoing => graph_out_edges(&self.graph, curr),
                    Direction::Incoming => graph_in_edges(&self.graph, curr),
                };
                let ghost order1 = order;
                let nbr_count = nbrs.len();
                for m in 0..nbr_count
                    invariant
                        nbr_count == nbrs@.len(),
                        adj == adjacency(es, curr, direction),
                        self.wf(),
                        n == self.nodes().len(),
                        es == self.edges(),
                        r == root_idx as int,
                        root_idx < n,
                        curr < n,
                        depth < max_depth,
                        0 <= h,
                        h + 1 == head,
                        order1.len() > h,
                        order1[h] == (curr, depth),
                        order1.len() <= order.len(),
                        forall|i: int| 0 <= i < order1.len() ==> order[i] == order1[i],
                        forall|i: int| order1.len() <= i < order.len() ==> (#[trigger] order[i]).1 == depth + 1,
                        order1.last().1 <= depth + 1,
                        order.len() <= n,
                        order[0] == (root_idx, 0usize),
                        is_distance(es, direction, kind_filter, r, curr as int, depth as nat),
                        forall|v: int| #[trigger] reach_within(es, direction, kind_filter, r, v, depth as nat)
                            ==> visited0.contains(v as usize),
                        visited0.subset_of(visited@),
                        nbrs@.len() == adj.len(),
                        forall|m2: int| 0 <= m2 < nbrs@.len() ==> (#[trigger] nbrs@[m2]).0 == adj[m2].0 && *nbrs@[m2].1 == adj[m2].1,
                        forall|m2: int| 0 <= m2 < adj.len() ==> (#[trigger] adj[m2]).0 < n,
                        forall|m2: int| 0 <= m2 < m && kind_matches(adj[m2].1, kind_filter) ==> visited@.contains((#[trigger] adj[m2]).0),
                        queue@ == order.subrange(head, order.len() as int),
                        forall|w: usize| #[trigger] visited@.contains(w) <==> exists|i: int| 0 <= i < order.len() && order[i].0 == w,
                        forall|i: int, j: int| 0 <= i < order.len() && 0 <= j < order.len() && i != j
                            ==> (#[trigger] order[i]).0 != (#[trigger] order[j]).0,
                        forall|i: int| 0 <= i < order.len() ==> (#[trigger] order[i]).0 < n && order[i].1 <= max_depth
                            && is_distance(es, direction, kind_filter, r, order[i].0 as int, order[i].1 as nat),
                        forall|i: int, j: int| 0 <= i <= j < order.len() ==> (#[trigger] order[i]).1 <= (#[trigger] order[j]).1,
                        forall|i: int, e: int| 0 <= i < h && 0 <= e < es.len() && order[i].1 < max_depth
                            && #[trigger] edge_from(es[e], direction, kind_filter, order[i].0 as int)
                            ==> visited@.contains(edge_end(es[e], direction) as usize),
                        results@.len() == order.len() - 1,
                        forall|j: int| 0 <= j < results@.len() ==> (#[trigger] results@[j]).0 == self.nodes()[order[j + 1].0 as int]
                            && results@[j].1 == order[j + 1].1,
                        order == absorb(order1, adj.take(m as int), kind_filter, depth),
                {
                    proof {
                        assert(adj.take(m + 1).drop_last() =~= adj.take(m as int));
                        assert(adj.take(m + 1).last() == adj[m as int]);
                    }
                    let ghost ord_m = order;
                    let ghost vis_m = visited@;
                    let (next, edge) = nbrs[m];
                    let keep = match kind_filter {
                        Some(k) => edge.kind == k,
                        None => true,
                    };
                    if keep {
                        assert(kind_matches(adj[m as int].1, kind_filter));
                        let ghost vis_before = visited@;
                        let ghost q0 = queue@;
                        if visited.insert(next) {
                            let next_depth = depth + 1;
                            let node = graph_node(&self.graph, next);
                            results.push((node.clone(), next_depth));
                            queue.push_back((next, next_depth));
                            proof {
                                lemma_adjacency_sound(es, curr, direction, m as int);
                                let e = choose|e: int| 0 <= e < es.len() && #[trigger] crate::reach::edge_start(es[e], direction) == curr
                                    && edge_end(es[e], direction) == adj[m as int].0 as int && es[e].2 == adj[m as int].1;
                                assert(edge_from(es[e], direction, kind_filter, curr as int));
                                assert(step(es, direction, kind_filter, curr as int, next as int));
                                lemma_reach_step(es, direction, kind_filter, r, curr as int, next as int, depth as nat);
                                assert(!visited0.contains(next));
                                assert(!reach_within(es, direction, kind_filter, r, next as int, depth as nat));
                                assert(is_distance(es, direction, kind_filter, r, next as int, next_depth as nat));
                                let old_order = order;
                                order = order.push((next, next_depth));
                                assert forall|i: int| 0 <= i < old_order.len() implies (#[trigger] old_order[i]).0 != next by {
                                    assert(visited@.contains(old_order[i].0));
                                }
                                assert(q0 == old_order.subrange(head, old_order.len() as int));
                                assert(queue@ == q0.push((next, next_depth)));
                                assert(head <= old_order.len());
                                assert forall|j: int| 0 <= j < queue@.len() implies queue@[j] == order.subrange(head, order.len() as int)[j] by {
                                    if j < q0.len() {
                                        assert(queue@[j] == q0[j]);
                                        assert(q0.len() == old_order.len() - head);
                                        assert(q0[j] == old_order.subrange(head, old_order.len() as int)[j]);
                                        assert(q0[j] == old_order[head + j]);
                                        assert(order[head + j] == old_order[head + j]);
                                    }
                                }
                                assert(queue@ =~= order.subrange(head, order.len() as int));
                                assert forall|w: usize| #[trigger] visited@.contains(w) <==> exists|i: int| 0 <= i < order.len() && order[i].0 == w by {
                                    if visited@.contains(w) {
                                        if w == next {
                                            assert(order[order.len() - 1].0 == w);
                                        } else {
                                            assert(vis_before.contains(w));
                                            let i = choose|i: int| 0 <= i < old_order.len() && old_order[i].0 == w;
                                            assert(order[i] == old_order[i]);
                                        }
                                    }
                                    if exists|i: int| 0 <= i < order.len() && order[i].0 == w {
                                        let i = choose|i: int| 0 <= i < order.len() && order[i].0 == w;
                                        if i < old_order.len() {
                                            assert(order[i] == old_order[i]);
                                            assert(vis_before.contains(w));
                                        }
                                    }
                                }
                                lemma_distinct_bounded(order, n);
                            }
                        }
                    }
                    proof {
                        let v = adj[m as int].0;
                        assert(next == v);
                        if has_node(ord_m, v) {
                            let i = choose|i: int| 0 <= i < ord_m.len() && ord_m[i].0 == v;
                            assert(vis_m.contains(ord_m[i].0));
                        }
                        if vis_m.contains(v) {
                            let i = choose|i: int| 0 <= i < ord_m.len() && ord_m[i].0 == v;
                            assert(has_node(ord_m, v));
                        }
                    }
                }
                proof {
                    assert(adj.take(nbr_count as int) =~= adj);
                    assert(order == bfs_step(es, direction, kind_filter, max_depth, order_h, h));
                }
                proof {
                    assert forall|i: int, e: int| 0 <= i < head && 0 <= e < es.len() && order[i].1 < max_depth
                        && #[trigger] edge_from(es[e], direction, kind_filter, order[i].0 as int)
                        implies visited@.contains(edge_end(es[e], direction) as usize) by {
                        if i == h {
                            lemma_adjacency_complete(es, curr, direction, e);
                            let m2 = choose|m2: int| 0 <= m2 < adj.len() && (#[trigger] adj[m2]).0 == edge_end(es[e], direction)
                                && adj[m2].1 == es[e].2;
                            assert(kind_matches(adj[m2].1, kind_filter));
                        }
                    }
                }
            }
            proof {
                assert(queue@ =~= order.subrange(head, order.len() as int));
                assert(order == bfs_step(es, direction, kind_filter, max_depth, order_h, h));
                assert(bfs_run(es, direction, kind_filter, max_depth, order_h, h, (n - h) as nat)
                    == bfs_run(es, direction, kind_filter, max_depth, order, head, (n - head) as nat));
            }
        }
        proof {
            assert(head == order.len());
            assert(order == target);
            assert(results@ =~= self.traversal_order(r, direction, kind_filter, max_depth));
            assert forall|j1: int, j2: int| 0 <= j1 < j2 < results@.len()
                implies (#[trigger] results@[j1]).0.id != (#[trigger] results@[j2]).0.id && results@[j1].1 <= results@[j2].1 by {
                let a = order[j1 + 1].0 as int;
                let b = order[j2 + 1].0 as int;
                if self.nodes()[a].id == self.nodes()[b].id {
                    self.lemma_index_of(self.nodes()[a].id, a);
                }
            }
            assert forall|j: int| 0 <= j < results@.len() implies {
                &&& 1 <= (#[trigger] results@[j]).1 <= max_depth
                &&& exists|v: int| 0 <= v < self.nodes().len() && v != r && #[trigger] self.nodes()[v] == results@[j].0
                    && is_distance(self.edges(), direction, kind_filter, r, v, results@[j].1 as nat)
            } by {
                let v = order[j + 1].0 as int;
                assert(v != r);
                if order[j + 1].1 == 0 {
                    lemma_reach_zero(es, direction, kind_filter, r, v);
                }
                assert(self.nodes()[v] == results@[j].0);
            }
            assert forall|v: int, d: nat| 0 <= v < self.nodes().len() && v != r && 1 <= d <= max_depth
                && #[trigger] reach_within(self.edges(), direction, kind_filter, r, v, d)
                implies exists|j: int| 0 <= j < results@.len() && (#[trigger] results@[j]).0 == self.nodes()[v] by {
                lemma_bfs_covers(es, direction, kind_filter, r, order, head, max_depth as nat, max_depth as nat, visited@, v, d);
                let i = choose|i: int| 0 <= i < order.len() && order[i].0 as int == v;
                assert(i != 0);
                assert(results@[i - 1].0 == self.nodes()[v]);
            }
        }
        results
    }
}

} // verus!

verus! {

impl CodeGraph {
    /// Transitive inbound callers (`Calls` edges only) up to `max_depth` steps away.
    pub fn find_transitive_callers(&self, root: &SymbolId, max_depth: usize) -> (res: Vec<(SymbolNode, usize)>)
        requires
            self.wf(),
        ensures
            !self.spec_contains(*root) || max_depth == 0 ==> res@.len() == 0,
            res@.len() <= self.nodes().len(),
            self.spec_contains(*root) ==> self.is_traversal(
                res@, self.spec_index_of(*root), Direction::Incoming, Some(EdgeKind::Calls), max_depth as nat),
            self.spec_contains(*root) ==> res@ == self.traversal_order(
                self.spec_index_of(*root), Direction::Incoming, Some(EdgeKind::Calls), max_depth),
    {
        self.traverse_transitive(root, Direction::Incoming, Some(EdgeKind::Calls), max_depth)
    }

    /// Transitive outbound callees (`Calls` edges only) up to `max_depth` steps away.
    pub fn find_transitive_callees(&self, root: &SymbolId, max_depth: usize) -> (res: Vec<(SymbolNode, usize)>)
        requires
            self.wf(),
        ensures
            !self.spec_contains(*root) || max_depth == 0 ==> res@.len() == 0,
            res@.len() <= self.nodes().len(),
            self.spec_contains(*root) ==> self.is_traversal(
                res@, self.spec_index_of(*root), Direction::Outgoing, Some(EdgeKind::Calls), max_depth as nat),
            self.spec_contains(*root) ==> res@ == self.traversal_order(
                self.spec_index_of(*root), Direction::Outgoing, Some(EdgeKind::Calls), max_depth),
    {
        self.traverse_transitive(root, Direction::Outgoing, Some(EdgeKind::Calls), max_depth)
    }

    /// `p` is a fewest-edges path from node `fi` to node `ti` along outgoing edges of any kind.
    pub open spec fn is_shortest_path(&self, p: Seq<SymbolNode>, fi: int, ti: int) -> bool {
        &&& p.len() >= 1
        &&& exists|w: Seq<int>| #[trigger] crate::reach::is_walk(self.edges(), Direction::Outgoing, None, w)
            && w.len() == p.len() && w[0] == fi && w.last() == ti
            && forall|j: int| 0 <= j < w.len() ==> 0 <= w[j] < self.nodes().len() && #[trigger] p[j] == self.nodes()[w[j]]
        &&& is_distance(self.edges(), Direction::Outgoing, None, fi, ti, (p.len() - 1) as nat)
    }

    /// Whether node `ti` can be reached from node `fi` along outgoing edges of any kind.
    pub open spec fn reachable(&self, fi: int, ti: int) -> bool {
        exists|k: nat| #[trigger] reach_within(self.edges(), Direction::Outgoing, None, fi, ti, k)
    }
}

} // verus!

verus! {

impl CodeGraph {
    /// Shortest dependency path from `from` to `to` along outgoing edges of every kind, both
    /// ends included. `None` when either symbol is missing or `to` cannot be reached.
    #[verifier::spinoff_prover]
    #[verifier::rlimit(40)]
    pub fn find_shortest_path(&self, from: &SymbolId, to: &SymbolId) -> (res: Option<Vec<SymbolNode>>)
        requires
            self.wf(),
        ensures
            !(self.spec_contains(*from) && self.spec_contains(*to)) ==> res is None,
            self.spec_contains(*from) && self.spec_contains(*to) ==> {
                let fi = self.spec_index_of(*from);
                let ti = self.spec_index_of(*to);
                &&& res is Some <==> self.reachable(fi, ti)
                &&& res matches Some(p) ==> self.is_shortest_path(p@, fi, ti)
            },
    {
        let from_idx = match self.lookup_index(from) {
            Some(i) => i,
            None => return None,
        };
        let to_idx = match self.lookup_index(to) {
            Some(i) => i,
            None => return None,
        };
        proof {
            self.lemma_index_of(*from, from_idx as int);
            self.lemma_index_of(*to, to_idx as int);
        }
        let ghost es = self.edges();
        let ghost n = self.nodes().len();
        let ghost fi = from_idx as int;
        let ghost ti = to_idx as int;
        let ghost dir = Direction::Outgoing;
        let ghost filt: Option<EdgeKind> = None;
        proof { lemma_reach_zero(es, dir, filt, fi, fi); }
        if from_idx == to_idx {
            let node = graph_node(&self.graph, from_idx).clone();
            let mut single: Vec<SymbolNode> = Vec::new();
            single.push(node);
            proof {
                let w = seq![fi];
                assert(crate::reach::is_walk(es, dir, filt, w));
                assert(single@[0] == self.nodes()[w[0]]);
                assert(reach_within(es, dir, filt, fi, ti, 0));
            }
            return Some(single);
        }
        let mut visited: HashSet<usize> = HashSet::new();
        let mut queue: VecDeque<usize> = VecDeque::new();
        let mut came_from: std::collections::HashMap<usize, usize> = std::collections::HashMap::new();
        visited.insert(from_idx);
        queue.push_back(from_idx);
        let ghost mut order: Seq<(usize, usize)> = seq![(from_idx, 0usize)];
        let ghost mut head: int = 0;
        let mut found = false;
        proof {
            assert forall|w: usize| #[trigger] visited@.contains(w) <==> exists|i: int| 0 <= i < order.len() && order[i].0 == w by {
                if visited@.contains(w) {
                    assert(order[0].0 == w);
                }
            }
            assert(came_from@ =~= Map::empty());
        }
        while !found && queue.len() > 0
            invariant
                self.wf(),
                n == self.nodes().len(),
                es == self.edges(),
                dir == Direction::Outgoing,
                filt == None::<EdgeKind>,
                fi == from_idx as int,
                ti == to_idx as int,
                from_idx < n,
                to_idx < n,
                from_idx != to_idx,
                0 <= head <= order.len(),
                order.len() <= n,
                order.len() > 0,
                order[0] == (from_idx, 0usize),
                queue@.len() == order.len() - head,
                forall|j: int| 0 <= j < queue@.len() ==> #[trigger] queue@[j] == order[head + j].0,
                forall|w: usize| #[trigger] visited@.contains(w) <==> exists|i: int| 0 <= i < order.len() && order[i].0 == w,
                forall|i: int, j: int| 0 <= i < order.len() && 0 <= j < order.len() && i != j
                    ==> (#[trigger] order[i]).0 != (#[trigger] order[j]).0,
                forall|i: int| 0 <= i < order.len() ==> (#[trigger] order[i]).0 < n && order[i].1 <= i
                    && is_distance(es, dir, filt, fi, order[i].0 as int, order[i].1 as nat),
                forall|i: int, j: int| 0 <= i <= j < order.len() ==> (#[trigger] order[i]).1 <= (#[trigger] order[j]).1,
                head < order.len() ==> order.last().1 <= order[head].1 + 1,
                forall|i: int, e: int| 0 <= i < head && 0 <= e < es.len() && order[i].0 != to_idx
                    && #[trigger] edge_from(es[e], dir, filt, order[i].0 as int)
                    ==> visited@.contains(edge_end(es[e], dir) as usize),
                found ==> visited@.contains(to_idx),
                !found ==> forall|i: int| 0 <= i < head ==> (#[trigger] order[i]).0 != to_idx,
                forall|w: usize| #[trigger] came_from@.contains_key(w) <==> (visited@.contains(w) && w != from_idx),
                forall|i: int| 1 <= i < order.len() ==> {
                    let w = (#[trigger] order[i]).0;
                    &&& came_from@.contains_key(w)
                    &&& step(es, dir, filt, came_from@[w] as int, w as int)
                    &&& exists|j: int| 0 <= j < order.len() && order[j].0 == came_from@[w] && order[j].1 + 1 == order[i].1
                },
            decreases 2 * n - order.len() - head,
        {
            let ghost q_before = queue@;
            let curr = queue.pop_front().unwrap();
            let ghost h = head;
            proof {
                assert(queue@.len() == order.len() - (h + 1));
                head = head + 1;
                assert forall|j: int| 0 <= j < queue@.len() implies #[trigger] queue@[j] == order[head + j].0 by {
                    assert(queue@[j] == q_before[j + 1]);
                }
            }
            if curr == to_idx {
                found = true;
                proof {
                    assert(visited@.contains(order[h].0));
                }
            } else {
                let ghost du = order[h].1;
                let ghost visited0 = visited@;
                proof {
                    assert(order[h].0 == curr);
                    assert forall|v: int| #[trigger] reach_within(es, dir, filt, fi, v, du as nat)
                        implies visited0.contains(v as usize) by {
                        lemma_bfs_covers(es, dir, filt, fi, order, h, du as nat, du as nat, visited0, v, du as nat);
                        let i = choose|i: int| 0 <= i < order.len() && order[i].0 as int == v;
                        assert(visited0.contains(order[i].0));
                    }
                    crate::graph::lemma_adjacency_bounds(es, curr, dir, n);
                }
                let ghost adj = adjacency(es, curr, dir);
                let nbrs = graph_out_edges(&self.graph, curr);
                let ghost order1 = order;
                let nbr_count = nbrs.len();
                for m in 0..nbr_count
                    invariant
                        nbr_count == nbrs@.len(),
                        adj == adjacency(es, curr, dir),
                        self.wf(),
                        n == self.nodes().len(),
                        es == self.edges(),
                        dir == Direction::Outgoing,
                        filt == None::<EdgeKind>,
                        fi == from_idx as int,
                        ti == to_idx as int,
                        from_idx < n,
                        to_idx < n,
                        curr < n,
                        curr != to_idx,
                        !found,
                        0 <= h,
                        h + 1 == head,
                        order1.len() > h,
                        order1[h].0 == curr,
                        order1[h].1 == du,
                        order1.len() <= order.len(),
                        forall|i: int| 0 <= i < order1.len() ==> order[i] == order1[i],
                        forall|i: int| order1.len() <= i < order.len() ==> (#[trigger] order[i]).1 == du + 1,
                        order1.last().1 <= du + 1,
                        order.len() <= n,
                        order[0] == (from_idx, 0usize),
                        is_distance(es, dir, filt, fi, curr as int, du as nat),
                        forall|v: int| #[trigger] reach_within(es, dir, filt, fi, v, du as nat) ==> visited0.contains(v as usize),
                        visited0.subset_of(visited@),
                        nbrs@.len() == adj.len(),
                        forall|m2: int| 0 <= m2 < nbrs@.len() ==> (#[trigger] nbrs@[m2]).0 == adj[m2].0 && *nbrs@[m2].1 == adj[m2].1,
                        forall|m2: int| 0 <= m2 < adj.len() ==> (#[trigger] adj[m2]).0 < n,
                        forall|m2: int| 0 <= m2 < m ==> visited@.contains((#[trigger] adj[m2]).0),
                        queue@.len() == order.len() - head,
                        forall|j: int| 0 <= j < queue@.len() ==> #[trigger] queue@[j] == order[head + j].0,
                        forall|w: usize| #[trigger] visited@.contains(w) <==> exists|i: int| 0 <= i < order.len() && order[i].0 == w,
                        forall|i: int, j: int| 0 <= i < order.len() && 0 <= j < order.len() && i != j
                            ==> (#[trigger] order[i]).0 != (#[trigger] order[j]).0,
                        forall|i: int| 0 <= i < order.len() ==> (#[trigger] order[i]).0 < n && order[i].1 <= i
                            && is_distance(es, dir, filt, fi, order[i].0 as int, order[i].1 as nat),
                        forall|i: int, j: int| 0 <= i <= j < order.len() ==> (#[trigger] order[i]).1 <= (#[trigger] order[j]).1,
                        forall|i: int, e: int| 0 <= i < h && 0 <= e < es.len() && order[i].0 != to_idx
                            && #[trigger] edge_from(es[e], dir, filt, order[i].0 as int)
                            ==> visited@.contains(edge_end(es[e], dir) as usize),
                        forall|i: int| 0 <= i < head ==> (#[trigger] order[i]).0 != to_idx,
                        forall|w: usize| #[trigger] came_from@.contains_key(w) <==> (visited@.contains(w) && w != from_idx),
                        forall|i: int| 1 <= i < order.len() ==> {
                            let w = (#[trigger] order[i]).0;
                            &&& came_from@.contains_key(w)
                            &&& step(es, dir, filt, came_from@[w] as int, w as int)
                            &&& exists|j: int| 0 <= j < order.len() && order[j].0 == came_from@[w] && order[j].1 + 1 == order[i].1
                        },
                {
                    let (next, _edge) = nbrs[m];
                    let ghost vis_before = visited@;
                    let ghost q0 = queue@;
                    let ghost cf0 = came_from@;
                    if visited.insert(next) {
                        came_from.insert(next, curr);
                        queue.push_back(next);
                        proof {
                            lemma_adjacency_sound(es, curr, dir, m as int);
                            let e = choose|e: int| 0 <= e < es.len() && #[trigger] crate::reach::edge_start(es[e], dir) == curr
                                && edge_end(es[e], dir) == adj[m as int].0 as int && es[e].2 == adj[m as int].1;
                            assert(edge_from(es[e], dir, filt, curr as int));
                            assert(step(es, dir, filt, curr as int, next as int));
                            lemma_reach_step(es, dir, filt, fi, curr as int, next as int, du as nat);
                            assert(!visited0.contains(next));
                            assert(!reach_within(es, dir, filt, fi, next as int, du as nat));
                            let old_order = order;
                            let nd = (du + 1) as usize;
                            assert(order1[h].1 <= h);
                            order = order.push((next, nd));
                            assert(is_distance(es, dir, filt, fi, next as int, nd as nat));
                            assert forall|i: int| 0 <= i < old_order.len() implies (#[trigger] old_order[i]).0 != next by {
                                assert(vis_before.contains(old_order[i].0));
                            }
                            assert forall|j: int| 0 <= j < queue@.len() implies #[trigger] queue@[j] == order[head + j].0 by {
                                if j < q0.len() {
                                    assert(queue@[j] == q0[j]);
                                }
                            }
                            assert forall|w: usize| #[trigger] visited@.contains(w) <==> exists|i: int| 0 <= i < order.len() && order[i].0 == w by {
                                if visited@.contains(w) {
                                    if w == next {
                                        assert(order[order.len() - 1].0 == w);
                                    } else {
                                        assert(vis_before.contains(w));
                                        let i = choose|i: int| 0 <= i < old_order.len() && old_order[i].0 == w;
                                        assert(order[i] == old_order[i]);
                                    }
                                }
                                if exists|i: int| 0 <= i < order.len() && order[i].0 == w {
                                    let i = choose|i: int| 0 <= i < order.len() && order[i].0 == w;
                                    if i < old_order.len() {
                                        assert(order[i] == old_order[i]);
                                        assert(vis_before.contains(w));
                                    }
                                }
                            }
                            assert forall|w: usize| #[trigger] came_from@.contains_key(w) <==> (visited@.contains(w) && w != from_idx) by {
                                if w != next {
                                    assert(cf0.contains_key(w) == came_from@.contains_key(w));
                                }
                            }
                            assert forall|i: int| 1 <= i < order.len() implies {
                                let w = (#[trigger] order[i]).0;
                                &&& came_from@.contains_key(w)
                                &&& step(es, dir, filt, came_from@[w] as int, w as int)
                                &&& exists|j: int| 0 <= j < order.len() && order[j].0 == came_from@[w] && order[j].1 + 1 == order[i].1
                            } by {
                                if i == order.len() - 1 {
                                    assert(order[h].0 == curr && order[h].1 + 1 == order[i].1);
                                } else {
                                    assert(order[i] == old_order[i]);
                                    let w = order[i].0;
                                    assert(w != next);
                                    assert(cf0.contains_key(w));
                                    let j = choose|j: int| 0 <= j < old_order.len() && old_order[j].0 == cf0[w] && old_order[j].1 + 1 == old_order[i].1;
                                    assert(order[j] == old_order[j]);
                                }
                            }
                            lemma_distinct_bounded(order, n);
                        }
                    }
                }
                proof {
                    assert forall|i: int, e: int| 0 <= i < head && 0 <= e < es.len() && order[i].0 != to_idx
                        && #[trigger] edge_from(es[e], dir, filt, order[i].0 as int)
                        implies visited@.contains(edge_end(es[e], dir) as usize) by {
                        if i == h {
                            lemma_adjacency_complete(es, curr, dir, e);
                            let m2 = choose|m2: int| 0 <= m2 < adj.len() && (#[trigger] adj[m2]).0 == edge_end(es[e], dir)
                                && adj[m2].1 == es[e].2;
                            assert(visited@.contains(adj[m2].0));
                        }
                    }
                }
            }
        }
        if !found {
            proof {
                assert(head == order.len());
                if self.reachable(fi, ti) {
                    let k = choose|k: nat| #[trigger] reach_within(es, dir, filt, fi, ti, k);
                    lemma_bfs_covers(es, dir, filt, fi, order, head, k + 1, k, visited@, ti, k);
                    let i = choose|i: int| 0 <= i < order.len() && order[i].0 as int == ti;
                    assert(order[i].0 != to_idx);
                }
            }
            return None;
        }
        let ghost t = choose|i: int| 0 <= i < order.len() && order[i].0 == to_idx;
        let ghost d_to = order[t].1;
        let mut path: Vec<usize> = Vec::new();
        path.push(to_idx);
        let mut curr = to_idx;
        let ghost mut dc: nat = d_to as nat;
        let mut done = false;
        while !done
            invariant
                self.wf(),
                n == self.nodes().len(),
                es == self.edges(),
                dir == Direction::Outgoing,
                filt == None::<EdgeKind>,
                fi == from_idx as int,
                from_idx < n,
                order.len() > 0,
                order[0] == (from_idx, 0usize),
                path@.len() >= 1,
                path@[0] == to_idx,
                path@.last() == curr,
                curr < n,
                visited@.contains(curr),
                is_distance(es, dir, filt, fi, curr as int, dc),
                path@.len() == d_to - dc + 1,
                forall|k: int| 0 <= k < path@.len() ==> (#[trigger] path@[k]) < n,
                forall|k: int| 0 <= k < path@.len() - 1 ==> #[trigger] step(es, dir, filt, path@[k + 1] as int, path@[k] as int),
                done ==> curr == from_idx,
                forall|w: usize| #[trigger] visited@.contains(w) <==> exists|i: int| 0 <= i < order.len() && order[i].0 == w,
                forall|i: int| 0 <= i < order.len() ==> (#[trigger] order[i]).0 < n
                    && is_distance(es, dir, filt, fi, order[i].0 as int, order[i].1 as nat),
                forall|w: usize| #[trigger] came_from@.contains_key(w) <==> (visited@.contains(w) && w != from_idx),
                forall|i: int| 1 <= i < order.len() ==> {
                    let w = (#[trigger] order[i]).0;
                    &&& came_from@.contains_key(w)
                    &&& step(es, dir, filt, came_from@[w] as int, w as int)
                    &&& exists|j: int| 0 <= j < order.len() && order[j].0 == came_from@[w] && order[j].1 + 1 == order[i].1
                },
            decreases (if done { 0 } else { dc + 1 }),
        {
            match came_from.get(&curr) {
                Some(p) => {
                    let prev = *p;
                    proof {
                        let i = choose|i: int| 0 <= i < order.len() && order[i].0 == curr;
                        assert(i != 0);
                        lemma_distance_unique(es, dir, filt, fi, curr as int, dc, order[i].1 as nat);
                        let j = choose|j: int| 0 <= j < order.len() && order[j].0 == came_from@[curr] && order[j].1 + 1 == order[i].1;
                        assert(is_distance(es, dir, filt, fi, prev as int, order[j].1 as nat));
                        dc = order[j].1 as nat;
                        assert(visited@.contains(order[j].0));
                    }
                    let ghost old_path = path@;
                    path.push(prev);
                    proof {
                        assert forall|k: int| 0 <= k < path@.len() - 1 implies #[trigger] step(es, dir, filt, path@[k + 1] as int, path@[k] as int) by {
                            if k < old_path.len() - 1 {
                                assert(path@[k] == old_path[k] && path@[k + 1] == old_path[k + 1]);
                                assert(step(es, dir, filt, old_path[k + 1] as int, old_path[k] as int));
                            } else {
                                assert(path@[k] == curr && path@[k + 1] == prev);
                            }
                        }
                    }
                    curr = prev;
                    if curr == from_idx {
                        done = true;
                    }
                },
                None => {
                    done = true;
                },
            }
        }
        proof {
            lemma_distance_unique(es, dir, filt, fi, fi, dc, 0);
        }
        let plen = path.len();
        let mut out: Vec<SymbolNode> = Vec::new();
        let mut k = plen;
        while k > 0
            invariant
                self.wf(),
                n == self.nodes().len(),
                plen == path@.len(),
                0 <= k <= plen,
                forall|q: int| 0 <= q < path@.len() ==> (#[trigger] path@[q]) < n,
                out@.len() == plen - k,
                forall|j: int| 0 <= j < out@.len() ==> #[trigger] out@[j] == self.nodes()[path@[plen - 1 - j] as int],
            decreases k,
        {
            k = k - 1;
            let node = graph_node(&self.graph, path[k]).clone();
            out.push(node);
        }
        proof {
            let w = Seq::new(plen as nat, |j: int| path@[plen - 1 - j] as int);
            assert forall|j: int| 0 <= j < w.len() - 1 implies #[trigger] step(es, dir, filt, w[j], w[j + 1]) by {
                let q = plen - 2 - j;
                assert(step(es, dir, filt, path@[q + 1] as int, path@[q] as int));
            }
            assert(crate::reach::is_walk(es, dir, filt, w));
            assert forall|j: int| 0 <= j < w.len() implies 0 <= w[j] < self.nodes().len() && #[trigger] out@[j] == self.nodes()[w[j]] by {}
            assert(w[0] == fi);
            assert(w.last() == to_idx as int);
            assert(reach_within(es, dir, filt, fi, ti, d_to as nat));
        }
        Some(out)
    }
}

} // verus!
