//! Dead-code analysis: symbols that no entrypoint can reach.
use vstd::prelude::*;
use crate::blast_radius::{is_test_symbol, spec_is_test_symbol};
use crate::digraph::{graph_in_edges, graph_node, graph_node_count, graph_out_edges, in_adjacency};
use crate::edge::{DependencyEdge, EdgeKind};
use crate::graph::{adjacency, CodeGraph, Direction};
use crate::reach::{
    edge_end, edge_from, lemma_adjacency_complete, lemma_adjacency_sound, lemma_reach_split, lemma_reach_step,
    lemma_reach_zero, reach_within, step,
};
use crate::symbol::SymbolNode;
use crate::text::str_equal;

verus! {

/// Entrypoints and public surface: exported symbols, the standard entrypoint names `main`,
/// `init`, `run` and `handler`, and test symbols.
pub open spec fn spec_is_entrypoint(symbol: SymbolNode) -> bool {
    ||| symbol.is_exported
    ||| symbol.name@ == "main"@
    ||| symbol.name@ == "init"@
    ||| symbol.name@ == "run"@
    ||| symbol.name@ == "handler"@
    ||| spec_is_test_symbol(symbol)
}

/// Checks whether a symbol is an entrypoint or part of the exported surface.
pub fn is_entrypoint_or_exported(symbol: &SymbolNode) -> (b: bool)
    ensures
        b == spec_is_entrypoint(*symbol),
{
    if symbol.is_exported {
        return true;
    }
    let name = symbol.name.as_str();
    if str_equal(name, "main") || str_equal(name, "init") || str_equal(name, "run") || str_equal(name, "handler") {
        return true;
    }
    is_test_symbol(symbol)
}

} // verus!

verus! {

/// The order of two paths under `std::path::Path`'s `Ord`: negative, zero or positive.
pub uninterp spec fn path_order(a: Seq<char>, b: Seq<char>) -> int;

/// Calls `Ord::cmp` on two `std::path::Path`s, which compares them component by component
/// under the target platform's path syntax. The contract names the result `path_order` and
/// states, as `Ord` demands of every implementation, that swapping the operands reverses it.
#[verifier::external_body]
fn compare_paths(a: &str, b: &str) -> (r: i8)
    ensures
        r == path_order(a@, b@),
        r == -path_order(b@, a@),
        -1 <= r <= 1,
{
    match std::path::Path::new(a).cmp(std::path::Path::new(b)) {
        std::cmp::Ordering::Less => -1,
        std::cmp::Ordering::Equal => 0,
        std::cmp::Ordering::Greater => 1,
    }
}

} // verus!

verus! {

/// Why a symbol is reported as dead.
#[derive(Clone, Copy, PartialEq, Eq, Structural, Hash, Debug)]
pub enum DeadSymbolReason {
    /// Internal symbol with no incoming edge at all.
    UnreferencedInternalSymbol,
    /// Symbol that has incoming edges, all from symbols that are themselves unreachable.
    IsolatedDeadCycle,
}

/// A symbol reported as dead, with the reason.
#[derive(Debug, PartialEq, Eq)]
pub struct DeadSymbolDetail {
    /// The dead symbol node.
    pub symbol: SymbolNode,
    /// Why it is considered dead.
    pub reason: DeadSymbolReason,
}

impl Clone for DeadSymbolDetail {
    fn clone(&self) -> (res: Self)
        ensures
            res == *self,
    {
        DeadSymbolDetail { symbol: self.symbol.clone(), reason: self.reason }
    }
}

/// The dead symbols of a graph.
#[derive(Debug, PartialEq, Eq, Clone)]
pub struct DeadCodeReport {
    /// The dead symbols, ordered by file path and then by first line.
    pub dead_symbols: Vec<DeadSymbolDetail>,
    /// Number of dead symbols.
    pub total_dead_count: usize,
}

/// Node `v` can be reached along outgoing edges of any kind from some entrypoint.
pub open spec fn live_in(ns: Seq<SymbolNode>, es: Seq<(usize, usize, DependencyEdge)>, v: int) -> bool {
    exists|r: int, k: nat| 0 <= r < ns.len() && spec_is_entrypoint(ns[r])
        && #[trigger] reach_within(es, Direction::Outgoing, None, r, v, k)
}

/// The reason for a dead node: whether any edge at all enters it.
pub open spec fn dead_reason(es: Seq<(usize, usize, DependencyEdge)>, v: int) -> DeadSymbolReason {
    if in_adjacency(es, v as usize).len() == 0 {
        DeadSymbolReason::UnreferencedInternalSymbol
    } else {
        DeadSymbolReason::IsolatedDeadCycle
    }
}

/// The dead nodes among the first `upto`, in index order, with their reasons.
pub open spec fn dead_details(ns: Seq<SymbolNode>, es: Seq<(usize, usize, DependencyEdge)>, upto: int) -> Seq<DeadSymbolDetail>
    decreases upto,
{
    if upto <= 0 {
        Seq::empty()
    } else {
        let rest = dead_details(ns, es, upto - 1);
        if live_in(ns, es, upto - 1) {
            rest
        } else {
            rest.push(DeadSymbolDetail { symbol: ns[upto - 1], reason: dead_reason(es, upto - 1) })
        }
    }
}

/// `a` comes strictly before `b`: by file path, then by first line.
pub open spec fn detail_precedes(a: DeadSymbolDetail, b: DeadSymbolDetail) -> bool {
    let c = path_order(a.symbol.file_path@, b.symbol.file_path@);
    c < 0 || (c == 0 && a.symbol.line_range.0 < b.symbol.line_range.0)
}

/// No entry of `s` comes strictly before the entry preceding it.
pub open spec fn details_ordered(s: Seq<DeadSymbolDetail>) -> bool {
    forall|i: int| 0 < i < s.len() ==> !detail_precedes(#[trigger] s[i], s[i - 1])
}

/// `s` with `d` inserted just after the last entry that `d` does not come strictly before.
pub open spec fn insert_stably(s: Seq<DeadSymbolDetail>, d: DeadSymbolDetail) -> Seq<DeadSymbolDetail>
    decreases s.len(),
{
    if s.len() == 0 || !detail_precedes(d, s.last()) {
        s.push(d)
    } else {
        insert_stably(s.drop_last(), d).push(s.last())
    }
}

/// The entries of `s` sorted stably: each in turn inserted just after the last entry already
/// placed that it does not come strictly before, so that entries with equal keys keep their
/// order.
pub open spec fn sorted_stably(s: Seq<DeadSymbolDetail>) -> Seq<DeadSymbolDetail>
    decreases s.len(),
{
    if s.len() == 0 {
        s
    } else {
        insert_stably(sorted_stably(s.drop_last()), s.last())
    }
}

/// Inserting at a position that `d` comes strictly before every later entry of, and not
/// before the entry just ahead, is the stable insertion.
proof fn lemma_insert_stably_at(s: Seq<DeadSymbolDetail>, d: DeadSymbolDetail, p: int)
    requires
        0 <= p <= s.len(),
        p == 0 || !detail_precedes(d, s[p - 1]),
        forall|q: int| p <= q < s.len() ==> detail_precedes(d, #[trigger] s[q]),
    ensures
        insert_stably(s, d) == s.insert(p, d),
    decreases s.len(),
{
    if p == s.len() {
        assert(s.insert(p, d) =~= s.push(d));
    } else {
        assert(detail_precedes(d, s[s.len() - 1]));
        let init = s.drop_last();
        assert forall|q: int| p <= q < init.len() implies detail_precedes(d, #[trigger] init[q]) by {
            assert(init[q] == s[q]);
        }
        if p > 0 {
            assert(init[p - 1] == s[p - 1]);
        }
        lemma_insert_stably_at(init, d, p);
        assert(init.insert(p, d).push(s.last()) =~= s.insert(p, d));
    }
}

/// Whether `a` comes strictly before `b`; when it does, `b` does not come before `a`.
fn precedes(a: &DeadSymbolDetail, b: &DeadSymbolDetail) -> (r: bool)
    ensures
        r == detail_precedes(*a, *b),
        r ==> !detail_precedes(*b, *a),
{
    let c = compare_paths(a.symbol.file_path.as_str(), b.symbol.file_path.as_str());
    c < 0 || (c == 0 && a.symbol.line_range.0 < b.symbol.line_range.0)
}

/// Stable insertion sort by `detail_precedes`.
fn sort_details(items: Vec<DeadSymbolDetail>) -> (out: Vec<DeadSymbolDetail>)
    ensures
        out@ == sorted_stably(items@),
        out@.to_multiset() == items@.to_multiset(),
        details_ordered(out@),
{
    broadcast use vstd::seq_lib::group_to_multiset_ensures;
    let mut out: Vec<DeadSymbolDetail> = Vec::new();
    let n = items.len();
    for i in 0..n
        invariant
            n == items@.len(),
            out@.to_multiset() == items@.take(i as int).to_multiset(),
            details_ordered(out@),
            out@ == sorted_stably(items@.take(i as int)),
    {
        let d = items[i].clone();
        let mut p = out.len();
        while p > 0 && precedes(&d, &out[p - 1])
            invariant
                p <= out@.len(),
                details_ordered(out@),
                p < out@.len() ==> detail_precedes(d, out@[p as int]) && !detail_precedes(out@[p as int], d),
                forall|q: int| p <= q < out@.len() ==> detail_precedes(d, #[trigger] out@[q]),
            decreases p,
        {
            p = p - 1;
        }
        proof {
            assert(p == 0 || !detail_precedes(d, out@[p - 1]));
        }
        let ghost before = out@;
        proof {
            lemma_insert_stably_at(before, d, p as int);
            assert(items@.take(i + 1).drop_last() =~= items@.take(i as int));
            assert(items@.take(i + 1).last() == items@[i as int]);
        }
        out.insert(p, d);
        proof {
            let t = out@;
            assert(t == before.insert(p as int, d));
            vstd::seq_lib::to_multiset_insert(before, p as int, d);
            assert(items@.take(i + 1) =~= items@.take(i as int).push(items@[i as int]));
            vstd::seq_lib::to_multiset_build(items@.take(i as int), items@[i as int]);
            assert(d == items@[i as int]);
            assert forall|j: int| 0 < j < t.len() implies !detail_precedes(#[trigger] t[j], t[j - 1]) by {
                if j < p {
                    assert(t[j] == before[j] && t[j - 1] == before[j - 1]);
                } else if j == p {
                    assert(t[j - 1] == before[j - 1]);
                } else if j == p + 1 {
                    assert(t[j] == before[p as int]);
                } else {
                    assert(t[j] == before[j - 1] && t[j - 1] == before[j - 2]);
                }
            }
        }
    }
    assert(items@.take(n as int) =~= items@);
    out
}

} // verus!

verus! {

/// A set of nodes that holds `r` and is closed under steps holds everything reachable from `r`.
proof fn lemma_closed_reach(es: Seq<(usize, usize, DependencyEdge)>, vis: Seq<bool>, r: int, v: int, k: nat)
    requires
        0 <= r < vis.len(),
        vis[r],
        forall|u: int, e: int| 0 <= u < vis.len() && vis[u] && 0 <= e < es.len()
            && #[trigger] edge_from(es[e], Direction::Outgoing, None, u)
            ==> 0 <= edge_end(es[e], Direction::Outgoing) < vis.len() && vis[edge_end(es[e], Direction::Outgoing)],
        reach_within(es, Direction::Outgoing, None, r, v, k),
    ensures
        0 <= v < vis.len(),
        vis[v],
    decreases k,
{
    if k == 0 {
        lemma_reach_zero(es, Direction::Outgoing, None, r, v);
    } else {
        lemma_reach_split(es, Direction::Outgoing, None, r, v, k);
        if reach_within(es, Direction::Outgoing, None, r, v, (k - 1) as nat) {
            lemma_closed_reach(es, vis, r, v, (k - 1) as nat);
        } else {
            let u = choose|u: int| #[trigger] reach_within(es, Direction::Outgoing, None, r, u, (k - 1) as nat)
                && step(es, Direction::Outgoing, None, u, v);
            lemma_closed_reach(es, vis, r, u, (k - 1) as nat);
            let e = choose|e: int| 0 <= e < es.len() && #[trigger] edge_from(es[e], Direction::Outgoing, None, u)
                && edge_end(es[e], Direction::Outgoing) == v;
        }
    }
}

/// Distinct indices below `n` number at most `n`.
proof fn lemma_distinct_indices_bounded(s: Seq<usize>, n: nat)
    requires
        forall|i: int, j: int| 0 <= i < s.len() && 0 <= j < s.len() && i != j ==> s[i] != s[j],
        forall|i: int| 0 <= i < s.len() ==> s[i] < n,
    ensures
        s.len() <= n,
{
    let t = s.map_values(|x: usize| (x, 0usize));
    assert forall|i: int, j: int| 0 <= i < t.len() && 0 <= j < t.len() && i != j implies
        (#[trigger] t[i]).0 != (#[trigger] t[j]).0 by {
        assert(t[i].0 == s[i] && t[j].0 == s[j]);
    }
    assert forall|i: int| 0 <= i < t.len() implies (#[trigger] t[i]).0 < n by {
        assert(t[i].0 == s[i]);
    }
    crate::reach::lemma_distinct_bounded(t, n);
}

/// Marks the nodes reachable from some entrypoint: a breadth-first search along outgoing
/// edges of every kind, started from all entrypoints at once.
fn live_marks(graph: &CodeGraph) -> (marks: Vec<bool>)
    requires
        graph.wf(),
    ensures
        marks@.len() == graph.nodes().len(),
        forall|v: int| 0 <= v < marks@.len() ==> (marks@[v] <==> live_in(graph.nodes(), graph.edges(), v)),
{
    let ghost ns = graph.nodes();
    let ghost es = graph.edges();
    let n = graph_node_count(&graph.graph);
    let mut marks: Vec<bool> = Vec::new();
    for i in 0..n
        invariant
            marks@.len() == i,
            forall|j: int| 0 <= j < i ==> !marks@[j],
    {
        marks.push(false);
    }
    let mut order: Vec<usize> = Vec::new();
    for v in 0..n
        invariant
            graph.wf(),
            n == ns.len(),
            ns == graph.nodes(),
            es == graph.edges(),
            marks@.len() == n,
            forall|w: int| 0 <= w < n ==> (marks@[w] <==> exists|i: int| 0 <= i < order@.len() && order@[i] == w),
            forall|i: int| 0 <= i < order@.len() ==> (order@[i] as int) < v,
            forall|i: int, j: int| 0 <= i < order@.len() && 0 <= j < order@.len() && i != j ==> order@[i] != order@[j],
            forall|i: int| 0 <= i < order@.len() ==> spec_is_entrypoint(ns[order@[i] as int]),
            forall|w: int| 0 <= w < v && spec_is_entrypoint(ns[w]) ==> marks@[w],
    {
        let node = graph_node(&graph.graph, v);
        if is_entrypoint_or_exported(node) {
            let ghost o0 = order@;
            let ghost mk0 = marks@;
            marks.set(v, true);
            order.push(v);
            proof {
                assert forall|w: int| 0 <= w < n implies (marks@[w] <==> exists|i: int| 0 <= i < order@.len() && order@[i] == w) by {
                    if w == v {
                        assert(order@[order@.len() - 1] == w);
                    } else {
                        assert(marks@[w] == mk0[w]);
                        if exists|i: int| 0 <= i < order@.len() && order@[i] == w {
                            let i = choose|i: int| 0 <= i < order@.len() && order@[i] == w;
                            assert(i < o0.len());
                            assert(o0[i] == w);
                        }
                        if mk0[w] {
                            let i = choose|i: int| 0 <= i < o0.len() && o0[i] == w;
                            assert(order@[i] == w);
                        }
                    }
                }
            }
        }
    }
    proof {
        assert forall|i: int| 0 <= i < order@.len() implies live_in(ns, es, order@[i] as int) by {
            let r = order@[i] as int;
            lemma_reach_zero(es, Direction::Outgoing, None, r, r);
        }
        lemma_distinct_indices_bounded(order@, n as nat);
    }
    let mut head: usize = 0;
    while head < order.len()
        invariant
            graph.wf(),
            n == ns.len(),
            ns == graph.nodes(),
            es == graph.edges(),
            marks@.len() == n,
            head <= order@.len() <= n,
            forall|w: int| 0 <= w < n ==> (marks@[w] <==> exists|i: int| 0 <= i < order@.len() && order@[i] == w),
            forall|i: int| 0 <= i < order@.len() ==> (order@[i] as int) < n,
            forall|i: int, j: int| 0 <= i < order@.len() && 0 <= j < order@.len() && i != j ==> order@[i] != order@[j],
            forall|i: int| 0 <= i < order@.len() ==> live_in(ns, es, #[trigger] order@[i] as int),
            forall|w: int| 0 <= w < n && spec_is_entrypoint(ns[w]) ==> marks@[w],
            forall|i: int, e: int| 0 <= i < head && 0 <= e < es.len()
                && #[trigger] edge_from(es[e], Direction::Outgoing, None, order@[i] as int)
                ==> marks@[edge_end(es[e], Direction::Outgoing)],
        decreases 2 * n - head - order@.len(),
    {
        let curr = order[head];
        let ghost h = head as int;
        let ghost adj = adjacency(es, curr, Direction::Outgoing);
        proof {
            crate::graph::lemma_adjacency_bounds(es, curr, Direction::Outgoing, n as nat);
        }
        let nbrs = graph_out_edges(&graph.graph, curr);
        let count = nbrs.len();
        let ghost order1 = order@;
        for m in 0..count
            invariant
                graph.wf(),
                n == ns.len(),
                ns == graph.nodes(),
                es == graph.edges(),
                count == nbrs@.len(),
                adj == adjacency(es, curr, Direction::Outgoing),
                nbrs@.len() == adj.len(),
                forall|m2: int| 0 <= m2 < nbrs@.len() ==> (#[trigger] nbrs@[m2]).0 == adj[m2].0,
                forall|m2: int| 0 <= m2 < adj.len() ==> (#[trigger] adj[m2]).0 < n,
                forall|m2: int| 0 <= m2 < m ==> marks@[(#[trigger] adj[m2]).0 as int],
                curr < n,
                h == head,
                h < order1.len(),
                order1[h] == curr,
                order1.len() <= order@.len() <= n,
                forall|i: int| 0 <= i < order1.len() ==> order@[i] == order1[i],
                marks@.len() == n,
                forall|w: int| 0 <= w < n ==> (marks@[w] <==> exists|i: int| 0 <= i < order@.len() && order@[i] == w),
                forall|i: int| 0 <= i < order@.len() ==> (order@[i] as int) < n,
                forall|i: int, j: int| 0 <= i < order@.len() && 0 <= j < order@.len() && i != j ==> order@[i] != order@[j],
                forall|i: int| 0 <= i < order@.len() ==> live_in(ns, es, #[trigger] order@[i] as int),
                forall|w: int| 0 <= w < n && spec_is_entrypoint(ns[w]) ==> marks@[w],
                forall|i: int, e: int| 0 <= i < head && 0 <= e < es.len()
                    && #[trigger] edge_from(es[e], Direction::Outgoing, None, order@[i] as int)
                    ==> marks@[edge_end(es[e], Direction::Outgoing)],
        {
            let next = nbrs[m].0;
            if !marks[next] {
                let ghost o0 = order@;
                let ghost mk0 = marks@;
                marks.set(next, true);
                order.push(next);
                proof {
                    lemma_adjacency_sound(es, curr, Direction::Outgoing, m as int);
                    let e = choose|e: int| 0 <= e < es.len() && #[trigger] crate::reach::edge_start(es[e], Direction::Outgoing) == curr
                        && edge_end(es[e], Direction::Outgoing) == adj[m as int].0 as int && es[e].2 == adj[m as int].1;
                    assert(edge_from(es[e], Direction::Outgoing, None, curr as int));
                    assert(step(es, Direction::Outgoing, None, curr as int, next as int));
                    assert(live_in(ns, es, o0[h] as int));
                    let (r, k) = choose|r: int, k: nat| 0 <= r < ns.len() && spec_is_entrypoint(ns[r])
                        && #[trigger] reach_within(es, Direction::Outgoing, None, r, curr as int, k);
                    lemma_reach_step(es, Direction::Outgoing, None, r, curr as int, next as int, k);
                    assert(live_in(ns, es, next as int));
                    assert forall|w: int| 0 <= w < n implies (marks@[w] <==> exists|i: int| 0 <= i < order@.len() && order@[i] == w) by {
                        if w == next {
                            assert(order@[order@.len() - 1] == w);
                        } else {
                            assert(marks@[w] == mk0[w]);
                            if exists|i: int| 0 <= i < order@.len() && order@[i] == w {
                                let i = choose|i: int| 0 <= i < order@.len() && order@[i] == w;
                                assert(i < o0.len());
                                assert(o0[i] == w);
                            }
                            if mk0[w] {
                                let i = choose|i: int| 0 <= i < o0.len() && o0[i] == w;
                                assert(order@[i] == w);
                            }
                        }
                    }
                    assert forall|i: int| 0 <= i < o0.len() implies o0[i] != next by {
                        assert(mk0[o0[i] as int]);
                    }
                    assert forall|i: int| 0 <= i < order@.len() implies live_in(ns, es, #[trigger] order@[i] as int) by {
                        if i < o0.len() {
                            assert(order@[i] == o0[i]);
                        }
                    }
                    lemma_distinct_indices_bounded(order@, n as nat);
                }
            }
        }
        proof {
            assert forall|i: int, e: int| 0 <= i < head + 1 && 0 <= e < es.len()
                && #[trigger] edge_from(es[e], Direction::Outgoing, None, order@[i] as int)
                implies marks@[edge_end(es[e], Direction::Outgoing)] by {
                if i == h {
                    assert(order@[i] == curr);
                    lemma_adjacency_complete(es, curr, Direction::Outgoing, e);
                    let m2 = choose|m2: int| 0 <= m2 < adj.len() && (#[trigger] adj[m2]).0 == edge_end(es[e], Direction::Outgoing)
                        && adj[m2].1 == es[e].2;
                    assert(marks@[adj[m2].0 as int]);
                }
            }
        }
        head = head + 1;
    }
    proof {
        let vis = marks@;
        assert forall|u: int, e: int| 0 <= u < vis.len() && vis[u] && 0 <= e < es.len()
            && #[trigger] edge_from(es[e], Direction::Outgoing, None, u)
            implies 0 <= edge_end(es[e], Direction::Outgoing) < vis.len() && vis[edge_end(es[e], Direction::Outgoing)] by {
            let i = choose|i: int| 0 <= i < order@.len() && order@[i] == u;
            assert(edge_from(es[e], Direction::Outgoing, None, order@[i] as int));
        }
        assert forall|v: int| 0 <= v < marks@.len() implies (marks@[v] <==> live_in(ns, es, v)) by {
            if marks@[v] {
                let i = choose|i: int| 0 <= i < order@.len() && order@[i] == v;
                assert(live_in(ns, es, order@[i] as int));
            }
            if live_in(ns, es, v) {
                let (r, k) = choose|r: int, k: nat| 0 <= r < ns.len() && spec_is_entrypoint(ns[r])
                    && #[trigger] reach_within(es, Direction::Outgoing, None, r, v, k);
                lemma_closed_reach(es, vis, r, v, k);
            }
        }
    }
    marks
}

} // verus!

verus! {

/// Dead-code analysis over a graph.
pub struct DeadCodeDetector<'a> {
    graph: &'a CodeGraph,
}

impl<'a> DeadCodeDetector<'a> {
    /// The graph under analysis.
    pub closed spec fn view_graph(&self) -> CodeGraph {
        *self.graph
    }

    /// Creates a detector over `graph`.
    pub fn new(graph: &'a CodeGraph) -> (d: Self)
        ensures
            d.view_graph() == *graph,
    {
        DeadCodeDetector { graph }
    }

    /// Reports every symbol that no entrypoint reaches along outgoing edges of any kind,
    /// ordered by file path and then by first line (symbols that tie keep index order).
    /// A dead symbol with no incoming edge is an unreferenced internal symbol; one that has
    /// incoming edges is part of an isolated dead cluster.
    pub fn find_dead_symbols(&self) -> (report: DeadCodeReport)
        requires
            self.view_graph().wf(),
        ensures
            report.total_dead_count == report.dead_symbols@.len(),
            report.dead_symbols@ == sorted_stably(dead_details(
                self.view_graph().nodes(),
                self.view_graph().edges(),
                self.view_graph().nodes().len() as int,
            )),
            report.dead_symbols@.to_multiset() == dead_details(
                self.view_graph().nodes(),
                self.view_graph().edges(),
                self.view_graph().nodes().len() as int,
            ).to_multiset(),
            details_ordered(report.dead_symbols@),
    {
        let graph = self.graph;
        let ghost ns = graph.nodes();
        let ghost es = graph.edges();
        let marks = live_marks(graph);
        let n = graph_node_count(&graph.graph);
        let mut dead: Vec<DeadSymbolDetail> = Vec::new();
        for v in 0..n
            invariant
                graph.wf(),
                n == ns.len(),
                ns == graph.nodes(),
                es == graph.edges(),
                marks@.len() == n,
                forall|w: int| 0 <= w < n ==> (marks@[w] <==> live_in(ns, es, w)),
                dead@ == dead_details(ns, es, v as int),
        {
            if !marks[v] {
                let in_degree = graph_in_edges(&graph.graph, v).len();
                let reason = if in_degree == 0 {
                    DeadSymbolReason::UnreferencedInternalSymbol
                } else {
                    DeadSymbolReason::IsolatedDeadCycle
                };
                let symbol = graph_node(&graph.graph, v).clone();
                dead.push(DeadSymbolDetail { symbol, reason });
            }
        }
        let dead_symbols = sort_details(dead);
        let total_dead_count = dead_symbols.len();
        DeadCodeReport { dead_symbols, total_dead_count }
    }
}

} // verus!
