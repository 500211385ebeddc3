//! Reachability over the edge model: single steps, bounded reachability and distances.
use vstd::prelude::*;
use crate::digraph::{in_adjacency, out_adjacency};
use crate::edge::{DependencyEdge, EdgeKind};
use crate::graph::{adjacency, kind_matches, Direction};

verus! {

/// The node an edge starts from when followed in direction `dir`.
pub open spec fn edge_start(e: (usize, usize, DependencyEdge), dir: Direction) -> int {
    match dir {
        Direction::Outgoing => e.0 as int,
        Direction::Incoming => e.1 as int,
    }
}

/// The node an edge leads to when followed in direction `dir`.
pub open spec fn edge_end(e: (usize, usize, DependencyEdge), dir: Direction) -> int {
    match dir {
        Direction::Outgoing => e.1 as int,
        Direction::Incoming => e.0 as int,
    }
}

/// Whether `e` can be followed from `u` in direction `dir` under the kind filter.
pub open spec fn edge_from(e: (usize, usize, DependencyEdge), dir: Direction, filter: Option<EdgeKind>, u: int) -> bool {
    kind_matches(e.2, filter) && edge_start(e, dir) == u
}

/// One step from `u` to `v` along some edge of `es`.
pub open spec fn step(es: Seq<(usize, usize, DependencyEdge)>, dir: Direction, filter: Option<EdgeKind>, u: int, v: int) -> bool {
    exists|e: int| 0 <= e < es.len() && #[trigger] edge_from(es[e], dir, filter, u) && edge_end(es[e], dir) == v
}

/// `p` is a walk: consecutive nodes are joined by a step.
pub open spec fn is_walk(es: Seq<(usize, usize, DependencyEdge)>, dir: Direction, filter: Option<EdgeKind>, p: Seq<int>) -> bool {
    &&& p.len() >= 1
    &&& forall|i: int| 0 <= i < p.len() - 1 ==> #[trigger] step(es, dir, filter, p[i], p[i + 1])
}

/// `v` is reachable from `r` in at most `k` steps.
pub open spec fn reach_within(
    es: Seq<(usize, usize, DependencyEdge)>,
    dir: Direction,
    filter: Option<EdgeKind>,
    r: int,
    v: int,
    k: nat,
) -> bool {
    exists|p: Seq<int>| #[trigger] is_walk(es, dir, filter, p) && p[0] == r && p.last() == v && p.len() <= k + 1
}

/// The fewest steps from `r` to `v` is exactly `d`.
pub open spec fn is_distance(
    es: Seq<(usize, usize, DependencyEdge)>,
    dir: Direction,
    filter: Option<EdgeKind>,
    r: int,
    v: int,
    d: nat,
) -> bool {
    reach_within(es, dir, filter, r, v, d) && (d == 0 || !reach_within(es, dir, filter, r, v, (d - 1) as nat))
}

/// The start is reachable in zero steps, and nothing else is.
pub proof fn lemma_reach_zero(es: Seq<(usize, usize, DependencyEdge)>, dir: Direction, filter: Option<EdgeKind>, r: int, v: int)
    ensures
        reach_within(es, dir, filter, r, r, 0),
        reach_within(es, dir, filter, r, v, 0) ==> v == r,
{
    let p = seq![r];
    assert(is_walk(es, dir, filter, p));
}

/// Reachability within `k` steps implies reachability within any larger bound.
pub proof fn lemma_reach_monotone(
    es: Seq<(usize, usize, DependencyEdge)>, dir: Direction, filter: Option<EdgeKind>, r: int, v: int, k: nat, k2: nat,
)
    requires
        reach_within(es, dir, filter, r, v, k),
        k <= k2,
    ensures
        reach_within(es, dir, filter, r, v, k2),
{
    let p = choose|p: Seq<int>| #[trigger] is_walk(es, dir, filter, p) && p[0] == r && p.last() == v && p.len() <= k + 1;
    assert(is_walk(es, dir, filter, p));
}

/// A distance is no larger than any bound within which the node is reachable.
pub proof fn lemma_distance_minimal(
    es: Seq<(usize, usize, DependencyEdge)>, dir: Direction, filter: Option<EdgeKind>, r: int, v: int, d: nat, k: nat,
)
    requires
        is_distance(es, dir, filter, r, v, d),
        reach_within(es, dir, filter, r, v, k),
    ensures
        d <= k,
{
    if k < d {
        lemma_reach_monotone(es, dir, filter, r, v, k, (d - 1) as nat);
    }
}

/// A step extends reachability by one.
pub proof fn lemma_reach_step(
    es: Seq<(usize, usize, DependencyEdge)>, dir: Direction, filter: Option<EdgeKind>, r: int, u: int, v: int, k: nat,
)
    requires
        reach_within(es, dir, filter, r, u, k),
        step(es, dir, filter, u, v),
    ensures
        reach_within(es, dir, filter, r, v, k + 1),
{
    let p = choose|p: Seq<int>| #[trigger] is_walk(es, dir, filter, p) && p[0] == r && p.last() == u && p.len() <= k + 1;
    let q = p.push(v);
    assert forall|i: int| 0 <= i < q.len() - 1 implies #[trigger] step(es, dir, filter, q[i], q[i + 1]) by {
        if i < p.len() - 1 {
            assert(q[i] == p[i] && q[i + 1] == p[i + 1]);
        } else {
            assert(q[i] == u && q[i + 1] == v);
        }
    }
    assert(is_walk(es, dir, filter, q));
}

/// Reaching a node within `k > 0` steps means reaching it within `k - 1`, or reaching one of
/// its predecessors within `k - 1`.
pub proof fn lemma_reach_split(
    es: Seq<(usize, usize, DependencyEdge)>, dir: Direction, filter: Option<EdgeKind>, r: int, v: int, k: nat,
)
    requires
        reach_within(es, dir, filter, r, v, k),
        k > 0,
    ensures
        reach_within(es, dir, filter, r, v, (k - 1) as nat)
        || exists|u: int| #[trigger] reach_within(es, dir, filter, r, u, (k - 1) as nat) && step(es, dir, filter, u, v),
{
    let p = choose|p: Seq<int>| #[trigger] is_walk(es, dir, filter, p) && p[0] == r && p.last() == v && p.len() <= k + 1;
    if p.len() <= k {
        assert(is_walk(es, dir, filter, p));
    } else {
        let q = p.drop_last();
        let u = p[p.len() - 2];
        assert forall|i: int| 0 <= i < q.len() - 1 implies #[trigger] step(es, dir, filter, q[i], q[i + 1]) by {
            assert(q[i] == p[i] && q[i + 1] == p[i + 1]);
            assert(step(es, dir, filter, p[i], p[i + 1]));
        }
        assert(is_walk(es, dir, filter, q));
        assert(q.last() == u);
        assert(reach_within(es, dir, filter, r, u, (k - 1) as nat));
        assert(step(es, dir, filter, p[p.len() - 2], p[p.len() - 2 + 1]));
    }
}

/// Every edge at `a` appears in the adjacency of `a`.
pub proof fn lemma_adjacency_complete(es: Seq<(usize, usize, DependencyEdge)>, a: usize, dir: Direction, e: int)
    requires
        0 <= e < es.len(),
        edge_start(es[e], dir) == a,
    ensures
        exists|m: int| 0 <= m < adjacency(es, a, dir).len()
            && (#[trigger] adjacency(es, a, dir)[m]).0 == edge_end(es[e], dir)
            && adjacency(es, a, dir)[m].1 == es[e].2,
    decreases es.len(),
{
    let init = es.drop_last();
    let last = es[es.len() - 1];
    let r = adjacency(es, a, dir);
    let r0 = adjacency(init, a, dir);
    let head_matches = edge_start(last, dir) == a;
    assert(head_matches ==> r == seq![(edge_end(last, dir) as usize, last.2)] + r0) by {
        match dir {
            Direction::Outgoing => {},
            Direction::Incoming => {},
        }
    }
    assert(!head_matches ==> r == r0) by {
        match dir {
            Direction::Outgoing => {},
            Direction::Incoming => {},
        }
    }
    if e == es.len() - 1 {
        assert(r[0] == (edge_end(last, dir) as usize, last.2));
    } else {
        assert(init[e] == es[e]);
        lemma_adjacency_complete(init, a, dir, e);
        let m = choose|m: int| 0 <= m < r0.len() && (#[trigger] r0[m]).0 == edge_end(init[e], dir) && r0[m].1 == init[e].2;
        if head_matches {
            assert(r[m + 1] == r0[m]);
        }
    }
}

/// Every adjacency entry of `a` comes from an edge at `a`.
pub proof fn lemma_adjacency_sound(es: Seq<(usize, usize, DependencyEdge)>, a: usize, dir: Direction, m: int)
    requires
        0 <= m < adjacency(es, a, dir).len(),
    ensures
        exists|e: int| 0 <= e < es.len() && #[trigger] edge_start(es[e], dir) == a
            && edge_end(es[e], dir) == adjacency(es, a, dir)[m].0 as int
            && es[e].2 == adjacency(es, a, dir)[m].1,
    decreases es.len(),
{
    let init = es.drop_last();
    let last = es[es.len() - 1];
    let r = adjacency(es, a, dir);
    let r0 = adjacency(init, a, dir);
    let head_matches = edge_start(last, dir) == a;
    assert(head_matches ==> r == seq![(edge_end(last, dir) as usize, last.2)] + r0) by {
        match dir {
            Direction::Outgoing => {},
            Direction::Incoming => {},
        }
    }
    assert(!head_matches ==> r == r0) by {
        match dir {
            Direction::Outgoing => {},
            Direction::Incoming => {},
        }
    }
    if head_matches && m == 0 {
        assert(edge_start(es[es.len() - 1], dir) == a);
    } else {
        let m0 = if head_matches { m - 1 } else { m };
        assert(r[m] == r0[m0]);
        lemma_adjacency_sound(init, a, dir, m0);
        let e = choose|e: int| 0 <= e < init.len() && #[trigger] edge_start(init[e], dir) == a
            && edge_end(init[e], dir) == r0[m0].0 as int && init[e].2 == r0[m0].1;
        assert(init[e] == es[e]);
    }
}

/// A sequence of entries with distinct first components below `n` has at most `n` entries.
pub proof fn lemma_distinct_bounded(s: Seq<(usize, usize)>, n: nat)
    requires
        forall|i: int, j: int| 0 <= i < s.len() && 0 <= j < s.len() && i != j ==> (#[trigger] s[i]).0 != (#[trigger] s[j]).0,
        forall|i: int| 0 <= i < s.len() ==> (#[trigger] s[i]).0 < n,
    ensures
        s.len() <= n,
    decreases n,
{
    if n == 0 {
        if s.len() > 0 {
            assert(s[0].0 < n);
        }
    } else if exists|p: int| 0 <= p < s.len() && (#[trigger] s[p]).0 == n - 1 {
        let p = choose|p: int| 0 <= p < s.len() && (#[trigger] s[p]).0 == n - 1;
        let t = s.remove(p);
        assert forall|i: int, j: int| 0 <= i < t.len() && 0 <= j < t.len() && i != j implies
            (#[trigger] t[i]).0 != (#[trigger] t[j]).0 by {
            let i0 = if i < p { i } else { i + 1 };
            let j0 = if j < p { j } else { j + 1 };
            assert(t[i] == s[i0]);
            assert(t[j] == s[j0]);
        }
        assert forall|i: int| 0 <= i < t.len() implies (#[trigger] t[i]).0 < (n - 1) as nat by {
            let i0 = if i < p { i } else { i + 1 };
            assert(t[i] == s[i0]);
            assert(i0 != p);
        }
        lemma_distinct_bounded(t, (n - 1) as nat);
    } else {
        assert forall|i: int| 0 <= i < s.len() implies (#[trigger] s[i]).0 < (n - 1) as nat by {
            assert(s[i].0 != n - 1);
        }
        lemma_distinct_bounded(s, (n - 1) as nat);
    }
}

} // verus!

verus! {

/// Breadth-first coverage: when every listed node below depth `bound` has been expanded, every
/// node reachable within `bound` steps is listed.
pub proof fn lemma_bfs_covers(
    es: Seq<(usize, usize, DependencyEdge)>,
    dir: Direction,
    filter: Option<EdgeKind>,
    r: int,
    order: Seq<(usize, usize)>,
    head: int,
    max_depth: nat,
    bound: nat,
    visited: Set<usize>,
    v: int,
    k: nat,
)
    requires
        order.len() > 0,
        order[0].0 as int == r,
        bound <= max_depth,
        forall|i: int| 0 <= i < order.len() ==> is_distance(es, dir, filter, r, (#[trigger] order[i]).0 as int, order[i].1 as nat),
        forall|i: int| 0 <= i < order.len() && (#[trigger] order[i]).1 < bound ==> i < head,
        forall|i: int, e: int| 0 <= i < head && 0 <= e < es.len() && order[i].1 < max_depth
            && #[trigger] edge_from(es[e], dir, filter, order[i].0 as int)
            ==> visited.contains(edge_end(es[e], dir) as usize),
        forall|w: usize| #[trigger] visited.contains(w) ==> exists|i: int| 0 <= i < order.len() && order[i].0 == w,
        reach_within(es, dir, filter, r, v, k),
        k <= bound,
    ensures
        exists|i: int| 0 <= i < order.len() && order[i].0 as int == v,
    decreases k,
{
    if k == 0 {
        lemma_reach_zero(es, dir, filter, r, v);
        assert(order[0].0 as int == v);
    } else {
        lemma_reach_split(es, dir, filter, r, v, k);
        if reach_within(es, dir, filter, r, v, (k - 1) as nat) {
            lemma_bfs_covers(es, dir, filter, r, order, head, max_depth, bound, visited, v, (k - 1) as nat);
        } else {
            let u = choose|u: int| #[trigger] reach_within(es, dir, filter, r, u, (k - 1) as nat) && step(es, dir, filter, u, v);
            lemma_bfs_covers(es, dir, filter, r, order, head, max_depth, bound, visited, u, (k - 1) as nat);
            let i = choose|i: int| 0 <= i < order.len() && order[i].0 as int == u;
            lemma_distance_minimal(es, dir, filter, r, u, order[i].1 as nat, (k - 1) as nat);
            assert(order[i].1 < bound);
            let e = choose|e: int| 0 <= e < es.len() && #[trigger] edge_from(es[e], dir, filter, u) && edge_end(es[e], dir) == v;
            assert(edge_from(es[e], dir, filter, order[i].0 as int));
            assert(visited.contains(edge_end(es[e], dir) as usize));
        }
    }
}

} // verus!

verus! {

/// A node has at most one distance from the start.
pub proof fn lemma_distance_unique(
    es: Seq<(usize, usize, DependencyEdge)>, dir: Direction, filter: Option<EdgeKind>, r: int, v: int, d1: nat, d2: nat,
)
    requires
        is_distance(es, dir, filter, r, v, d1),
        is_distance(es, dir, filter, r, v, d2),
    ensures
        d1 == d2,
{
    lemma_distance_minimal(es, dir, filter, r, v, d1, d2);
    lemma_distance_minimal(es, dir, filter, r, v, d2, d1);
}

} // verus!
