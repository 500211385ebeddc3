//! Properties of the library that relate several operations, proved over their contracts.
use vstd::prelude::*;
use vstd::string::StringSliceAdditionalSpecFns;
use crate::blast_radius::{spec_risk_level, RiskLevel};
use crate::dead_code::{dead_details, dead_reason, live_in, spec_is_entrypoint};
use crate::digraph::in_adjacency;
use crate::edge::{DependencyEdge, EdgeKind};
use crate::graph::{adjacency, filter_kind, index_in, model, nodes_contain, upserted, CodeGraph, Direction};
use crate::id::{hex_decoded, hex_digit, hex_value, hex_lower, is_hex_16, lemma_hex_lower_shape, lemma_hex_roundtrip, SymbolId};
use crate::reach::{edge_end, edge_from, edge_start, is_distance, is_walk, lemma_reach_zero, reach_within, step};
use crate::symbol::SymbolNode;

verus! {

/// The hexadecimal form of an identifier is 32 digits, and parsing it gives the identifier's
/// bytes back.
pub proof fn law_hex_roundtrip(id: SymbolId, text: &str)
    requires
        text@ == hex_lower(id.0@),
    ensures
        text@.len() == 32,
        is_hex_16(text.spec_bytes()),
        hex_decoded(text.spec_bytes()) == id.0@,
{
    lemma_hex_lower_shape(id.0@);
    lemma_hex_roundtrip(id.0@);
}

/// After upserting a symbol, looking its identifier up finds exactly that symbol.
pub proof fn law_upsert_then_lookup(before: CodeGraph, after: CodeGraph, node: SymbolNode)
    requires
        before.wf(),
        after.wf(),
        model(after) == upserted(model(before), node),
    ensures
        after.spec_contains(node.id),
        after.nodes()[after.spec_index_of(node.id)] == node,
{
    let ns = before.nodes();
    if nodes_contain(ns, node.id) {
        let p = index_in(ns, node.id);
        assert(after.nodes()[p] == node);
        after.lemma_index_of(node.id, p);
    } else {
        let p = ns.len() as int;
        assert(after.nodes()[p] == node);
        after.lemma_index_of(node.id, p);
    }
}

/// Upserting the same symbol twice leaves the graph as upserting it once.
pub proof fn law_upsert_idempotent(g: CodeGraph, node: SymbolNode)
    requires
        g.wf(),
    ensures
        upserted(upserted(model(g), node), node) == upserted(model(g), node),
{
    let ns = g.nodes();
    let once = upserted(model(g), node);
    let p = if nodes_contain(ns, node.id) { index_in(ns, node.id) } else { ns.len() as int };
    if nodes_contain(ns, node.id) {
        g.lemma_index_of(node.id, p);
    }
    assert(once.0[p] == node);
    assert(nodes_contain(once.0, node.id));
    let q = index_in(once.0, node.id);
    assert forall|j: int| 0 <= j < once.0.len() && #[trigger] once.0[j].id == node.id implies j == p by {
        if j != p {
            assert(once.0[j] == ns[j]);
            g.lemma_index_of(node.id, j);
            assert(nodes_contain(ns, node.id));
        }
    }
    assert(q == p);
    assert(once.0.update(q, node) =~= once.0);
}

} // verus!

verus! {

/// A step backwards along incoming edges is a step forwards along outgoing edges.
proof fn lemma_step_reverse(es: Seq<(usize, usize, DependencyEdge)>, filter: Option<EdgeKind>, u: int, v: int)
    ensures
        step(es, Direction::Incoming, filter, u, v) == step(es, Direction::Outgoing, filter, v, u),
{
    if step(es, Direction::Incoming, filter, u, v) {
        let e = choose|e: int| 0 <= e < es.len() && #[trigger] edge_from(es[e], Direction::Incoming, filter, u)
            && edge_end(es[e], Direction::Incoming) == v;
        assert(edge_from(es[e], Direction::Outgoing, filter, v));
    }
    if step(es, Direction::Outgoing, filter, v, u) {
        let e = choose|e: int| 0 <= e < es.len() && #[trigger] edge_from(es[e], Direction::Outgoing, filter, v)
            && edge_end(es[e], Direction::Outgoing) == u;
        assert(edge_from(es[e], Direction::Incoming, filter, u));
    }
}

/// A walk along incoming edges, read backwards, is a walk along outgoing edges.
proof fn lemma_reach_reverse(es: Seq<(usize, usize, DependencyEdge)>, filter: Option<EdgeKind>, r: int, v: int, k: nat)
    requires
        reach_within(es, Direction::Incoming, filter, r, v, k),
    ensures
        reach_within(es, Direction::Outgoing, filter, v, r, k),
{
    let p = choose|p: Seq<int>| #[trigger] is_walk(es, Direction::Incoming, filter, p) && p[0] == r && p.last() == v
        && p.len() <= k + 1;
    let q = p.reverse();
    assert forall|i: int| 0 <= i < q.len() - 1 implies #[trigger] step(es, Direction::Outgoing, filter, q[i], q[i + 1]) by {
        let j = p.len() - 2 - i;
        assert(q[i] == p[j + 1] && q[i + 1] == p[j]);
        assert(step(es, Direction::Incoming, filter, p[j], p[j + 1]));
        lemma_step_reverse(es, filter, p[j], p[j + 1]);
    }
    assert(is_walk(es, Direction::Outgoing, filter, q));
    assert(q[0] == v && q.last() == r);
}

/// A walk along outgoing edges, read backwards, is a walk along incoming edges.
proof fn lemma_reach_reverse_out(es: Seq<(usize, usize, DependencyEdge)>, filter: Option<EdgeKind>, r: int, v: int, k: nat)
    requires
        reach_within(es, Direction::Outgoing, filter, r, v, k),
    ensures
        reach_within(es, Direction::Incoming, filter, v, r, k),
{
    let p = choose|p: Seq<int>| #[trigger] is_walk(es, Direction::Outgoing, filter, p) && p[0] == r && p.last() == v
        && p.len() <= k + 1;
    let q = p.reverse();
    assert forall|i: int| 0 <= i < q.len() - 1 implies #[trigger] step(es, Direction::Incoming, filter, q[i], q[i + 1]) by {
        let j = p.len() - 2 - i;
        assert(q[i] == p[j + 1] && q[i + 1] == p[j]);
        assert(step(es, Direction::Outgoing, filter, p[j], p[j + 1]));
        lemma_step_reverse(es, filter, p[j + 1], p[j]);
    }
    assert(is_walk(es, Direction::Incoming, filter, q));
    assert(q[0] == v && q.last() == r);
}

/// `v` is a caller of `t` at distance `d` exactly when `t` is a callee of `v` at distance `d`:
/// upstream and downstream traversals agree on every pair of nodes.
pub proof fn law_caller_callee_duality(
    es: Seq<(usize, usize, DependencyEdge)>,
    filter: Option<EdgeKind>,
    t: int,
    v: int,
    d: nat,
)
    ensures
        is_distance(es, Direction::Incoming, filter, t, v, d) == is_distance(es, Direction::Outgoing, filter, v, t, d),
{
    if reach_within(es, Direction::Incoming, filter, t, v, d) {
        lemma_reach_reverse(es, filter, t, v, d);
    }
    if reach_within(es, Direction::Outgoing, filter, v, t, d) {
        lemma_reach_reverse_out(es, filter, v, t, d);
    }
    if d > 0 {
        if reach_within(es, Direction::Incoming, filter, t, v, (d - 1) as nat) {
            lemma_reach_reverse(es, filter, t, v, (d - 1) as nat);
        }
        if reach_within(es, Direction::Outgoing, filter, v, t, (d - 1) as nat) {
            lemma_reach_reverse_out(es, filter, v, t, (d - 1) as nat);
        }
    }
}

/// Filtering a sequence with an entry put in front filters the entry and the rest.
proof fn lemma_filter_kind_prepend(x: (usize, DependencyEdge), s: Seq<(usize, DependencyEdge)>, filter: Option<EdgeKind>)
    ensures
        filter_kind(seq![x] + s, filter) == if crate::graph::kind_matches(x.1, filter) {
            seq![x] + filter_kind(s, filter)
        } else {
            filter_kind(s, filter)
        },
    decreases s.len(),
{
    let t = seq![x] + s;
    if s.len() == 0 {
        assert(t.drop_last() =~= Seq::<(usize, DependencyEdge)>::empty());
        assert(t.last() == x);
        assert(filter_kind(Seq::<(usize, DependencyEdge)>::empty(), filter) == Seq::<(usize, DependencyEdge)>::empty());
        assert(Seq::<(usize, DependencyEdge)>::empty().push(x) =~= seq![x]);
        assert(seq![x] + Seq::<(usize, DependencyEdge)>::empty() =~= seq![x]);
    } else {
        let init = s.drop_last();
        assert(t.drop_last() =~= seq![x] + init);
        assert(t.last() == s.last());
        lemma_filter_kind_prepend(x, init, filter);
        let fi = filter_kind(init, filter);
        if crate::graph::kind_matches(x.1, filter) {
            if crate::graph::kind_matches(s.last().1, filter) {
                assert((seq![x] + fi).push(s.last()) =~= seq![x] + fi.push(s.last()));
            }
        }
    }
}

/// A newly added call edge makes its source the first of the target's direct callers,
/// ahead of the callers it had.
pub proof fn law_new_call_edge_is_first_caller(
    es: Seq<(usize, usize, DependencyEdge)>,
    source: usize,
    target: usize,
    edge: DependencyEdge,
)
    requires
        edge.kind == EdgeKind::Calls,
    ensures
        filter_kind(adjacency(es.push((source, target, edge)), target, Direction::Incoming), Some(EdgeKind::Calls))
            == seq![(source, edge)] + filter_kind(adjacency(es, target, Direction::Incoming), Some(EdgeKind::Calls)),
{
    let es2 = es.push((source, target, edge));
    assert(es2.drop_last() =~= es);
    assert(in_adjacency(es2, target) == seq![(source, edge)] + in_adjacency(es, target));
    lemma_filter_kind_prepend((source, edge), in_adjacency(es, target), Some(EdgeKind::Calls));
}

} // verus!

verus! {

/// The dead symbols of the first `upto` nodes are exactly the unreachable ones among them.
proof fn lemma_dead_details_members(ns: Seq<SymbolNode>, es: Seq<(usize, usize, DependencyEdge)>, upto: int)
    requires
        0 <= upto <= ns.len(),
    ensures
        forall|j: int| 0 <= j < dead_details(ns, es, upto).len() ==> exists|v: int| 0 <= v < upto
            && !live_in(ns, es, v) && (#[trigger] dead_details(ns, es, upto)[j]).symbol == ns[v]
            && dead_details(ns, es, upto)[j].reason == dead_reason(es, v),
        forall|v: int| 0 <= v < upto && !live_in(ns, es, v) ==> exists|j: int| 0 <= j < dead_details(ns, es, upto).len()
            && (#[trigger] dead_details(ns, es, upto)[j]).symbol == ns[v],
    decreases upto,
{
    if upto > 0 {
        lemma_dead_details_members(ns, es, upto - 1);
        let rest = dead_details(ns, es, upto - 1);
        let d = dead_details(ns, es, upto);
        assert forall|j: int| 0 <= j < d.len() implies exists|v: int| 0 <= v < upto
            && !live_in(ns, es, v) && (#[trigger] d[j]).symbol == ns[v] && d[j].reason == dead_reason(es, v) by {
            if j < rest.len() {
                assert(d[j] == rest[j]);
            } else {
                assert(!live_in(ns, es, upto - 1));
                assert(d[j].symbol == ns[upto - 1]);
            }
        }
        assert forall|v: int| 0 <= v < upto && !live_in(ns, es, v) implies exists|j: int| 0 <= j < d.len()
            && (#[trigger] d[j]).symbol == ns[v] by {
            if v < upto - 1 {
                let j = choose|j: int| 0 <= j < rest.len() && (#[trigger] rest[j]).symbol == ns[v];
                assert(d[j] == rest[j]);
            } else {
                assert(d[d.len() - 1].symbol == ns[v]);
            }
        }
    }
}

/// Dead-code analysis reports no entrypoint and no reachable symbol: every reported symbol is
/// a node that no entrypoint reaches, reported with the reason its incoming edges give, and
/// every such node is reported.
pub proof fn law_dead_symbols_are_unreachable(ns: Seq<SymbolNode>, es: Seq<(usize, usize, DependencyEdge)>)
    ensures
        forall|j: int| 0 <= j < dead_details(ns, es, ns.len() as int).len() ==> exists|v: int| 0 <= v < ns.len()
            && !live_in(ns, es, v) && !spec_is_entrypoint(ns[v])
            && (#[trigger] dead_details(ns, es, ns.len() as int)[j]).symbol == ns[v]
            && dead_details(ns, es, ns.len() as int)[j].reason == dead_reason(es, v),
        forall|v: int| 0 <= v < ns.len() && !live_in(ns, es, v) ==> exists|j: int|
            0 <= j < dead_details(ns, es, ns.len() as int).len()
            && (#[trigger] dead_details(ns, es, ns.len() as int)[j]).symbol == ns[v],
{
    let n = ns.len() as int;
    lemma_dead_details_members(ns, es, n);
    let d = dead_details(ns, es, n);
    assert forall|j: int| 0 <= j < d.len() implies exists|v: int| 0 <= v < ns.len()
        && !live_in(ns, es, v) && !spec_is_entrypoint(ns[v])
        && (#[trigger] d[j]).symbol == ns[v] && d[j].reason == dead_reason(es, v) by {
        let v = choose|v: int| 0 <= v < n && !live_in(ns, es, v) && (#[trigger] d[j]).symbol == ns[v]
            && d[j].reason == dead_reason(es, v);
        if spec_is_entrypoint(ns[v]) {
            lemma_reach_zero(es, Direction::Outgoing, None, v, v);
            assert(live_in(ns, es, v));
        }
    }
}

/// The order of risk levels.
pub open spec fn risk_rank(l: RiskLevel) -> int {
    match l {
        RiskLevel::Low => 0,
        RiskLevel::Medium => 1,
        RiskLevel::High => 2,
        RiskLevel::Critical => 3,
    }
}

/// Risk never falls when the score reaches more thresholds or more symbols are affected,
/// nor when a public API is impacted.
pub proof fn law_risk_monotone(public1: bool, band1: nat, total1: nat, public2: bool, band2: nat, total2: nat)
    requires
        band1 <= band2,
        total1 <= total2,
        public1 ==> public2,
    ensures
        risk_rank(spec_risk_level(public1, band1, total1)) <= risk_rank(spec_risk_level(public2, band2, total2)),
{
}

/// An impact on a public API, or any affected symbol, is never rated low.
pub proof fn law_risk_never_low_when_impacted(public: bool, band: nat, total: nat)
    requires
        public || total > 0,
    ensures
        spec_risk_level(public, band, total) != RiskLevel::Low,
{
}

/// Traversals are deterministic: what they list, and in which order, depends on the graph's
/// nodes and edges alone, never on how its identifier table happens to be laid out.
pub proof fn law_traversal_depends_on_nodes_and_edges(
    g1: CodeGraph,
    g2: CodeGraph,
    root: SymbolId,
    dir: Direction,
    filter: Option<EdgeKind>,
    max_depth: usize,
)
    requires
        g1.wf(),
        g2.wf(),
        g1.nodes() == g2.nodes(),
        g1.edges() == g2.edges(),
    ensures
        g1.spec_contains(root) == g2.spec_contains(root),
        g1.spec_contains(root) ==> g1.spec_index_of(root) == g2.spec_index_of(root)
            && g1.traversal_order(g1.spec_index_of(root), dir, filter, max_depth)
                == g2.traversal_order(g2.spec_index_of(root), dir, filter, max_depth),
{
}

} // verus!

verus! {

/// Identifiers are unique among the nodes, and every edge joins two nodes.
pub open spec fn state_wf(st: (Seq<SymbolNode>, Seq<(usize, usize, DependencyEdge)>)) -> bool {
    &&& st.0.len() <= u32::MAX
    &&& forall|i: int, j: int| 0 <= i < st.0.len() && 0 <= j < st.0.len() && #[trigger] st.0[i].id == #[trigger] st.0[j].id ==> i == j
    &&& forall|e: int| 0 <= e < st.1.len() ==> (#[trigger] st.1[e]).0 < st.0.len() && st.1[e].1 < st.0.len()
}

/// The state holds an edge with weight `w` from the node carrying `a` to the node carrying `b`.
pub open spec fn has_id_edge(st: (Seq<SymbolNode>, Seq<(usize, usize, DependencyEdge)>), a: SymbolId, b: SymbolId, w: DependencyEdge) -> bool {
    exists|e: int| #![trigger st.1[e]] 0 <= e < st.1.len() && st.1[e].2 == w
        && st.0[st.1[e].0 as int].id == a && st.0[st.1[e].1 as int].id == b
}

/// A well-formed graph's nodes and edges form a well-formed state.
pub proof fn lemma_graph_state_wf(g: CodeGraph)
    requires
        g.wf(),
    ensures
        state_wf((g.nodes(), g.edges())),
{
    assert forall|i: int, j: int| 0 <= i < g.nodes().len() && 0 <= j < g.nodes().len()
        && #[trigger] g.nodes()[i].id == #[trigger] g.nodes()[j].id implies i == j by {
        g.lemma_index_of(g.nodes()[i].id, i);
    }
}

/// The edges left after removing node `a` are the other edges, renumbered.
proof fn lemma_edges_without_node_members(es: Seq<(usize, usize, DependencyEdge)>, a: usize, last: usize)
    ensures
        forall|k: int| 0 <= k < crate::digraph::edges_without_node(es, a, last).len() ==> exists|e: int|
            #![trigger es[e]] 0 <= e < es.len() && es[e].0 != a && es[e].1 != a
            && #[trigger] crate::digraph::edges_without_node(es, a, last)[k]
                == (crate::digraph::relabel(es[e].0, a, last), crate::digraph::relabel(es[e].1, a, last), es[e].2),
        forall|e: int| 0 <= e < es.len() && (#[trigger] es[e]).0 != a && es[e].1 != a ==> exists|k: int|
            0 <= k < crate::digraph::edges_without_node(es, a, last).len()
            && #[trigger] crate::digraph::edges_without_node(es, a, last)[k]
                == (crate::digraph::relabel(es[e].0, a, last), crate::digraph::relabel(es[e].1, a, last), es[e].2),
    decreases es.len(),
{
    if es.len() > 0 {
        let init = es.drop_last();
        lemma_edges_without_node_members(init, a, last);
        let r = crate::digraph::edges_without_node(es, a, last);
        let r0 = crate::digraph::edges_without_node(init, a, last);
        let l = es.last();
        let keep = !(l.0 == a || l.1 == a);
        if keep {
            assert(r == r0.push((crate::digraph::relabel(l.0, a, last), crate::digraph::relabel(l.1, a, last), l.2)));
        } else {
            assert(r == r0);
        }
        assert forall|k: int| 0 <= k < r.len() implies exists|e: int|
            #![trigger es[e]] 0 <= e < es.len() && es[e].0 != a && es[e].1 != a
            && #[trigger] r[k] == (crate::digraph::relabel(es[e].0, a, last), crate::digraph::relabel(es[e].1, a, last), es[e].2) by {
            if k < r0.len() {
                assert(r[k] == r0[k]);
                let e = choose|e: int| #![trigger init[e]] 0 <= e < init.len() && init[e].0 != a && init[e].1 != a
                    && r0[k] == (crate::digraph::relabel(init[e].0, a, last), crate::digraph::relabel(init[e].1, a, last), init[e].2);
                assert(es[e] == init[e]);
            } else {
                assert(es[es.len() - 1] == l);
            }
        }
        assert forall|e: int| 0 <= e < es.len() && (#[trigger] es[e]).0 != a && es[e].1 != a implies exists|k: int|
            0 <= k < r.len()
            && #[trigger] r[k] == (crate::digraph::relabel(es[e].0, a, last), crate::digraph::relabel(es[e].1, a, last), es[e].2) by {
            if e < init.len() {
                assert(init[e] == es[e]);
                let k = choose|k: int| 0 <= k < r0.len()
                    && #[trigger] r0[k] == (crate::digraph::relabel(init[e].0, a, last), crate::digraph::relabel(init[e].1, a, last), init[e].2);
                assert(r[k] == r0[k]);
            } else {
                assert(r[r.len() - 1] == r[r0.len() as int]);
            }
        }
    }
}

} // verus!

verus! {

/// Where the nodes land after a swap-removal of index `a`: every other node `i` moves to
/// `relabel(i)`, and every position is filled by exactly such a node.
proof fn lemma_swap_removed_map(ns: Seq<SymbolNode>, a: int)
    requires
        0 <= a < ns.len() <= u32::MAX,
    ensures
        forall|i: int| 0 <= i < ns.len() && i != a ==>
            0 <= #[trigger] crate::digraph::relabel(i as usize, a as usize, (ns.len() - 1) as usize) < ns.len() - 1
            && crate::digraph::swap_removed(ns, a)[crate::digraph::relabel(i as usize, a as usize, (ns.len() - 1) as usize) as int] == ns[i],
        forall|j: int| 0 <= j < crate::digraph::swap_removed(ns, a).len() ==> exists|i: int| 0 <= i < ns.len() && i != a
            && #[trigger] crate::digraph::swap_removed(ns, a)[j] == ns[i]
            && crate::digraph::relabel(i as usize, a as usize, (ns.len() - 1) as usize) == j,
        crate::digraph::swap_removed(ns, a).len() == ns.len() - 1,
{
    let n = ns.len() as int;
    let last = (n - 1) as usize;
    assert(last as int == n - 1);
    let ns2 = crate::digraph::swap_removed(ns, a);
    assert forall|i: int| 0 <= i < n && i != a implies
        0 <= #[trigger] crate::digraph::relabel(i as usize, a as usize, last) < n - 1
        && ns2[crate::digraph::relabel(i as usize, a as usize, last) as int] == ns[i] by {
        if i == n - 1 {
            assert(ns2[a] == ns[n - 1]);
        } else {
            assert(ns2[i] == ns[i]);
        }
    }
    assert forall|j: int| 0 <= j < ns2.len() implies exists|i: int| 0 <= i < n && i != a
        && #[trigger] ns2[j] == ns[i] && crate::digraph::relabel(i as usize, a as usize, last) == j by {
        if j == a {
            assert(ns2[j] == ns[n - 1]);
            assert(crate::digraph::relabel(last, a as usize, last) == j);
        } else {
            assert(ns2[j] == ns[j]);
        }
    }
}

/// Removing the node carrying `x` keeps identifiers unique, removes `x`, and keeps every
/// other node where its identifier finds it.
proof fn lemma_without_id_nodes(st: (Seq<SymbolNode>, Seq<(usize, usize, DependencyEdge)>), x: SymbolId)
    requires
        state_wf(st),
        nodes_contain(st.0, x),
    ensures
        forall|i: int, j: int| 0 <= i < crate::graph::state_without_id(st, x).0.len()
            && 0 <= j < crate::graph::state_without_id(st, x).0.len()
            && #[trigger] crate::graph::state_without_id(st, x).0[i].id == #[trigger] crate::graph::state_without_id(st, x).0[j].id
            ==> i == j,
        !nodes_contain(crate::graph::state_without_id(st, x).0, x),
        forall|y: SymbolId| y != x ==> (#[trigger] nodes_contain(crate::graph::state_without_id(st, x).0, y)) == nodes_contain(st.0, y),
        forall|y: SymbolId| y != x && nodes_contain(st.0, y) ==> #[trigger] crate::graph::state_without_id(st, x).0[
            index_in(crate::graph::state_without_id(st, x).0, y)] == st.0[index_in(st.0, y)],
{
    let ns = st.0;
    let n = ns.len() as int;
    let a = index_in(ns, x);
    let last = (n - 1) as usize;
    let ns2 = crate::graph::state_without_id(st, x).0;
    assert(ns2 == crate::digraph::swap_removed(ns, a));
    lemma_swap_removed_map(ns, a);
    assert forall|i: int, j: int| 0 <= i < ns2.len() && 0 <= j < ns2.len() && #[trigger] ns2[i].id == #[trigger] ns2[j].id
        implies i == j by {
        let i0 = choose|i0: int| 0 <= i0 < n && i0 != a && #[trigger] ns2[i] == ns[i0]
            && crate::digraph::relabel(i0 as usize, a as usize, last) == i;
        let j0 = choose|j0: int| 0 <= j0 < n && j0 != a && #[trigger] ns2[j] == ns[j0]
            && crate::digraph::relabel(j0 as usize, a as usize, last) == j;
        assert(ns[i0].id == ns[j0].id);
    }
    if nodes_contain(ns2, x) {
        let j = choose|j: int| 0 <= j < ns2.len() && #[trigger] ns2[j].id == x;
        let i0 = choose|i0: int| 0 <= i0 < n && i0 != a && #[trigger] ns2[j] == ns[i0]
            && crate::digraph::relabel(i0 as usize, a as usize, last) == j;
        assert(ns[i0].id == ns[a].id);
    }
    assert forall|y: SymbolId| y != x implies (#[trigger] nodes_contain(ns2, y)) == nodes_contain(ns, y) by {
        if nodes_contain(ns, y) {
            let i = choose|i: int| 0 <= i < n && #[trigger] ns[i].id == y;
            assert(i != a);
            let j = crate::digraph::relabel(i as usize, a as usize, last) as int;
            assert(ns2[j].id == y);
        }
        if nodes_contain(ns2, y) {
            let j = choose|j: int| 0 <= j < ns2.len() && #[trigger] ns2[j].id == y;
            let i0 = choose|i0: int| 0 <= i0 < n && i0 != a && #[trigger] ns2[j] == ns[i0]
                && crate::digraph::relabel(i0 as usize, a as usize, last) == j;
            assert(ns[i0].id == y);
        }
    }
    assert forall|y: SymbolId| y != x && nodes_contain(ns, y) implies #[trigger] ns2[index_in(ns2, y)] == ns[index_in(ns, y)] by {
        let i = index_in(ns, y);
        assert(i != a);
        let j = crate::digraph::relabel(i as usize, a as usize, last) as int;
        assert(ns2[j].id == y);
        let j2 = index_in(ns2, y);
        assert(ns2[j2].id == y);
        assert(j2 == j);
    }
}

/// After removing the node carrying `x`, every edge still joins two nodes.
proof fn lemma_without_id_edge_bounds(st: (Seq<SymbolNode>, Seq<(usize, usize, DependencyEdge)>), x: SymbolId)
    requires
        state_wf(st),
        nodes_contain(st.0, x),
    ensures
        forall|e: int| 0 <= e < crate::graph::state_without_id(st, x).1.len() ==>
            (#[trigger] crate::graph::state_without_id(st, x).1[e]).0 < crate::graph::state_without_id(st, x).0.len()
            && crate::graph::state_without_id(st, x).1[e].1 < crate::graph::state_without_id(st, x).0.len(),
{
    let n = st.0.len() as int;
    let a = index_in(st.0, x);
    let last = (n - 1) as usize;
    assert(last as int == n - 1);
    crate::graph::lemma_edges_without_node_bounds_pub(st.1, a as usize, n as usize);
}

/// An edge between two nodes other than the removed one survives the removal, renumbered.
proof fn lemma_without_id_keeps_edge(st: (Seq<SymbolNode>, Seq<(usize, usize, DependencyEdge)>), x: SymbolId, y: SymbolId, z: SymbolId, w: DependencyEdge)
    requires
        state_wf(st),
        nodes_contain(st.0, x),
        y != x,
        z != x,
        has_id_edge(st, y, z, w),
    ensures
        has_id_edge(crate::graph::state_without_id(st, x), y, z, w),
{
    let ns = st.0;
    let n = ns.len() as int;
    let a = index_in(ns, x);
    let last = (n - 1) as usize;
    let st2 = crate::graph::state_without_id(st, x);
    let es2 = st2.1;
    assert(st2.0 == crate::digraph::swap_removed(ns, a));
    assert(es2 == crate::digraph::edges_without_node(st.1, a as usize, last));
    let e = choose|e: int| #![trigger st.1[e]] 0 <= e < st.1.len() && st.1[e].2 == w
        && ns[st.1[e].0 as int].id == y && ns[st.1[e].1 as int].id == z;
    assert(st.1[e].0 != a && st.1[e].1 != a);
    lemma_edges_without_node_members(st.1, a as usize, last);
    let k = choose|k: int| 0 <= k < es2.len() && #[trigger] es2[k]
        == (crate::digraph::relabel(st.1[e].0, a as usize, last), crate::digraph::relabel(st.1[e].1, a as usize, last), st.1[e].2);
    lemma_swap_removed_map(ns, a);
    assert(st2.0[es2[k].0 as int] == ns[st.1[e].0 as int]);
    assert(st2.0[es2[k].1 as int] == ns[st.1[e].1 as int]);
}

/// Every edge left after the removal comes from an edge between the same identifiers.
proof fn lemma_without_id_edge_origin(st: (Seq<SymbolNode>, Seq<(usize, usize, DependencyEdge)>), x: SymbolId, y: SymbolId, z: SymbolId, w: DependencyEdge)
    requires
        state_wf(st),
        nodes_contain(st.0, x),
        has_id_edge(crate::graph::state_without_id(st, x), y, z, w),
    ensures
        has_id_edge(st, y, z, w),
{
    let ns = st.0;
    let n = ns.len() as int;
    let a = index_in(ns, x);
    let last = (n - 1) as usize;
    let st2 = crate::graph::state_without_id(st, x);
    let es2 = st2.1;
    assert(st2.0 == crate::digraph::swap_removed(ns, a));
    assert(es2 == crate::digraph::edges_without_node(st.1, a as usize, last));
    let k = choose|k: int| #![trigger es2[k]] 0 <= k < es2.len() && es2[k].2 == w
        && st2.0[es2[k].0 as int].id == y && st2.0[es2[k].1 as int].id == z;
    lemma_edges_without_node_members(st.1, a as usize, last);
    let e = choose|e: int| #![trigger st.1[e]] 0 <= e < st.1.len() && st.1[e].0 != a && st.1[e].1 != a
        && es2[k] == (crate::digraph::relabel(st.1[e].0, a as usize, last), crate::digraph::relabel(st.1[e].1, a as usize, last), st.1[e].2);
    lemma_swap_removed_map(ns, a);
    assert(st2.0[es2[k].0 as int] == ns[st.1[e].0 as int]);
    assert(st2.0[es2[k].1 as int] == ns[st.1[e].1 as int]);
}

/// No edge of a well-formed state touches an identifier that no node carries.
proof fn lemma_absent_has_no_edges(st: (Seq<SymbolNode>, Seq<(usize, usize, DependencyEdge)>), x: SymbolId)
    requires
        state_wf(st),
        !nodes_contain(st.0, x),
    ensures
        forall|z: SymbolId, w: DependencyEdge| !#[trigger] has_id_edge(st, x, z, w) && !has_id_edge(st, z, x, w),
{
    assert forall|z: SymbolId, w: DependencyEdge| !#[trigger] has_id_edge(st, x, z, w) && !has_id_edge(st, z, x, w) by {
        if has_id_edge(st, x, z, w) {
            let e = choose|e: int| #![trigger st.1[e]] 0 <= e < st.1.len() && st.1[e].2 == w
                && st.0[st.1[e].0 as int].id == x && st.0[st.1[e].1 as int].id == z;
            assert(nodes_contain(st.0, x));
        }
        if has_id_edge(st, z, x, w) {
            let e = choose|e: int| #![trigger st.1[e]] 0 <= e < st.1.len() && st.1[e].2 == w
                && st.0[st.1[e].0 as int].id == z && st.0[st.1[e].1 as int].id == x;
            assert(nodes_contain(st.0, x));
        }
    }
}

/// Removing the node carrying `x` keeps the state well formed, removes `x` and every edge
/// touching it, and keeps every other node and every edge between other nodes.
pub proof fn lemma_without_id_effect(st: (Seq<SymbolNode>, Seq<(usize, usize, DependencyEdge)>), x: SymbolId)
    requires
        state_wf(st),
    ensures
        state_wf(crate::graph::state_without_id(st, x)),
        !nodes_contain(crate::graph::state_without_id(st, x).0, x),
        forall|y: SymbolId| y != x ==> (#[trigger] nodes_contain(crate::graph::state_without_id(st, x).0, y)) == nodes_contain(st.0, y),
        forall|y: SymbolId| y != x && nodes_contain(st.0, y) ==> #[trigger] crate::graph::state_without_id(st, x).0[
            index_in(crate::graph::state_without_id(st, x).0, y)] == st.0[index_in(st.0, y)],
        forall|y: SymbolId, z: SymbolId, w: DependencyEdge| y != x && z != x ==>
            #[trigger] has_id_edge(crate::graph::state_without_id(st, x), y, z, w) == has_id_edge(st, y, z, w),
        forall|z: SymbolId, w: DependencyEdge| !#[trigger] has_id_edge(crate::graph::state_without_id(st, x), x, z, w)
            && !has_id_edge(crate::graph::state_without_id(st, x), z, x, w),
{
    let st2 = crate::graph::state_without_id(st, x);
    if nodes_contain(st.0, x) {
        lemma_without_id_nodes(st, x);
        lemma_without_id_edge_bounds(st, x);
        assert(state_wf(st2));
        lemma_absent_has_no_edges(st2, x);
        assert forall|y: SymbolId, z: SymbolId, w: DependencyEdge| y != x && z != x implies
            #[trigger] has_id_edge(st2, y, z, w) == has_id_edge(st, y, z, w) by {
            if has_id_edge(st, y, z, w) {
                lemma_without_id_keeps_edge(st, x, y, z, w);
            }
            if has_id_edge(st2, y, z, w) {
                lemma_without_id_edge_origin(st, x, y, z, w);
            }
        }
    } else {
        lemma_absent_has_no_edges(st, x);
    }
}

} // verus!

verus! {

/// Removing a symbol removes it and every edge touching it, and leaves every other symbol,
/// and every edge between other symbols, as it was: the node moved into the freed index is
/// still found by its identifier.
pub proof fn law_remove_symbol_keeps_rest(before: CodeGraph, after: CodeGraph, x: SymbolId)
    requires
        before.wf(),
        (after.nodes(), after.edges()) == crate::graph::state_without_id((before.nodes(), before.edges()), x),
    ensures
        !after.spec_contains(x),
        forall|y: SymbolId| y != x ==> #[trigger] after.spec_contains(y) == before.spec_contains(y),
        forall|y: SymbolId| y != x && before.spec_contains(y) ==>
            #[trigger] after.nodes()[after.spec_index_of(y)] == before.nodes()[before.spec_index_of(y)],
        forall|y: SymbolId, z: SymbolId, w: DependencyEdge| y != x && z != x ==>
            #[trigger] has_id_edge((after.nodes(), after.edges()), y, z, w) == has_id_edge((before.nodes(), before.edges()), y, z, w),
        forall|z: SymbolId, w: DependencyEdge| !#[trigger] has_id_edge((after.nodes(), after.edges()), x, z, w)
            && !has_id_edge((after.nodes(), after.edges()), z, x, w),
{
    lemma_graph_state_wf(before);
    lemma_without_id_effect((before.nodes(), before.edges()), x);
}

/// Removing the nodes carrying each of `ids` in turn removes them all and every edge touching
/// them, and leaves every other node and every edge between other nodes as it was.
pub proof fn lemma_without_ids_effect(st: (Seq<SymbolNode>, Seq<(usize, usize, DependencyEdge)>), ids: Seq<SymbolId>)
    requires
        state_wf(st),
    ensures
        state_wf(crate::graph::state_without_ids(st, ids)),
        forall|k: int| 0 <= k < ids.len() ==> !nodes_contain(crate::graph::state_without_ids(st, ids).0, #[trigger] ids[k]),
        forall|y: SymbolId| !ids.contains(y) ==>
            (#[trigger] nodes_contain(crate::graph::state_without_ids(st, ids).0, y)) == nodes_contain(st.0, y),
        forall|y: SymbolId| !ids.contains(y) && nodes_contain(st.0, y) ==> #[trigger] crate::graph::state_without_ids(st, ids).0[
            index_in(crate::graph::state_without_ids(st, ids).0, y)] == st.0[index_in(st.0, y)],
        forall|y: SymbolId, z: SymbolId, w: DependencyEdge| !ids.contains(y) && !ids.contains(z) ==>
            #[trigger] has_id_edge(crate::graph::state_without_ids(st, ids), y, z, w) == has_id_edge(st, y, z, w),
        forall|k: int, z: SymbolId, w: DependencyEdge| 0 <= k < ids.len() ==>
            !#[trigger] has_id_edge(crate::graph::state_without_ids(st, ids), ids[k], z, w)
            && !has_id_edge(crate::graph::state_without_ids(st, ids), z, ids[k], w),
    decreases ids.len(),
{
    if ids.len() > 0 {
        let init = ids.drop_last();
        let x = ids.last();
        lemma_without_ids_effect(st, init);
        let mid = crate::graph::state_without_ids(st, init);
        lemma_without_id_effect(mid, x);
        let fin = crate::graph::state_without_ids(st, ids);
        assert(fin == crate::graph::state_without_id(mid, x));
        assert forall|k: int| 0 <= k < ids.len() implies !nodes_contain(fin.0, #[trigger] ids[k]) by {
            if k < init.len() && ids[k] != x {
                assert(init[k] == ids[k]);
            }
        }
        assert forall|y: SymbolId| !ids.contains(y) implies (#[trigger] nodes_contain(fin.0, y)) == nodes_contain(st.0, y) by {
            assert(y != x);
            assert(!init.contains(y)) by {
                if init.contains(y) {
                    let k = choose|k: int| 0 <= k < init.len() && init[k] == y;
                    assert(ids[k] == y);
                }
            }
        }
        assert forall|y: SymbolId| !ids.contains(y) && nodes_contain(st.0, y) implies #[trigger] fin.0[index_in(fin.0, y)]
            == st.0[index_in(st.0, y)] by {
            assert(y != x);
            assert(!init.contains(y)) by {
                if init.contains(y) {
                    let k = choose|k: int| 0 <= k < init.len() && init[k] == y;
                    assert(ids[k] == y);
                }
            }
            assert(nodes_contain(mid.0, y));
        }
        assert forall|y: SymbolId, z: SymbolId, w: DependencyEdge| !ids.contains(y) && !ids.contains(z) implies
            #[trigger] has_id_edge(fin, y, z, w) == has_id_edge(st, y, z, w) by {
            assert(y != x && z != x);
            assert(!init.contains(y)) by {
                if init.contains(y) {
                    let k = choose|k: int| 0 <= k < init.len() && init[k] == y;
                    assert(ids[k] == y);
                }
            }
            assert(!init.contains(z)) by {
                if init.contains(z) {
                    let k = choose|k: int| 0 <= k < init.len() && init[k] == z;
                    assert(ids[k] == z);
                }
            }
            assert(has_id_edge(mid, y, z, w) == has_id_edge(st, y, z, w));
        }
        assert forall|k: int, z: SymbolId, w: DependencyEdge| 0 <= k < ids.len() implies
            !#[trigger] has_id_edge(fin, ids[k], z, w) && !has_id_edge(fin, z, ids[k], w) by {
            let y = ids[k];
            if y != x {
                assert(init[k] == y);
                assert(!has_id_edge(mid, y, z, w) && !has_id_edge(mid, z, y, w));
                if z != x {
                    assert(has_id_edge(fin, y, z, w) == has_id_edge(mid, y, z, w));
                    assert(has_id_edge(fin, z, y, w) == has_id_edge(mid, z, y, w));
                }
            }
        }
    }
}

/// Invalidating a file removes every symbol recorded for it and every edge touching them,
/// and leaves every other symbol, and every edge between other symbols, as it was.
pub proof fn law_invalidate_file_keeps_rest(before: CodeGraph, after: CodeGraph, path: Seq<char>)
    requires
        before.wf(),
        model(after) == crate::graph::invalidated(model(before), path),
        before.file_index().contains_key(path),
    ensures
        forall|k: int| 0 <= k < before.file_index()[path].len() ==> !after.spec_contains(#[trigger] before.file_index()[path][k]),
        forall|y: SymbolId| !before.file_index()[path].contains(y) ==> #[trigger] after.spec_contains(y) == before.spec_contains(y),
        forall|y: SymbolId| !before.file_index()[path].contains(y) && before.spec_contains(y) ==>
            #[trigger] after.nodes()[after.spec_index_of(y)] == before.nodes()[before.spec_index_of(y)],
        forall|y: SymbolId, z: SymbolId, w: DependencyEdge| !before.file_index()[path].contains(y) && !before.file_index()[path].contains(z) ==>
            #[trigger] has_id_edge((after.nodes(), after.edges()), y, z, w) == has_id_edge((before.nodes(), before.edges()), y, z, w),
        !after.file_index().contains_key(path),
{
    lemma_graph_state_wf(before);
    lemma_without_ids_effect((before.nodes(), before.edges()), before.file_index()[path]);
}

} // verus!

verus! {

/// Upserting symbols of the file at `path` touches no other file's entry.
proof fn lemma_upserted_all_other_files(
    m: (Seq<SymbolNode>, Seq<(usize, usize, DependencyEdge)>, Map<Seq<char>, Seq<SymbolId>>),
    syms: Seq<SymbolNode>,
    path: Seq<char>,
    p: Seq<char>,
)
    requires
        p != path,
        forall|k: int| 0 <= k < syms.len() ==> (#[trigger] syms[k]).file_path@ == path,
    ensures
        crate::pipeline::upserted_all(m, syms).2.contains_key(p) == m.2.contains_key(p),
        m.2.contains_key(p) ==> crate::pipeline::upserted_all(m, syms).2[p] == m.2[p],
    decreases syms.len(),
{
    if syms.len() > 0 {
        let init = syms.drop_last();
        assert forall|k: int| 0 <= k < init.len() implies (#[trigger] init[k]).file_path@ == path by {
            assert(init[k] == syms[k]);
        }
        lemma_upserted_all_other_files(m, init, path, p);
        assert(syms.last().file_path@ == path);
    }
}

/// Reconciling a parsed file whose symbols all belong to it leaves every other file's entry
/// as it was, and every parsed symbol is in the graph afterwards.
pub proof fn law_reconcile_keeps_other_files(
    m: (Seq<SymbolNode>, Seq<(usize, usize, DependencyEdge)>, Map<Seq<char>, Seq<SymbolId>>),
    path: Seq<char>,
    syms: Seq<SymbolNode>,
    calls: Seq<crate::parser::RawCallReference>,
)
    requires
        forall|k: int| 0 <= k < syms.len() ==> (#[trigger] syms[k]).file_path@ == path,
    ensures
        forall|p: Seq<char>| p != path ==>
            (#[trigger] crate::pipeline::reconciled(m, path, syms, calls).2.contains_key(p)) == m.2.contains_key(p),
        forall|p: Seq<char>| p != path && m.2.contains_key(p) ==>
            #[trigger] crate::pipeline::reconciled(m, path, syms, calls).2[p] == m.2[p],
        forall|k: int| 0 <= k < syms.len() ==>
            nodes_contain(crate::pipeline::reconciled(m, path, syms, calls).0, (#[trigger] syms[k]).id),
{
    let m1 = crate::graph::invalidated(m, path);
    assert forall|p: Seq<char>| p != path implies
        (#[trigger] crate::pipeline::reconciled(m, path, syms, calls).2.contains_key(p)) == m.2.contains_key(p) by {
        lemma_upserted_all_other_files(m1, syms, path, p);
    }
    assert forall|p: Seq<char>| p != path && m.2.contains_key(p) implies
        #[trigger] crate::pipeline::reconciled(m, path, syms, calls).2[p] == m.2[p] by {
        lemma_upserted_all_other_files(m1, syms, path, p);
    }
    assert forall|k: int| 0 <= k < syms.len() implies
        nodes_contain(crate::pipeline::reconciled(m, path, syms, calls).0, (#[trigger] syms[k]).id) by {
        crate::pipeline::lemma_upserted_all_contains(m1, syms, k);
    }
}

} // verus!

verus! {

/// The UTF-8 encoding tells characters apart.
proof fn lemma_encode_injective(c1: Seq<char>, c2: Seq<char>)
    requires
        vstd::utf8::encode_utf8(c1) == vstd::utf8::encode_utf8(c2),
    ensures
        c1 == c2,
{
    vstd::utf8::encode_utf8_decode_utf8(c1);
    vstd::utf8::encode_utf8_decode_utf8(c2);
}

/// `bs` holds no byte `b`.
pub open spec fn lacks_byte(bs: Seq<u8>, b: u8) -> bool {
    forall|i: int| 0 <= i < bs.len() ==> bs[i] != b
}

/// Every byte of a scalar's UTF-8 encoding below `0x80` is the scalar itself.
proof fn lemma_encode_scalar_low_bytes(v: u32)
    requires
        vstd::utf8::is_scalar(v),
    ensures
        forall|i: int| 0 <= i < vstd::utf8::encode_scalar(v).len() && vstd::utf8::encode_scalar(v)[i] < 0x80
            ==> vstd::utf8::encode_scalar(v)[i] as u32 == v,
{
    let e = vstd::utf8::encode_scalar(v);
    if vstd::utf8::has_width_1_encoding(v) {
        assert((v & 0x7F) as u8 as u32 == v) by (bit_vector)
            requires
                0 <= v <= 0x7F,
        ;
    } else {
        assert(0xC0 | ((v >> 6) & 0x1F) as u8 >= 0x80u8) by (bit_vector);
        assert(0xE0 | ((v >> 12) & 0x0F) as u8 >= 0x80u8) by (bit_vector);
        assert(0xF0 | ((v >> 18) & 0x7) as u8 >= 0x80u8) by (bit_vector);
        assert(0x80 | (v & 0x3F) as u8 >= 0x80u8) by (bit_vector);
        assert(0x80 | ((v >> 6) & 0x3F) as u8 >= 0x80u8) by (bit_vector);
        assert(0x80 | ((v >> 12) & 0x3F) as u8 >= 0x80u8) by (bit_vector);
    }
}

/// An ASCII byte occurs in the UTF-8 encoding of `c` only as the encoding of that character.
proof fn lemma_encode_lacks_ascii(c: Seq<char>, b: u8)
    requires
        b < 0x80,
        forall|j: int| 0 <= j < c.len() ==> c[j] as u32 != b as u32,
    ensures
        lacks_byte(vstd::utf8::encode_utf8(c), b),
    decreases c.len(),
{
    if c.len() > 0 {
        let rest = c.drop_first();
        assert forall|j: int| 0 <= j < rest.len() implies rest[j] as u32 != b as u32 by {
            assert(rest[j] == c[j + 1]);
        }
        lemma_encode_lacks_ascii(rest, b);
        let v = c[0] as u32;
        vstd::utf8::char_is_scalar(c[0]);
        lemma_encode_scalar_low_bytes(v);
        let head = vstd::utf8::encode_scalar(v);
        let e = vstd::utf8::encode_utf8(c);
        assert(e == head + vstd::utf8::encode_utf8(rest));
        assert forall|i: int| 0 <= i < e.len() implies e[i] != b by {
            if i < head.len() {
                assert(e[i] == head[i]);
                if head[i] == b {
                    assert(head[i] as u32 == v);
                }
            } else {
                assert(e[i] == vstd::utf8::encode_utf8(rest)[i - head.len()]);
            }
        }
    }
}

/// A character other than `d` is not encoded as `d`'s code.
proof fn lemma_chars_avoid(c: Seq<char>, d: char)
    requires
        (d as u32) < 0x80,
        forall|j: int| 0 <= j < c.len() ==> c[j] != d,
    ensures
        lacks_byte(vstd::utf8::encode_utf8(c), d as u32 as u8),
{
    let x = d as u32;
    assert((x as u8) as u32 == x) by (bit_vector)
        requires
            x < 0x80,
    ;
    assert forall|j: int| 0 <= j < c.len() implies c[j] as u32 != (d as u32 as u8) as u32 by {
        let cj: char = c[j];
        if cj as u32 == d as u32 {
            vstd::utf8::char_u32_cast(cj, cj as u32);
            vstd::utf8::char_u32_cast(d, d as u32);
            assert(cj == d);
        }
    }
    lemma_encode_lacks_ascii(c, d as u32 as u8);
}

/// Two sequences split by a separator that neither prefix holds split the same way.
proof fn lemma_split_at_separator(a1: Seq<u8>, b1: Seq<u8>, a2: Seq<u8>, b2: Seq<u8>, sep: u8)
    requires
        a1 + seq![sep] + b1 == a2 + seq![sep] + b2,
        lacks_byte(a1, sep),
        lacks_byte(a2, sep),
    ensures
        a1 == a2,
        b1 == b2,
{
    let m1 = a1 + seq![sep] + b1;
    let m2 = a2 + seq![sep] + b2;
    if a1.len() < a2.len() {
        assert(m1[a1.len() as int] == sep);
        assert(m2[a1.len() as int] == a2[a1.len() as int]);
    } else if a2.len() < a1.len() {
        assert(m2[a2.len() as int] == sep);
        assert(m1[a2.len() as int] == a1[a2.len() as int]);
    } else {
        assert(a1 =~= m1.subrange(0, a1.len() as int));
        assert(a2 =~= m2.subrange(0, a2.len() as int));
        assert(b1 =~= m1.subrange(a1.len() as int + 1, m1.len() as int));
        assert(b2 =~= m2.subrange(a2.len() as int + 1, m2.len() as int));
    }
}

/// No segment of `ns` holds NUL or `:`.
pub open spec fn segments_plain(ns: Seq<Seq<char>>) -> bool {
    forall|k: int, j: int| 0 <= k < ns.len() && 0 <= j < ns[k].len() ==> ns[k][j] != '\0' && ns[k][j] != ':'
}

/// Namespace bytes followed by a NUL are read back the same way when no segment holds NUL
/// or `:`.
proof fn lemma_namespace_prefix(ns1: Seq<Seq<char>>, r1: Seq<u8>, ns2: Seq<Seq<char>>, r2: Seq<u8>)
    requires
        crate::id::namespace_bytes(ns1) + seq![0u8] + r1 == crate::id::namespace_bytes(ns2) + seq![0u8] + r2,
        segments_plain(ns1),
        segments_plain(ns2),
    ensures
        ns1 == ns2,
        r1 == r2,
    decreases ns1.len() + ns2.len(),
{
    let m1 = crate::id::namespace_bytes(ns1) + seq![0u8] + r1;
    let m2 = crate::id::namespace_bytes(ns2) + seq![0u8] + r2;
    if ns1.len() == 0 && ns2.len() == 0 {
        assert(m1 =~= seq![0u8] + r1);
        assert(m2 =~= seq![0u8] + r2);
        assert(r1 =~= m1.subrange(1, m1.len() as int));
        assert(r2 =~= m2.subrange(1, m2.len() as int));
        assert(ns1 =~= ns2);
    } else if ns1.len() == 0 || ns2.len() == 0 {
        // One side starts with NUL, the other with a segment byte or `:`, never NUL.
        let ns = if ns1.len() == 0 { ns2 } else { ns1 };
        let e = vstd::utf8::encode_utf8(ns[0]);
        assert(ns[0] == ns[0]);
        assert forall|j: int| 0 <= j < ns[0].len() implies ns[0][j] != '\0' by {
            assert(ns[0][j] != '\0' && ns[0][j] != ':');
        }
        lemma_chars_avoid(ns[0], '\0');
        let m = if ns1.len() == 0 { m2 } else { m1 };
        assert(m =~= e + seq![0x3au8, 0x3au8] + (crate::id::namespace_bytes(ns.drop_first()) + seq![0u8]
            + if ns1.len() == 0 { r2 } else { r1 }));
        if e.len() > 0 {
            assert(m[0] == e[0]);
        } else {
            assert(m[0] == 0x3au8);
        }
        assert(m1[0] == 0u8 || m2[0] == 0u8);
    } else {
        let e1 = vstd::utf8::encode_utf8(ns1[0]);
        let e2 = vstd::utf8::encode_utf8(ns2[0]);
        let t1 = ns1.drop_first();
        let t2 = ns2.drop_first();
        assert forall|j: int| 0 <= j < ns1[0].len() implies ns1[0][j] != ':' by {
            assert(ns1[0][j] != '\0' && ns1[0][j] != ':');
        }
        assert forall|j: int| 0 <= j < ns2[0].len() implies ns2[0][j] != ':' by {
            assert(ns2[0][j] != '\0' && ns2[0][j] != ':');
        }
        lemma_chars_avoid(ns1[0], ':');
        lemma_chars_avoid(ns2[0], ':');
        let x1 = seq![0x3au8] + (crate::id::namespace_bytes(t1) + seq![0u8] + r1);
        let x2 = seq![0x3au8] + (crate::id::namespace_bytes(t2) + seq![0u8] + r2);
        assert(m1 =~= e1 + seq![0x3au8] + x1);
        assert(m2 =~= e2 + seq![0x3au8] + x2);
        lemma_split_at_separator(e1, x1, e2, x2, 0x3au8);
        assert(x1.subrange(1, x1.len() as int) =~= crate::id::namespace_bytes(t1) + seq![0u8] + r1);
        assert(x2.subrange(1, x2.len() as int) =~= crate::id::namespace_bytes(t2) + seq![0u8] + r2);
        assert forall|k: int, j: int| 0 <= k < t1.len() && 0 <= j < t1[k].len() implies t1[k][j] != '\0' && t1[k][j] != ':' by {
            assert(t1[k] == ns1[k + 1]);
        }
        assert forall|k: int, j: int| 0 <= k < t2.len() && 0 <= j < t2[k].len() implies t2[k][j] != '\0' && t2[k][j] != ':' by {
            assert(t2[k] == ns2[k + 1]);
        }
        lemma_namespace_prefix(t1, r1, t2, r2);
        lemma_encode_injective(ns1[0], ns2[0]);
        assert forall|k: int| 0 <= k < ns1.len() implies ns1[k] == ns2[k] by {
            if k > 0 {
                assert(ns1[k] == t1[k - 1]);
                assert(ns2[k] == t2[k - 1]);
            }
        }
        assert(ns1 =~= ns2);
    }
}

/// The delimited framing of identifier derivation is unambiguous on the inputs it delimits:
/// when the file path and the name hold no NUL and no namespace segment holds NUL or `:`,
/// different coordinates give different messages to hash, so `("ab", "c")` and `("a", "bc")`
/// never collide. Segments holding `:` are left out: `["a::b"]` and `["a", "b"]` give the same
/// message.
pub proof fn law_derivation_message_injective(
    p1: Seq<char>, ns1: Seq<Seq<char>>, n1: Seq<char>, s1: Seq<char>,
    p2: Seq<char>, ns2: Seq<Seq<char>>, n2: Seq<char>, s2: Seq<char>,
)
    requires
        crate::id::derivation_message(p1, ns1, n1, s1) == crate::id::derivation_message(p2, ns2, n2, s2),
        forall|j: int| 0 <= j < p1.len() ==> p1[j] != '\0',
        forall|j: int| 0 <= j < p2.len() ==> p2[j] != '\0',
        forall|j: int| 0 <= j < n1.len() ==> n1[j] != '\0',
        forall|j: int| 0 <= j < n2.len() ==> n2[j] != '\0',
        segments_plain(ns1),
        segments_plain(ns2),
    ensures
        p1 == p2,
        ns1 == ns2,
        n1 == n2,
        s1 == s2,
{
    let ep1 = vstd::utf8::encode_utf8(p1);
    let ep2 = vstd::utf8::encode_utf8(p2);
    let en1 = vstd::utf8::encode_utf8(n1);
    let en2 = vstd::utf8::encode_utf8(n2);
    let es1 = vstd::utf8::encode_utf8(s1);
    let es2 = vstd::utf8::encode_utf8(s2);
    let b1 = crate::id::namespace_bytes(ns1);
    let b2 = crate::id::namespace_bytes(ns2);
    lemma_chars_avoid(p1, '\0');
    lemma_chars_avoid(p2, '\0');
    lemma_chars_avoid(n1, '\0');
    lemma_chars_avoid(n2, '\0');
    let t1 = en1 + seq![0u8] + es1;
    let t2 = en2 + seq![0u8] + es2;
    let r1 = b1 + seq![0u8] + t1;
    let r2 = b2 + seq![0u8] + t2;
    assert(crate::id::derivation_message(p1, ns1, n1, s1) =~= ep1 + seq![0u8] + r1);
    assert(crate::id::derivation_message(p2, ns2, n2, s2) =~= ep2 + seq![0u8] + r2);
    lemma_split_at_separator(ep1, r1, ep2, r2, 0u8);
    lemma_namespace_prefix(ns1, t1, ns2, t2);
    lemma_split_at_separator(en1, es1, en2, es2, 0u8);
    lemma_encode_injective(p1, p2);
    lemma_encode_injective(n1, n2);
    lemma_encode_injective(s1, s2);
}

} // verus!

verus! {

/// The character an ASCII byte reads as, with `A`–`Z` turned into `a`–`z`.
pub open spec fn ascii_lower(c: u8) -> char {
    if 0x41 <= c <= 0x5a { ((c as int) + 32) as char } else { (c as int) as char }
}

proof fn lemma_digit_lowercases(c: u8)
    requires
        hex_value(c) is Some,
    ensures
        hex_digit(hex_value(c)->0) == ascii_lower(c),
{
}

/// Printing a parsed identifier gives its text back in lower case: for 32 hexadecimal digits
/// of either case, the hexadecimal form of the bytes they spell is the digits lowercased.
pub proof fn law_hex_parse_then_print_lowercases(b: Seq<u8>)
    requires
        is_hex_16(b),
    ensures
        hex_lower(hex_decoded(b)) == b.map_values(|c: u8| ascii_lower(c)),
{
    let d = hex_decoded(b);
    lemma_hex_lower_shape(d);
    let want = b.map_values(|c: u8| ascii_lower(c));
    assert forall|j: int| 0 <= j < 32 implies #[trigger] hex_lower(d)[j] == want[j] by {
        let i = j / 2;
        let hi = hex_value(b[2 * i])->0;
        let lo = hex_value(b[2 * i + 1])->0;
        assert(hex_value(b[2 * i]) is Some);
        assert(hex_value(b[2 * i + 1]) is Some);
        assert(hi < 16 && lo < 16);
        assert(d[i] == (hi * 16 + lo) as u8);
        assert((hi * 16 + lo) < 256) by (nonlinear_arith)
            requires
                hi < 16,
                lo < 16,
        ;
        let x = d[i] as nat;
        assert(x == hi * 16 + lo);
        assert(x / 16 == hi && x % 16 == lo) by (nonlinear_arith)
            requires
                x == hi * 16 + lo,
                hi < 16,
                lo < 16,
        ;
        lemma_digit_lowercases(b[2 * i]);
        lemma_digit_lowercases(b[2 * i + 1]);
        if j % 2 == 0 {
            assert(j == 2 * i);
        } else {
            assert(j == 2 * i + 1);
        }
    }
    assert(hex_lower(d) =~= want);
}

/// Walks along the edges of `es` are walks after one more edge is added.
proof fn lemma_walk_grows(es: Seq<(usize, usize, DependencyEdge)>, e: (usize, usize, DependencyEdge), p: Seq<int>)
    requires
        is_walk(es, Direction::Outgoing, None, p),
    ensures
        is_walk(es.push(e), Direction::Outgoing, None, p),
{
    let es2 = es.push(e);
    assert forall|i: int| 0 <= i < p.len() - 1 implies #[trigger] step(es2, Direction::Outgoing, None, p[i], p[i + 1]) by {
        assert(step(es, Direction::Outgoing, None, p[i], p[i + 1]));
        let k = choose|k: int| 0 <= k < es.len() && #[trigger] edge_from(es[k], Direction::Outgoing, None, p[i])
            && edge_end(es[k], Direction::Outgoing) == p[i + 1];
        assert(es2[k] == es[k]);
    }
}

/// Adding an edge never makes a symbol dead: every symbol an entrypoint reaches is still
/// reached, and when the edge starts at a reached symbol its target is reached too (so wiring
/// an orphan to live code revives it).
pub proof fn law_added_edge_keeps_symbols_live(
    ns: Seq<SymbolNode>,
    es: Seq<(usize, usize, DependencyEdge)>,
    a: usize,
    b: usize,
    w: DependencyEdge,
)
    ensures
        forall|v: int| live_in(ns, es, v) ==> #[trigger] live_in(ns, es.push((a, b, w)), v),
        live_in(ns, es, a as int) ==> live_in(ns, es.push((a, b, w)), b as int),
{
    let es2 = es.push((a, b, w));
    assert forall|v: int| live_in(ns, es, v) implies #[trigger] live_in(ns, es2, v) by {
        let (r, k) = choose|r: int, k: nat| 0 <= r < ns.len() && spec_is_entrypoint(ns[r])
            && #[trigger] reach_within(es, Direction::Outgoing, None, r, v, k);
        let p = choose|p: Seq<int>| #[trigger] is_walk(es, Direction::Outgoing, None, p) && p[0] == r && p.last() == v
            && p.len() <= k + 1;
        lemma_walk_grows(es, (a, b, w), p);
        assert(reach_within(es2, Direction::Outgoing, None, r, v, k));
    }
    if live_in(ns, es, a as int) {
        let (r, k) = choose|r: int, k: nat| 0 <= r < ns.len() && spec_is_entrypoint(ns[r])
            && #[trigger] reach_within(es, Direction::Outgoing, None, r, a as int, k);
        let p = choose|p: Seq<int>| #[trigger] is_walk(es, Direction::Outgoing, None, p) && p[0] == r
            && p.last() == a as int && p.len() <= k + 1;
        lemma_walk_grows(es, (a, b, w), p);
        let q = p.push(b as int);
        assert(edge_from(es2[es.len() as int], Direction::Outgoing, None, a as int));
        assert(step(es2, Direction::Outgoing, None, a as int, b as int));
        assert forall|i: int| 0 <= i < q.len() - 1 implies #[trigger] step(es2, Direction::Outgoing, None, q[i], q[i + 1]) by {
            if i < p.len() - 1 {
                assert(q[i] == p[i] && q[i + 1] == p[i + 1]);
                assert(step(es2, Direction::Outgoing, None, p[i], p[i + 1]));
            } else {
                assert(q[i] == a as int && q[i + 1] == b as int);
            }
        }
        assert(is_walk(es2, Direction::Outgoing, None, q));
        assert(reach_within(es2, Direction::Outgoing, None, r, b as int, k + 1));
    }
}

} // verus!

verus! {

/// An edge entering node `b` is listed in `b`'s incoming list.
proof fn lemma_in_adjacency_lists(es: Seq<(usize, usize, DependencyEdge)>, k: int, b: usize)
    requires
        0 <= k < es.len(),
        es[k].1 == b,
    ensures
        exists|q: int| 0 <= q < in_adjacency(es, b).len() && #[trigger] in_adjacency(es, b)[q] == (es[k].0, es[k].2),
    decreases es.len(),
{
    let init = es.drop_last();
    let adj = in_adjacency(es, b);
    if k == es.len() - 1 {
        assert(adj[0] == (es[k].0, es[k].2));
    } else {
        assert(init[k] == es[k]);
        lemma_in_adjacency_lists(init, k, b);
        let q = choose|q: int| 0 <= q < in_adjacency(init, b).len() && #[trigger] in_adjacency(init, b)[q] == (es[k].0, es[k].2);
        if es.last().1 == b {
            assert(adj[q + 1] == in_adjacency(init, b)[q]);
        } else {
            assert(adj[q] == in_adjacency(init, b)[q]);
        }
    }
}

/// An incoming entry from a node whose identifier is not among `ps` is noted.
proof fn lemma_foreign_inbound_lists(
    ns: Seq<SymbolNode>,
    adj: Seq<(usize, DependencyEdge)>,
    t: SymbolId,
    ps: Seq<SymbolId>,
    q: int,
)
    requires
        0 <= q < adj.len(),
        !ps.contains(ns[adj[q].0 as int].id),
    ensures
        exists|r: int| 0 <= r < crate::pipeline::foreign_inbound(ns, adj, t, ps).len()
            && #[trigger] crate::pipeline::foreign_inbound(ns, adj, t, ps)[r] == (ns[adj[q].0 as int].id, t, adj[q].1),
    decreases adj.len(),
{
    let init = adj.drop_last();
    let f = crate::pipeline::foreign_inbound(ns, adj, t, ps);
    if q == adj.len() - 1 {
        assert(f[f.len() - 1] == (ns[adj[q].0 as int].id, t, adj[q].1));
    } else {
        assert(init[q] == adj[q]);
        lemma_foreign_inbound_lists(ns, init, t, ps, q);
        let r = choose|r: int| 0 <= r < crate::pipeline::foreign_inbound(ns, init, t, ps).len()
            && #[trigger] crate::pipeline::foreign_inbound(ns, init, t, ps)[r] == (ns[adj[q].0 as int].id, t, adj[q].1);
        assert(f[r] == crate::pipeline::foreign_inbound(ns, init, t, ps)[r]);
    }
}

/// What is noted for a present identifier of `qs` is among the edges noted for `qs`.
proof fn lemma_inbound_of_lists(
    ns: Seq<SymbolNode>,
    es: Seq<(usize, usize, DependencyEdge)>,
    ps: Seq<SymbolId>,
    qs: Seq<SymbolId>,
    j: int,
    r: int,
)
    requires
        0 <= j < qs.len(),
        nodes_contain(ns, qs[j]),
        0 <= r < crate::pipeline::foreign_inbound(ns, in_adjacency(es, index_in(ns, qs[j]) as usize), qs[j], ps).len(),
    ensures
        exists|x: int| 0 <= x < crate::pipeline::inbound_of(ns, es, ps, qs).len()
            && #[trigger] crate::pipeline::inbound_of(ns, es, ps, qs)[x]
                == crate::pipeline::foreign_inbound(ns, in_adjacency(es, index_in(ns, qs[j]) as usize), qs[j], ps)[r],
    decreases qs.len(),
{
    let init = qs.drop_last();
    let all = crate::pipeline::inbound_of(ns, es, ps, qs);
    let rest = crate::pipeline::inbound_of(ns, es, ps, init);
    if j == qs.len() - 1 {
        assert(all[rest.len() + r]
            == crate::pipeline::foreign_inbound(ns, in_adjacency(es, index_in(ns, qs[j]) as usize), qs[j], ps)[r]);
    } else {
        assert(init[j] == qs[j]);
        lemma_inbound_of_lists(ns, es, ps, init, j, r);
        let x = choose|x: int| 0 <= x < rest.len() && #[trigger] rest[x]
            == crate::pipeline::foreign_inbound(ns, in_adjacency(es, index_in(ns, qs[j]) as usize), qs[j], ps)[r];
        assert(all[x] == rest[x]);
    }
}

/// A noted edge whose two endpoints are present is restored.
proof fn lemma_relinked_lists(ns: Seq<SymbolNode>, ins: Seq<(SymbolId, SymbolId, DependencyEdge)>, i: int)
    requires
        0 <= i < ins.len(),
        nodes_contain(ns, ins[i].0),
        nodes_contain(ns, ins[i].1),
    ensures
        exists|r: int| 0 <= r < crate::pipeline::relinked(ns, ins).len() && #[trigger] crate::pipeline::relinked(ns, ins)[r]
            == (index_in(ns, ins[i].0) as usize, index_in(ns, ins[i].1) as usize, ins[i].2),
    decreases ins.len(),
{
    let init = ins.drop_last();
    let all = crate::pipeline::relinked(ns, ins);
    if i == ins.len() - 1 {
        assert(all[all.len() - 1] == (index_in(ns, ins[i].0) as usize, index_in(ns, ins[i].1) as usize, ins[i].2));
    } else {
        assert(init[i] == ins[i]);
        lemma_relinked_lists(ns, init, i);
        let r = choose|r: int| 0 <= r < crate::pipeline::relinked(ns, init).len() && #[trigger] crate::pipeline::relinked(ns, init)[r]
            == (index_in(ns, ins[i].0) as usize, index_in(ns, ins[i].1) as usize, ins[i].2);
        assert(all[r] == crate::pipeline::relinked(ns, init)[r]);
    }
}

/// Upserting keeps every present identifier present.
proof fn lemma_upserted_all_keeps(
    m: (Seq<SymbolNode>, Seq<(usize, usize, DependencyEdge)>, Map<Seq<char>, Seq<SymbolId>>),
    syms: Seq<SymbolNode>,
    y: SymbolId,
)
    requires
        nodes_contain(m.0, y),
    ensures
        nodes_contain(crate::pipeline::upserted_all(m, syms).0, y),
    decreases syms.len(),
{
    if syms.len() > 0 {
        lemma_upserted_all_keeps(m, syms.drop_last(), y);
        let before = crate::pipeline::upserted_all(m, syms.drop_last());
        let node = syms.last();
        let i = choose|i: int| 0 <= i < before.0.len() && #[trigger] before.0[i].id == y;
        let after = upserted(before, node).0;
        if nodes_contain(before.0, node.id) {
            let p = index_in(before.0, node.id);
            if i == p {
                assert(after[p].id == node.id);
                assert(before.0[p].id == node.id);
            } else {
                assert(after[i] == before.0[i]);
            }
        } else {
            assert(after[i] == before.0[i]);
        }
    }
}

/// Re-indexing a file keeps the calls into it from other files: an edge from a symbol not
/// recorded for the file to one recorded for it, which the new parse brings back, is again in
/// the graph between the same two symbols, with the same weight.
pub proof fn law_reindex_keeps_inbound_edges(
    g: CodeGraph,
    path: Seq<char>,
    syms: Seq<SymbolNode>,
    calls: Seq<crate::parser::RawCallReference>,
    a: SymbolId,
    b: SymbolId,
    w: DependencyEdge,
)
    requires
        g.wf(),
        g.file_index().contains_key(path),
        !g.file_index()[path].contains(a),
        g.file_index()[path].contains(b),
        has_id_edge((g.nodes(), g.edges()), a, b, w),
        exists|j: int| 0 <= j < syms.len() && #[trigger] syms[j].id == b,
        crate::pipeline::reconciled(model(g), path, syms, calls).0.len() <= u32::MAX,
    ensures
        has_id_edge(
            (
                crate::pipeline::reconciled(model(g), path, syms, calls).0,
                crate::pipeline::reconciled(model(g), path, syms, calls).1,
            ),
            a,
            b,
            w,
        ),
{
    let m = model(g);
    let ns = g.nodes();
    let es = g.edges();
    let ps = g.file_index()[path];
    let k = choose|e: int| #![trigger es[e]] 0 <= e < es.len() && es[e].2 == w
        && ns[es[e].0 as int].id == a && ns[es[e].1 as int].id == b;
    let ib = es[k].1;
    g.lemma_index_of(b, ib as int);
    assert(index_in(ns, b) == ib);
    lemma_in_adjacency_lists(es, k, ib);
    let adj = in_adjacency(es, ib);
    let q = choose|q: int| 0 <= q < adj.len() && #[trigger] adj[q] == (es[k].0, es[k].2);
    lemma_foreign_inbound_lists(ns, adj, b, ps, q);
    let f = crate::pipeline::foreign_inbound(ns, adj, b, ps);
    let r = choose|r: int| 0 <= r < f.len() && #[trigger] f[r] == (ns[adj[q].0 as int].id, b, adj[q].1);
    let j0 = choose|j: int| 0 <= j < ps.len() && ps[j] == b;
    assert(nodes_contain(ns, ps[j0]));
    lemma_inbound_of_lists(ns, es, ps, ps, j0, r);
    let ins = crate::pipeline::inbound_edges(m, path);
    let x = choose|x: int| 0 <= x < ins.len() && #[trigger] ins[x] == f[r];
    assert(ins[x] == (a, b, w));
    let m1 = crate::graph::invalidated(m, path);
    lemma_graph_state_wf(g);
    lemma_without_ids_effect((ns, es), ps);
    assert(nodes_contain(ns, a));
    assert(nodes_contain(m1.0, a));
    lemma_upserted_all_keeps(m1, syms, a);
    let j1 = choose|j: int| 0 <= j < syms.len() && #[trigger] syms[j].id == b;
    crate::pipeline::lemma_upserted_all_contains(m1, syms, j1);
    let m2 = crate::pipeline::upserted_all(m1, syms);
    lemma_relinked_lists(m2.0, ins, x);
    let rl = crate::pipeline::relinked(m2.0, ins);
    let r2 = choose|r: int| 0 <= r < rl.len() && #[trigger] rl[r] == (index_in(m2.0, a) as usize, index_in(m2.0, b) as usize, w);
    let fin = crate::pipeline::reconciled(m, path, syms, calls);
    let e2 = m2.1.len() + r2;
    assert(fin.1[e2] == rl[r2]);
    assert(fin.0 == m2.0);
    let ia2 = index_in(m2.0, a);
    let ib2 = index_in(m2.0, b);
    assert(0 <= ia2 < m2.0.len() && m2.0[ia2].id == a);
    assert(0 <= ib2 < m2.0.len() && m2.0[ib2].id == b);
    assert(fin.1[e2].0 as int == ia2);
    assert(fin.1[e2].1 as int == ib2);
    assert(fin.0[fin.1[e2].0 as int].id == a);
    assert(fin.0[fin.1[e2].1 as int].id == b);
}

} // verus!

verus! {

/// One direction of the traversal duality: a node listed among the callers of `r` at depth
/// `d` lists `r` among its callees at depth `d`.
proof fn lemma_traversal_dual_step(
    g: CodeGraph,
    res1: Seq<(SymbolNode, usize)>,
    dir1: Direction,
    res2: Seq<(SymbolNode, usize)>,
    dir2: Direction,
    i1: int,
    i2: int,
    k: nat,
    j: int,
)
    requires
        g.wf(),
        0 <= i1 < g.nodes().len(),
        0 <= i2 < g.nodes().len(),
        i1 != i2,
        dir1 != dir2,
        g.is_traversal(res1, i1, dir1, Some(EdgeKind::Calls), k),
        g.is_traversal(res2, i2, dir2, Some(EdgeKind::Calls), k),
        0 <= j < res1.len(),
        res1[j].0 == g.nodes()[i2],
    ensures
        exists|j2: int| 0 <= j2 < res2.len() && res2[j2] == (g.nodes()[i1], res1[j].1),
{
    let ns = g.nodes();
    let es = g.edges();
    let d = res1[j].1 as nat;
    let v = choose|v: int| 0 <= v < ns.len() && v != i1 && #[trigger] ns[v] == res1[j].0
        && is_distance(es, dir1, Some(EdgeKind::Calls), i1, v, d);
    g.lemma_index_of(ns[i2].id, i2);
    assert(ns[v].id == ns[i2].id);
    assert(v == i2);
    match dir1 {
        Direction::Incoming => law_caller_callee_duality(es, Some(EdgeKind::Calls), i1, i2, d),
        Direction::Outgoing => law_caller_callee_duality(es, Some(EdgeKind::Calls), i2, i1, d),
    }
    assert(is_distance(es, dir2, Some(EdgeKind::Calls), i2, i1, d));
    assert(reach_within(es, dir2, Some(EdgeKind::Calls), i2, i1, d));
    let j2 = choose|j2: int| 0 <= j2 < res2.len() && (#[trigger] res2[j2]).0 == ns[i1];
    let d2 = res2[j2].1 as nat;
    let v2 = choose|v: int| 0 <= v < ns.len() && v != i2 && #[trigger] ns[v] == res2[j2].0
        && is_distance(es, dir2, Some(EdgeKind::Calls), i2, v, d2);
    g.lemma_index_of(ns[i1].id, i1);
    assert(ns[v2].id == ns[i1].id);
    assert(v2 == i1);
    crate::reach::lemma_distance_unique(es, dir2, Some(EdgeKind::Calls), i2, i1, d, d2);
    assert(res2[j2] == (ns[i1], res1[j].1));
}

/// Transitive callers and callees are dual: `n` is listed among the callers of `r` up to depth
/// `k`, at depth `d`, exactly when `r` is listed among the callees of `n` up to depth `k`, at
/// the same depth.
pub proof fn law_transitive_callers_callees_dual(
    g: CodeGraph,
    r: SymbolId,
    n: SymbolId,
    k: nat,
    callers: Seq<(SymbolNode, usize)>,
    callees: Seq<(SymbolNode, usize)>,
    d: usize,
)
    requires
        g.wf(),
        g.spec_contains(r),
        g.spec_contains(n),
        r != n,
        g.is_traversal(callers, g.spec_index_of(r), Direction::Incoming, Some(EdgeKind::Calls), k),
        g.is_traversal(callees, g.spec_index_of(n), Direction::Outgoing, Some(EdgeKind::Calls), k),
    ensures
        (exists|j: int| 0 <= j < callers.len() && #[trigger] callers[j] == (g.nodes()[g.spec_index_of(n)], d))
            <==> (exists|j: int| 0 <= j < callees.len() && #[trigger] callees[j] == (g.nodes()[g.spec_index_of(r)], d)),
{
    let ri = g.spec_index_of(r);
    let ni = g.spec_index_of(n);
    assert(ri != ni);
    if exists|j: int| 0 <= j < callers.len() && #[trigger] callers[j] == (g.nodes()[ni], d) {
        let j = choose|j: int| 0 <= j < callers.len() && #[trigger] callers[j] == (g.nodes()[ni], d);
        lemma_traversal_dual_step(g, callers, Direction::Incoming, callees, Direction::Outgoing, ri, ni, k, j);
    }
    if exists|j: int| 0 <= j < callees.len() && #[trigger] callees[j] == (g.nodes()[ri], d) {
        let j = choose|j: int| 0 <= j < callees.len() && #[trigger] callees[j] == (g.nodes()[ri], d);
        lemma_traversal_dual_step(g, callees, Direction::Outgoing, callers, Direction::Incoming, ni, ri, k, j);
    }
}

/// A symbol reported dead once an edge is added was reported dead before.
#[verifier::spinoff_prover]
proof fn lemma_dead_after_edge(
    ns: Seq<SymbolNode>,
    es: Seq<(usize, usize, DependencyEdge)>,
    a: usize,
    b: usize,
    w: DependencyEdge,
    j: int,
) -> (v: int)
    requires
        0 <= j < dead_details(ns, es.push((a, b, w)), ns.len() as int).len(),
    ensures
        0 <= v < ns.len(),
        !live_in(ns, es.push((a, b, w)), v),
        !live_in(ns, es, v),
        dead_details(ns, es.push((a, b, w)), ns.len() as int)[j].symbol == ns[v],
        exists|i: int| 0 <= i < dead_details(ns, es, ns.len() as int).len()
            && #[trigger] dead_details(ns, es, ns.len() as int)[i].symbol == ns[v],
{
    let es2 = es.push((a, b, w));
    law_dead_symbols_are_unreachable(ns, es2);
    let after = dead_details(ns, es2, ns.len() as int);
    let v = choose|v: int| 0 <= v < ns.len() && !live_in(ns, es2, v) && !spec_is_entrypoint(ns[v])
        && (#[trigger] after[j]).symbol == ns[v] && after[j].reason == dead_reason(es2, v);
    law_added_edge_keeps_symbols_live(ns, es, a, b, w);
    assert(!live_in(ns, es, v));
    law_dead_symbols_are_unreachable(ns, es);
    v
}

/// Adding an edge never makes a symbol dead: every symbol reported dead afterwards was
/// reported dead before, and when the edge's source is live, its target is not reported dead
/// afterwards.
pub proof fn law_added_edge_shrinks_dead_report(
    ns: Seq<SymbolNode>,
    es: Seq<(usize, usize, DependencyEdge)>,
    a: usize,
    b: usize,
    w: DependencyEdge,
)
    requires
        b < ns.len(),
        forall|i: int, j: int| 0 <= i < ns.len() && 0 <= j < ns.len() && #[trigger] ns[i].id == #[trigger] ns[j].id ==> i == j,
    ensures
        forall|j: int| 0 <= j < dead_details(ns, es.push((a, b, w)), ns.len() as int).len() ==> exists|i: int|
            0 <= i < dead_details(ns, es, ns.len() as int).len()
            && dead_details(ns, es, ns.len() as int)[i].symbol
                == (#[trigger] dead_details(ns, es.push((a, b, w)), ns.len() as int)[j]).symbol,
        live_in(ns, es, a as int) ==> forall|j: int| 0 <= j < dead_details(ns, es.push((a, b, w)), ns.len() as int).len()
            ==> (#[trigger] dead_details(ns, es.push((a, b, w)), ns.len() as int)[j]).symbol.id != ns[b as int].id,
{
    let es2 = es.push((a, b, w));
    let after = dead_details(ns, es2, ns.len() as int);
    let before = dead_details(ns, es, ns.len() as int);
    assert forall|j: int| 0 <= j < after.len() implies exists|i: int|
        0 <= i < before.len() && before[i].symbol == (#[trigger] after[j]).symbol by {
        let v = lemma_dead_after_edge(ns, es, a, b, w, j);
    }
    if live_in(ns, es, a as int) {
        assert forall|j: int| 0 <= j < after.len() implies (#[trigger] after[j]).symbol.id != ns[b as int].id by {
            let v = lemma_dead_after_edge(ns, es, a, b, w, j);
            law_added_edge_keeps_symbols_live(ns, es, a, b, w);
            if ns[v].id == ns[b as int].id {
                assert(v == b);
            }
        }
    }
}

} // verus!


verus! {

/// The entries of a discovery order whose depth is at most `k`, in order.
pub open spec fn order_within(o: Seq<(usize, usize)>, k: nat) -> Seq<(usize, usize)>
    decreases o.len(),
{
    if o.len() == 0 {
        o
    } else {
        let r = order_within(o.drop_last(), k);
        if o.last().1 <= k { r.push(o.last()) } else { r }
    }
}

/// The entries of a traversal whose depth is at most `k`, in order.
pub open spec fn entries_within(s: Seq<(SymbolNode, usize)>, k: nat) -> Seq<(SymbolNode, usize)>
    decreases s.len(),
{
    if s.len() == 0 {
        s
    } else {
        let r = entries_within(s.drop_last(), k);
        if s.last().1 <= k { r.push(s.last()) } else { r }
    }
}

/// How the runs bounded by `k` and by `k + 1` stand to each other at head `h`: the first
/// order is a prefix of the second, whose other entries are at depth `k + 1`; the first is
/// sorted by depth, within `k`, and within one of the head's depth; and once the second has
/// gone further, every entry left to visit in the first is at depth `k`.
spec fn runs_agree(k: nat, oa: Seq<(usize, usize)>, ob: Seq<(usize, usize)>, h: int) -> bool {
    &&& 0 <= h
    &&& oa.len() <= ob.len()
    &&& ob.take(oa.len() as int) == oa
    &&& forall|p: int| oa.len() <= p < ob.len() ==> #[trigger] ob[p].1 == k + 1
    &&& forall|p: int| 0 <= p < oa.len() ==> #[trigger] oa[p].1 <= k
    &&& forall|p: int, q: int| 0 <= p <= q < oa.len() ==> #[trigger] oa[p].1 <= #[trigger] oa[q].1
    &&& h < oa.len() ==> forall|p: int| 0 <= p < oa.len() ==> #[trigger] oa[p].1 <= oa[h].1 + 1
    &&& oa.len() < ob.len() ==> forall|p: int| h <= p < oa.len() ==> #[trigger] oa[p].1 == k
}

/// Absorbing keeps the order as a prefix and appends entries at depth `d + 1`.
proof fn lemma_absorb_extends(o: Seq<(usize, usize)>, adj: Seq<(usize, DependencyEdge)>, filter: Option<EdgeKind>, d: usize)
    ensures
        crate::traversal::absorb(o, adj, filter, d).len() >= o.len(),
        crate::traversal::absorb(o, adj, filter, d).take(o.len() as int) == o,
        forall|p: int| o.len() <= p < crate::traversal::absorb(o, adj, filter, d).len()
            ==> #[trigger] crate::traversal::absorb(o, adj, filter, d)[p].1 == (d + 1) as usize,
    decreases adj.len(),
{
    if adj.len() > 0 {
        lemma_absorb_extends(o, adj.drop_last(), filter, d);
        let t = crate::traversal::absorb(o, adj.drop_last(), filter, d);
        let r = crate::traversal::absorb(o, adj, filter, d);
        assert(r.take(o.len() as int) =~= t.take(o.len() as int));
    } else {
        assert(o.take(o.len() as int) =~= o);
    }
}

/// Entries at depth beyond the bound are never expanded, so a run over them changes nothing.
proof fn lemma_run_idle(
    es: Seq<(usize, usize, DependencyEdge)>,
    dir: Direction,
    filter: Option<EdgeKind>,
    m: usize,
    o: Seq<(usize, usize)>,
    h: int,
    fuel: nat,
)
    requires
        forall|p: int| 0 <= h <= p < o.len() ==> #[trigger] o[p].1 >= m,
    ensures
        crate::traversal::bfs_run(es, dir, filter, m, o, h, fuel) == o,
    decreases fuel,
{
    if fuel > 0 && h >= 0 && h < o.len() {
        assert(crate::traversal::bfs_step(es, dir, filter, m, o, h) == o);
        lemma_run_idle(es, dir, filter, m, o, h + 1, (fuel - 1) as nat);
    }
}

/// An order that extends a prefix with deeper entries keeps, within the bound, the prefix.
proof fn lemma_order_within_prefix(k: nat, oa: Seq<(usize, usize)>, ob: Seq<(usize, usize)>)
    requires
        oa.len() <= ob.len(),
        ob.take(oa.len() as int) == oa,
        forall|p: int| oa.len() <= p < ob.len() ==> #[trigger] ob[p].1 > k,
        forall|p: int| 0 <= p < oa.len() ==> #[trigger] oa[p].1 <= k,
    ensures
        order_within(ob, k) == oa,
    decreases ob.len(),
{
    if ob.len() > oa.len() {
        let init = ob.drop_last();
        assert(init.take(oa.len() as int) =~= ob.take(oa.len() as int));
        lemma_order_within_prefix(k, oa, init);
    } else if oa.len() > 0 {
        assert(ob =~= oa);
        let init = oa.drop_last();
        assert(init.take(init.len() as int) =~= init);
        lemma_order_within_prefix(k, init, init);
    } else {
        assert(ob.len() == 0);
    }
}

/// One visit keeps the runs bounded by `k` and by `k + 1` in agreement.
proof fn lemma_runs_step(
    es: Seq<(usize, usize, DependencyEdge)>,
    dir: Direction,
    filter: Option<EdgeKind>,
    k: usize,
    oa: Seq<(usize, usize)>,
    ob: Seq<(usize, usize)>,
    h: int,
)
    requires
        k < usize::MAX,
        runs_agree(k as nat, oa, ob, h),
        h < oa.len(),
    ensures
        runs_agree(
            k as nat,
            crate::traversal::bfs_step(es, dir, filter, k, oa, h),
            crate::traversal::bfs_step(es, dir, filter, (k + 1) as usize, ob, h),
            h + 1,
        ),
{
    let d = oa[h].1;
    assert(ob[h] == ob.take(oa.len() as int)[h]);
    let adj = adjacency(es, oa[h].0, dir);
    if d < k {
        if oa.len() < ob.len() {
            assert(oa[h].1 == k);
        }
        assert(ob =~= ob.take(oa.len() as int));
        lemma_absorb_extends(oa, adj, filter, d);
        let na = crate::traversal::absorb(oa, adj, filter, d);
        assert(crate::traversal::bfs_step(es, dir, filter, k, oa, h) == na);
        assert(crate::traversal::bfs_step(es, dir, filter, (k + 1) as usize, ob, h) == na);
        assert(na.take(na.len() as int) =~= na);
        assert forall|p: int| 0 <= p < na.len() implies #[trigger] na[p].1 <= d + 1 by {
            if p < oa.len() {
                assert(na[p] == na.take(oa.len() as int)[p]);
            }
        }
        assert forall|p: int, q: int| 0 <= p <= q < na.len() implies #[trigger] na[p].1 <= #[trigger] na[q].1 by {
            if q < oa.len() {
                assert(na[p] == na.take(oa.len() as int)[p]);
                assert(na[q] == na.take(oa.len() as int)[q]);
            } else if p < oa.len() {
                assert(na[p] == na.take(oa.len() as int)[p]);
            }
        }
        if h + 1 < na.len() {
            assert(na[h] == na.take(oa.len() as int)[h]);
            assert(na[h].1 <= na[h + 1].1);
        }
    } else {
        assert(d == k);
        lemma_absorb_extends(ob, adj, filter, d);
        let nb = crate::traversal::absorb(ob, adj, filter, d);
        assert(crate::traversal::bfs_step(es, dir, filter, k, oa, h) == oa);
        assert(crate::traversal::bfs_step(es, dir, filter, (k + 1) as usize, ob, h) == nb);
        assert(nb.take(oa.len() as int) =~= nb.take(ob.len() as int).take(oa.len() as int));
        assert forall|p: int| oa.len() <= p < nb.len() implies #[trigger] nb[p].1 == k + 1 by {
            if p < ob.len() {
                assert(nb[p] == nb.take(ob.len() as int)[p]);
            }
        }
        assert forall|p: int| h + 1 <= p < oa.len() implies #[trigger] oa[p].1 == k by {
            assert(oa[h].1 <= oa[p].1);
        }
        if h + 1 < oa.len() {
            assert(oa[h].1 <= oa[h + 1].1);
        }
    }
}

/// Runs bounded by `k` and by `k + 1` that agree end in orders that agree within `k`.
proof fn lemma_runs_agree(
    es: Seq<(usize, usize, DependencyEdge)>,
    dir: Direction,
    filter: Option<EdgeKind>,
    k: usize,
    oa: Seq<(usize, usize)>,
    ob: Seq<(usize, usize)>,
    h: int,
    fuel: nat,
)
    requires
        k < usize::MAX,
        runs_agree(k as nat, oa, ob, h),
    ensures
        order_within(crate::traversal::bfs_run(es, dir, filter, (k + 1) as usize, ob, h, fuel), k as nat)
            == crate::traversal::bfs_run(es, dir, filter, k, oa, h, fuel),
    decreases fuel,
{
    if fuel == 0 || h >= oa.len() {
        if fuel > 0 && h < ob.len() {
            lemma_run_idle(es, dir, filter, (k + 1) as usize, ob, h, fuel);
        }
        lemma_order_within_prefix(k as nat, oa, ob);
    } else {
        lemma_runs_step(es, dir, filter, k, oa, ob, h);
        lemma_runs_agree(
            es,
            dir,
            filter,
            k,
            crate::traversal::bfs_step(es, dir, filter, k, oa, h),
            crate::traversal::bfs_step(es, dir, filter, (k + 1) as usize, ob, h),
            h + 1,
            (fuel - 1) as nat,
        );
    }
}

} // verus!

verus! {

/// Keeping the entries within a depth commutes with dropping the root and naming the nodes.
proof fn lemma_within_named(ns: Seq<SymbolNode>, o: Seq<(usize, usize)>, k: nat)
    requires
        o.len() >= 1,
        o[0].1 <= k,
    ensures
        order_within(o, k).len() >= 1,
        order_within(o, k)[0] == o[0],
        entries_within(o.drop_first().map_values(|p: (usize, usize)| (ns[p.0 as int], p.1)), k)
            == order_within(o, k).drop_first().map_values(|p: (usize, usize)| (ns[p.0 as int], p.1)),
    decreases o.len(),
{
    let f = |p: (usize, usize)| (ns[p.0 as int], p.1);
    if o.len() == 1 {
        assert(o.drop_last().len() == 0);
        assert(order_within(o.drop_last(), k).len() == 0);
        assert(o.last() == o[0]);
        assert(order_within(o, k) == order_within(o.drop_last(), k).push(o[0]));
        assert(order_within(o, k) =~= seq![o[0]]);
        assert(o.drop_first().map_values(f) =~= Seq::<(SymbolNode, usize)>::empty());
        assert(order_within(o, k).drop_first().map_values(f) =~= Seq::<(SymbolNode, usize)>::empty());
    } else {
        let init = o.drop_last();
        assert(init[0] == o[0]);
        lemma_within_named(ns, init, k);
        let s = o.drop_first().map_values(f);
        let s0 = init.drop_first().map_values(f);
        assert(s.drop_last() =~= s0);
        assert(s.last() == f(o.last()));
        let w0 = order_within(init, k);
        let w = order_within(o, k);
        if o.last().1 <= k {
            assert(w == w0.push(o.last()));
            assert(w.drop_first() =~= w0.drop_first().push(o.last()));
            assert(w.drop_first().map_values(f) =~= w0.drop_first().map_values(f).push(f(o.last())));
        } else {
            assert(w == w0);
        }
    }
}

/// Raising a traversal's depth bound from `k` to `k + 1` only appends: the traversal bounded by
/// `k` lists exactly the entries at depth at most `k` of the one bounded by `k + 1`, in the
/// same order.
pub proof fn law_traversal_depth_prefix(g: CodeGraph, ri: int, dir: Direction, filter: Option<EdgeKind>, k: usize)
    requires
        0 <= ri < g.nodes().len(),
        k < usize::MAX,
    ensures
        g.traversal_order(ri, dir, filter, k) == entries_within(g.traversal_order(ri, dir, filter, (k + 1) as usize), k as nat),
{
    let es = g.edges();
    let n = g.nodes().len();
    let start = seq![(ri as usize, 0usize)];
    assert(start.take(start.len() as int) =~= start);
    assert(runs_agree(k as nat, start, start, 0));
    lemma_runs_agree(es, dir, filter, k, start, start, 0, n);
    let deep = crate::traversal::bfs_order(es, dir, filter, (k + 1) as usize, ri as usize, n);
    assert(order_within(deep, k as nat) == crate::traversal::bfs_order(es, dir, filter, k, ri as usize, n));
    lemma_bfs_run_keeps_start(es, dir, filter, (k + 1) as usize, start, 0, n);
    lemma_within_named(g.nodes(), deep, k as nat);
}

/// A run never changes the entries already listed.
proof fn lemma_bfs_run_keeps_start(
    es: Seq<(usize, usize, DependencyEdge)>,
    dir: Direction,
    filter: Option<EdgeKind>,
    m: usize,
    o: Seq<(usize, usize)>,
    h: int,
    fuel: nat,
)
    ensures
        crate::traversal::bfs_run(es, dir, filter, m, o, h, fuel).len() >= o.len(),
        crate::traversal::bfs_run(es, dir, filter, m, o, h, fuel).take(o.len() as int) == o,
    decreases fuel,
{
    if fuel == 0 || h < 0 || h >= o.len() {
        assert(o.take(o.len() as int) =~= o);
    } else {
        let o2 = crate::traversal::bfs_step(es, dir, filter, m, o, h);
        if o[h].1 < m {
            lemma_absorb_extends(o, adjacency(es, o[h].0, dir), filter, o[h].1);
        } else {
            assert(o2.take(o.len() as int) =~= o);
        }
        lemma_bfs_run_keeps_start(es, dir, filter, m, o2, h + 1, (fuel - 1) as nat);
        let r = crate::traversal::bfs_run(es, dir, filter, m, o, h, fuel);
        assert(r.take(o.len() as int) =~= r.take(o2.len() as int).take(o.len() as int));
    }
}

} // verus!

verus! {

/// Whether `c` is an ASCII hexadecimal digit, of either case.
pub open spec fn is_hex_char(c: char) -> bool {
    let v = c as u32;
    (0x30 <= v <= 0x39) || (0x61 <= v <= 0x66) || (0x41 <= v <= 0x46)
}

/// A hexadecimal digit is an ASCII character.
proof fn lemma_hex_char_ascii(ch: char)
    requires
        is_hex_char(ch),
    ensures
        '\0' <= ch <= '\u{7f}',
{
}

/// A character encoded as a hexadecimal digit byte is a hexadecimal digit.
proof fn lemma_hex_byte_char(bt: u8, ch: char)
    requires
        hex_value(bt) is Some,
        bt as u32 == ch as u32,
    ensures
        is_hex_char(ch),
{
}

/// A UTF-8 encoding whose bytes are all ASCII encodes one character per byte.
proof fn lemma_ascii_encoding(c: Seq<char>)
    requires
        forall|i: int| 0 <= i < vstd::utf8::encode_utf8(c).len() ==> #[trigger] vstd::utf8::encode_utf8(c)[i] < 0x80,
    ensures
        vstd::utf8::encode_utf8(c).len() == c.len(),
        forall|i: int| 0 <= i < c.len() ==> #[trigger] vstd::utf8::encode_utf8(c)[i] as u32 == c[i] as u32,
    decreases c.len(),
{
    if c.len() > 0 {
        let rest = c.drop_first();
        let v = c[0] as u32;
        vstd::utf8::char_is_scalar(c[0]);
        lemma_encode_scalar_low_bytes(v);
        let head = vstd::utf8::encode_scalar(v);
        let e = vstd::utf8::encode_utf8(c);
        let er = vstd::utf8::encode_utf8(rest);
        assert(e == head + er);
        assert(head.len() >= 1);
        assert(e[0] == head[0]);
        assert(head[0] as u32 == v);
        assert(vstd::utf8::has_width_1_encoding(v));
        assert(head.len() == 1);
        assert forall|i: int| 0 <= i < er.len() implies #[trigger] er[i] < 0x80 by {
            assert(e[i + 1] == er[i]);
        }
        lemma_ascii_encoding(rest);
        assert forall|i: int| 0 <= i < c.len() implies #[trigger] e[i] as u32 == c[i] as u32 by {
            if i > 0 {
                assert(e[i] == er[i - 1]);
                assert(rest[i - 1] == c[i]);
            }
        }
    }
}

/// Text is the hexadecimal form an identifier is parsed from exactly when it is 32 ASCII
/// hexadecimal digits, of either case.
pub proof fn law_hex_text_accepted(text: &str)
    ensures
        is_hex_16(text.spec_bytes()) <==> (text@.len() == 32 && forall|i: int| 0 <= i < 32 ==> #[trigger] is_hex_char(text@[i])),
{
    let c = text@;
    let b = text.spec_bytes();
    assert(b == vstd::utf8::encode_utf8(c));
    if is_hex_16(b) {
        assert forall|i: int| 0 <= i < b.len() implies #[trigger] b[i] < 0x80 by {
            assert(hex_value(b[i]) is Some);
        }
        lemma_ascii_encoding(c);
        assert forall|i: int| 0 <= i < 32 implies #[trigger] is_hex_char(c[i]) by {
            assert(hex_value(b[i]) is Some);
            lemma_hex_byte_char(b[i], c[i]);
        }
    }
    if c.len() == 32 && forall|i: int| 0 <= i < 32 ==> #[trigger] is_hex_char(c[i]) {
        assert(vstd::utf8::is_ascii_chars(c)) by {
            assert forall|i: int| 0 <= i < c.len() implies '\0' <= #[trigger] c[i] <= '\u{7f}' by {
                lemma_hex_char_ascii(c[i]);
            }
        }
        vstd::utf8::is_ascii_chars_encode_utf8(c);
        assert forall|i: int| 0 <= i < 32 implies #[trigger] hex_value(b[i]) is Some by {
            assert(is_hex_char(c[i]));
            assert(b[i] == c[i] as u8);
        }
    }
}

} // verus!

verus! {

/// The dead details among the first `upto` nodes are nodes below `upto`, and no identifier is
/// listed twice.
proof fn lemma_dead_details_once(ns: Seq<SymbolNode>, es: Seq<(usize, usize, DependencyEdge)>, upto: int)
    requires
        upto <= ns.len(),
        forall|i: int, j: int| 0 <= i < ns.len() && 0 <= j < ns.len() && #[trigger] ns[i].id == #[trigger] ns[j].id ==> i == j,
    ensures
        forall|j: int| 0 <= j < dead_details(ns, es, upto).len() ==> exists|v: int| 0 <= v < upto
            && #[trigger] dead_details(ns, es, upto)[j].symbol == ns[v],
        forall|j1: int, j2: int| 0 <= j1 < j2 < dead_details(ns, es, upto).len() ==>
            (#[trigger] dead_details(ns, es, upto)[j1]).symbol.id != (#[trigger] dead_details(ns, es, upto)[j2]).symbol.id,
    decreases upto,
{
    if upto > 0 {
        lemma_dead_details_once(ns, es, upto - 1);
        let rest = dead_details(ns, es, upto - 1);
        let all = dead_details(ns, es, upto);
        if !live_in(ns, es, upto - 1) {
            assert forall|j: int| 0 <= j < all.len() implies exists|v: int| 0 <= v < upto && #[trigger] all[j].symbol == ns[v] by {
                if j < rest.len() {
                    assert(all[j] == rest[j]);
                    let v = choose|v: int| 0 <= v < upto - 1 && #[trigger] rest[j].symbol == ns[v];
                } else {
                    assert(all[j].symbol == ns[upto - 1]);
                }
            }
            assert forall|j1: int, j2: int| 0 <= j1 < j2 < all.len() implies
                (#[trigger] all[j1]).symbol.id != (#[trigger] all[j2]).symbol.id by {
                assert(all[j1] == rest[j1]);
                let v1 = choose|v: int| 0 <= v < upto - 1 && #[trigger] rest[j1].symbol == ns[v];
                if j2 < rest.len() {
                    assert(all[j2] == rest[j2]);
                } else {
                    assert(all[j2].symbol == ns[upto - 1]);
                    if ns[v1].id == ns[upto - 1].id {
                        assert(v1 == upto - 1);
                    }
                }
            }
        }
    }
}

/// Dead-code detection lists each unreachable symbol once: its entries are the nodes that no
/// entrypoint reaches, none of them an entrypoint, every such node is listed, and no
/// identifier is listed twice.
pub proof fn law_dead_symbols_listed_once(ns: Seq<SymbolNode>, es: Seq<(usize, usize, DependencyEdge)>)
    requires
        forall|i: int, j: int| 0 <= i < ns.len() && 0 <= j < ns.len() && #[trigger] ns[i].id == #[trigger] ns[j].id ==> i == j,
    ensures
        forall|j: int| 0 <= j < dead_details(ns, es, ns.len() as int).len() ==> exists|v: int| 0 <= v < ns.len()
            && !live_in(ns, es, v) && !spec_is_entrypoint(ns[v])
            && (#[trigger] dead_details(ns, es, ns.len() as int)[j]).symbol == ns[v],
        forall|v: int| 0 <= v < ns.len() && !live_in(ns, es, v) ==> exists|j: int|
            0 <= j < dead_details(ns, es, ns.len() as int).len()
            && (#[trigger] dead_details(ns, es, ns.len() as int)[j]).symbol == ns[v],
        forall|j1: int, j2: int| 0 <= j1 < j2 < dead_details(ns, es, ns.len() as int).len() ==>
            (#[trigger] dead_details(ns, es, ns.len() as int)[j1]).symbol.id
                != (#[trigger] dead_details(ns, es, ns.len() as int)[j2]).symbol.id,
{
    law_dead_symbols_are_unreachable(ns, es);
    lemma_dead_details_once(ns, es, ns.len() as int);
}

} // verus!

verus! {

/// Changing an exported symbol impacts the public API: the impact summary of an exported
/// target reports a public-API impact whatever its callers, as does the summary of a target
/// with an exported caller in its traversal; with neither, none is reported.
pub proof fn law_exported_target_impacts_public_api(
    direct: Seq<crate::blast_radius::DirectCallerDetail>,
    t: Seq<(SymbolNode, usize)>,
    s: crate::blast_radius::ImpactSummary,
)
    requires
        crate::blast_radius::summary_fields(s) == crate::blast_radius::summary_of(s.target_symbol, direct, t),
    ensures
        s.target_symbol.is_exported ==> s.public_api_impacted,
        forall|j: int| 0 <= j < t.len() && (#[trigger] t[j]).0.is_exported ==> s.public_api_impacted,
        s.public_api_impacted ==> s.target_symbol.is_exported || exists|j: int| 0 <= j < t.len() && (#[trigger] t[j]).0.is_exported,
{
}

/// Every exported symbol is an entrypoint whatever its kind, as is every symbol named `main`,
/// `init`, `run` or `handler` and every test symbol; so none of them is ever reported dead.
pub proof fn law_exported_symbols_never_dead(ns: Seq<SymbolNode>, es: Seq<(usize, usize, DependencyEdge)>)
    ensures
        forall|s: SymbolNode| s.is_exported ==> #[trigger] spec_is_entrypoint(s),
        forall|s: SymbolNode| s.name@ == "main"@ || s.name@ == "init"@ || s.name@ == "run"@ || s.name@ == "handler"@
            || crate::blast_radius::spec_is_test_symbol(s) ==> #[trigger] spec_is_entrypoint(s),
        forall|j: int| 0 <= j < dead_details(ns, es, ns.len() as int).len() ==>
            !(#[trigger] dead_details(ns, es, ns.len() as int)[j]).symbol.is_exported,
        forall|j: int| 0 <= j < dead_details(ns, es, ns.len() as int).len() ==>
            !spec_is_entrypoint((#[trigger] dead_details(ns, es, ns.len() as int)[j]).symbol),
{
    law_dead_symbols_are_unreachable(ns, es);
    assert forall|j: int| 0 <= j < dead_details(ns, es, ns.len() as int).len() implies
        !(#[trigger] dead_details(ns, es, ns.len() as int)[j]).symbol.is_exported by {
        let v = choose|v: int| 0 <= v < ns.len() && !live_in(ns, es, v) && !spec_is_entrypoint(ns[v])
            && (#[trigger] dead_details(ns, es, ns.len() as int)[j]).symbol == ns[v]
            && dead_details(ns, es, ns.len() as int)[j].reason == dead_reason(es, v);
    }
}

/// Every node named `name` appears among the named nodes.
proof fn lemma_named_nodes_lists(ns: Seq<SymbolNode>, name: Seq<char>, i: int)
    requires
        0 <= i < ns.len(),
        ns[i].name@ == name,
    ensures
        exists|q: int| 0 <= q < crate::graph::named_nodes(ns, name).len() && #[trigger] crate::graph::named_nodes(ns, name)[q] == ns[i],
    decreases ns.len(),
{
    let init = ns.drop_last();
    let r = crate::graph::named_nodes(ns, name);
    if i == ns.len() - 1 {
        assert(r[r.len() - 1] == ns[i]);
    } else {
        assert(init[i] == ns[i]);
        lemma_named_nodes_lists(init, name, i);
        let q = choose|q: int| 0 <= q < crate::graph::named_nodes(init, name).len()
            && #[trigger] crate::graph::named_nodes(init, name)[q] == ns[i];
        assert(r[q] == crate::graph::named_nodes(init, name)[q]);
    }
}

/// The nodes of `ns` whose name is `name`, in order.
pub open spec fn namesakes(ns: Seq<SymbolNode>, name: Seq<char>) -> Seq<SymbolNode> {
    ns.filter(|n: SymbolNode| n.name@ == name)
}

/// The named nodes are the nodes whose name is `name`, in order.
proof fn lemma_named_nodes_filter(ns: Seq<SymbolNode>, name: Seq<char>)
    ensures
        crate::graph::named_nodes(ns, name) == namesakes(ns, name),
    decreases ns.len(),
{
    reveal(Seq::filter);
    if ns.len() > 0 {
        lemma_named_nodes_filter(ns.drop_last(), name);
        assert(namesakes(ns, name) == if ns.last().name@ == name {
            namesakes(ns.drop_last(), name).push(ns.last())
        } else {
            namesakes(ns.drop_last(), name)
        });
    } else {
        assert(namesakes(ns, name) == ns);
    }
}

/// Linking calls links each call to every symbol named like the callee: for a call whose
/// caller resolves to a symbol of the graph, every node whose name is the callee's name is
/// the target of an edge from that caller carrying the call's line, however many such nodes
/// there are.
pub proof fn law_call_links_every_namesake(
    ns: Seq<SymbolNode>,
    syms: Seq<SymbolNode>,
    calls: Seq<crate::parser::RawCallReference>,
    k: int,
    i: int,
)
    requires
        forall|a: int, b: int| 0 <= a < ns.len() && 0 <= b < ns.len() && #[trigger] ns[a].id == #[trigger] ns[b].id ==> a == b,
        0 <= k < calls.len(),
        crate::pipeline::resolve_caller(syms, calls[k].line) is Some,
        nodes_contain(ns, (crate::pipeline::resolve_caller(syms, calls[k].line)->0).id),
        0 <= i < ns.len(),
        ns[i].name@ == calls[k].callee_name@,
    ensures
        exists|e: int| 0 <= e < crate::pipeline::call_edges(ns, syms, calls).len()
            && #[trigger] crate::pipeline::call_edges(ns, syms, calls)[e] == (
                index_in(ns, (crate::pipeline::resolve_caller(syms, calls[k].line)->0).id) as usize,
                i as usize,
                DependencyEdge { kind: EdgeKind::Calls, call_site_line: calls[k].line, is_conditional: calls[k].is_conditional },
            ),
    decreases calls.len(),
{
    let init = calls.drop_last();
    let all = crate::pipeline::call_edges(ns, syms, calls);
    let rest = crate::pipeline::call_edges(ns, syms, init);
    let caller = crate::pipeline::resolve_caller(syms, calls[k].line)->0;
    if k < calls.len() - 1 {
        assert(init[k] == calls[k]);
        law_call_links_every_namesake(ns, syms, init, k, i);
        let e = choose|e: int| 0 <= e < rest.len() && #[trigger] rest[e] == (
            index_in(ns, caller.id) as usize,
            i as usize,
            DependencyEdge { kind: EdgeKind::Calls, call_site_line: calls[k].line, is_conditional: calls[k].is_conditional },
        );
        assert(all[e] == rest[e]);
    } else {
        let c = calls.last();
        lemma_named_nodes_lists(ns, c.callee_name@, i);
        let named = crate::graph::named_nodes(ns, c.callee_name@);
        let q = choose|q: int| 0 <= q < named.len() && #[trigger] named[q] == ns[i];
        assert(ns[index_in(ns, ns[i].id)].id == ns[i].id);
        assert(index_in(ns, ns[i].id) == i);
        assert(all[rest.len() + q] == (
            index_in(ns, caller.id) as usize,
            i as usize,
            DependencyEdge { kind: EdgeKind::Calls, call_site_line: c.line, is_conditional: c.is_conditional },
        ));
    }
}

/// A call whose caller resolves to a symbol of the graph adds one edge per symbol named like
/// the callee, and a call whose caller does not resolve adds none.
pub proof fn law_call_edge_count(
    ns: Seq<SymbolNode>,
    syms: Seq<SymbolNode>,
    calls: Seq<crate::parser::RawCallReference>,
    c: crate::parser::RawCallReference,
)
    ensures
        crate::pipeline::resolve_caller(syms, c.line) matches Some(caller) && nodes_contain(ns, caller.id) ==>
            crate::pipeline::call_edges(ns, syms, calls.push(c)).len()
                == crate::pipeline::call_edges(ns, syms, calls).len() + namesakes(ns, c.callee_name@).len(),
        !(crate::pipeline::resolve_caller(syms, c.line) matches Some(caller) && nodes_contain(ns, caller.id)) ==>
            crate::pipeline::call_edges(ns, syms, calls.push(c)) == crate::pipeline::call_edges(ns, syms, calls),
{
    lemma_named_nodes_filter(ns, c.callee_name@);
    let cs = calls.push(c);
    assert(cs.drop_last() =~= calls);
    assert(cs.last() == c);
    let rest = crate::pipeline::call_edges(ns, syms, calls);
    match crate::pipeline::resolve_caller(syms, c.line) {
        Some(caller) => {
            if nodes_contain(ns, caller.id) {
                let named = crate::graph::named_nodes(ns, c.callee_name@);
                let added = named.map_values(
                    |t: SymbolNode| (index_in(ns, caller.id) as usize, index_in(ns, t.id) as usize, crate::pipeline::call_edge(c)),
                );
                assert(crate::pipeline::call_edges(ns, syms, cs) == rest + added);
                assert(added.len() == named.len());
            }
        },
        None => {},
    }
}

/// Each definition capture names its own kind: `def.method`, `def.struct`, `def.enum`,
/// `def.trait`, `def.interface`, `def.type_alias`, `def.constant` and `def.module` give
/// distinct kinds, and every other capture name gives `Function`.
pub proof fn law_definition_capture_kinds(cn: Seq<char>)
    ensures
        (crate::parser::def_kind(cn) == crate::symbol::SymbolKind::Method) == (cn == "def.method"@),
        (crate::parser::def_kind(cn) == crate::symbol::SymbolKind::Struct) == (cn == "def.struct"@),
        (crate::parser::def_kind(cn) == crate::symbol::SymbolKind::Enum) == (cn == "def.enum"@),
        (crate::parser::def_kind(cn) == crate::symbol::SymbolKind::Trait) == (cn == "def.trait"@),
        (crate::parser::def_kind(cn) == crate::symbol::SymbolKind::Interface) == (cn == "def.interface"@),
        (crate::parser::def_kind(cn) == crate::symbol::SymbolKind::TypeAlias) == (cn == "def.type_alias"@),
        (crate::parser::def_kind(cn) == crate::symbol::SymbolKind::Constant) == (cn == "def.constant"@),
        (crate::parser::def_kind(cn) == crate::symbol::SymbolKind::Module) == (cn == "def.module"@),
        (crate::parser::def_kind(cn) == crate::symbol::SymbolKind::Function) == (cn != "def.method"@ && cn != "def.struct"@
            && cn != "def.enum"@ && cn != "def.trait"@ && cn != "def.interface"@ && cn != "def.type_alias"@
            && cn != "def.constant"@ && cn != "def.module"@),
{
    reveal_strlit("def.method");
    reveal_strlit("def.struct");
    reveal_strlit("def.enum");
    reveal_strlit("def.trait");
    reveal_strlit("def.interface");
    reveal_strlit("def.type_alias");
    reveal_strlit("def.constant");
    reveal_strlit("def.module");
    assert("def.struct"@ != "def.method"@) by { assert("def.struct"@[4] != "def.method"@[4]); }
    assert("def.enum"@ != "def.method"@) by { assert("def.enum"@[4] != "def.method"@[4]); }
    assert("def.enum"@ != "def.struct"@) by { assert("def.enum"@[4] != "def.struct"@[4]); }
    assert("def.trait"@ != "def.method"@) by { assert("def.trait"@[4] != "def.method"@[4]); }
    assert("def.trait"@ != "def.struct"@) by { assert("def.trait"@[4] != "def.struct"@[4]); }
    assert("def.trait"@ != "def.enum"@) by { assert("def.trait"@[4] != "def.enum"@[4]); }
    assert("def.interface"@ != "def.method"@) by { assert("def.interface"@[4] != "def.method"@[4]); }
    assert("def.interface"@ != "def.struct"@) by { assert("def.interface"@[4] != "def.struct"@[4]); }
    assert("def.interface"@ != "def.enum"@) by { assert("def.interface"@[4] != "def.enum"@[4]); }
    assert("def.interface"@ != "def.trait"@) by { assert("def.interface"@[4] != "def.trait"@[4]); }
    assert("def.type_alias"@ != "def.method"@) by { assert("def.type_alias"@[4] != "def.method"@[4]); }
    assert("def.type_alias"@ != "def.struct"@) by { assert("def.type_alias"@[4] != "def.struct"@[4]); }
    assert("def.type_alias"@ != "def.enum"@) by { assert("def.type_alias"@[4] != "def.enum"@[4]); }
    assert("def.type_alias"@ != "def.trait"@) by { assert("def.type_alias"@[5] != "def.trait"@[5]); }
    assert("def.type_alias"@ != "def.interface"@) by { assert("def.type_alias"@[4] != "def.interface"@[4]); }
    assert("def.constant"@ != "def.method"@) by { assert("def.constant"@[4] != "def.method"@[4]); }
    assert("def.constant"@ != "def.struct"@) by { assert("def.constant"@[4] != "def.struct"@[4]); }
    assert("def.constant"@ != "def.enum"@) by { assert("def.constant"@[4] != "def.enum"@[4]); }
    assert("def.constant"@ != "def.trait"@) by { assert("def.constant"@[4] != "def.trait"@[4]); }
    assert("def.constant"@ != "def.interface"@) by { assert("def.constant"@[4] != "def.interface"@[4]); }
    assert("def.constant"@ != "def.type_alias"@) by { assert("def.constant"@[4] != "def.type_alias"@[4]); }
    assert("def.module"@ != "def.method"@) by { assert("def.module"@[5] != "def.method"@[5]); }
    assert("def.module"@ != "def.struct"@) by { assert("def.module"@[4] != "def.struct"@[4]); }
    assert("def.module"@ != "def.enum"@) by { assert("def.module"@[4] != "def.enum"@[4]); }
    assert("def.module"@ != "def.trait"@) by { assert("def.module"@[4] != "def.trait"@[4]); }
    assert("def.module"@ != "def.interface"@) by { assert("def.module"@[4] != "def.interface"@[4]); }
    assert("def.module"@ != "def.type_alias"@) by { assert("def.module"@[4] != "def.type_alias"@[4]); }
    assert("def.module"@ != "def.constant"@) by { assert("def.module"@[4] != "def.constant"@[4]); }
}

/// A test record of a traversal lists every test symbol in it.
proof fn lemma_tests_of_lists(t: Seq<(SymbolNode, usize)>, j: int)
    requires
        0 <= j < t.len(),
        crate::blast_radius::spec_is_test_symbol(t[j].0),
    ensures
        exists|a: int| 0 <= a < crate::blast_radius::tests_of(t).len() && (#[trigger] crate::blast_radius::tests_of(t)[a]).id == t[j].0.id,
    decreases t.len(),
{
    let init = t.drop_last();
    let all = crate::blast_radius::tests_of(t);
    if j == t.len() - 1 {
        assert(all[all.len() - 1].id == t[j].0.id);
    } else {
        assert(init[j] == t[j]);
        lemma_tests_of_lists(init, j);
        let a = choose|a: int| 0 <= a < crate::blast_radius::tests_of(init).len()
            && (#[trigger] crate::blast_radius::tests_of(init)[a]).id == t[j].0.id;
        assert(all[a] == crate::blast_radius::tests_of(init)[a]);
    }
}

/// A symbol whose lowercased file path contains `test` (such as `src/auth.test.ts`,
/// `test/x.rs` or `tests/y.py`) is a test: it is a dead-code entrypoint, and in an impact
/// summary every such upstream caller is listed among the associated tests.
pub proof fn law_test_paths_mark_tests(
    direct: Seq<crate::blast_radius::DirectCallerDetail>,
    t: Seq<(SymbolNode, usize)>,
    s: crate::blast_radius::ImpactSummary,
)
    requires
        crate::blast_radius::summary_fields(s) == crate::blast_radius::summary_of(s.target_symbol, direct, t),
    ensures
        forall|n: SymbolNode| seq_contains_test(#[trigger] lowercased_path(n)) ==>
            crate::blast_radius::spec_is_test_symbol(n) && spec_is_entrypoint(n),
        forall|n: SymbolNode| crate::text::seq_starts_with(#[trigger] crate::text::lowercased(n.name@), "test"@)
            || crate::text::seq_ends_with(crate::text::lowercased(n.name@), "_test"@) ==>
            crate::blast_radius::spec_is_test_symbol(n),
        forall|j: int| 0 <= j < t.len() && seq_contains_test(lowercased_path((#[trigger] t[j]).0)) ==>
            exists|a: int| 0 <= a < s.associated_tests@.len() && s.associated_tests@[a].id == t[j].0.id,
{
    assert forall|j: int| 0 <= j < t.len() && seq_contains_test(lowercased_path((#[trigger] t[j]).0)) implies
        exists|a: int| 0 <= a < s.associated_tests@.len() && s.associated_tests@[a].id == t[j].0.id by {
        lemma_tests_of_lists(t, j);
    }
}

/// The lowercased file path of a symbol.
pub open spec fn lowercased_path(n: SymbolNode) -> Seq<char> {
    crate::text::lowercased(n.file_path@)
}

/// Whether `p` contains `test`.
pub open spec fn seq_contains_test(p: Seq<char>) -> bool {
    crate::text::seq_contains(p, "test"@)
}

} // verus!
