//! The boundary to `petgraph`'s directed graph, which stores the symbols and edges.
//!
//! The graph's contents are modelled by names: the node weights in index order, the number
//! of edges, and each node's outgoing and incoming edge lists in list order.
use vstd::prelude::*;
use petgraph::graph::{DiGraph, NodeIndex};
use petgraph::visit::EdgeRef;
use crate::edge::DependencyEdge;
use crate::symbol::SymbolNode;

verus! {

#[verifier::external_type_specification]
#[verifier::external_body]
#[verifier::reject_recursive_types(N)]
#[verifier::reject_recursive_types(E)]
#[verifier::reject_recursive_types(Ty)]
#[verifier::reject_recursive_types(Ix)]
pub struct ExGraph<N, E, Ty, Ix>(petgraph::graph::Graph<N, E, Ty, Ix>);

#[verifier::external_type_specification]
#[verifier::external_body]
pub struct ExDirected(petgraph::Directed);

/// The node weights of a symbol graph, in node-index order.
pub uninterp spec fn graph_nodes(g: DiGraph<SymbolNode, DependencyEdge>) -> Seq<SymbolNode>;

/// The number of edges of a symbol graph.
pub uninterp spec fn graph_edge_total(g: DiGraph<SymbolNode, DependencyEdge>) -> nat;

/// The outgoing edge list of node `a`, as `(target, weight)` in list order (most recently
/// linked first).
pub uninterp spec fn graph_out_list(g: DiGraph<SymbolNode, DependencyEdge>, a: usize) -> Seq<(usize, DependencyEdge)>;

/// The incoming edge list of node `a`, as `(source, weight)` in list order (most recently
/// linked first).
pub uninterp spec fn graph_in_list(g: DiGraph<SymbolNode, DependencyEdge>, a: usize) -> Seq<(usize, DependencyEdge)>;

/// The node whose edge lists node `j` holds after removing node `a`: the last node when `j`
/// is the freed index, `j` itself otherwise.
pub open spec fn moved_from(j: usize, a: usize, last: usize) -> usize {
    if j == a { last } else { j }
}

/// An edge list after removing node `a`: entries whose other endpoint is `a` are gone, and
/// the last node, which takes index `a`, is renamed; the order is kept.
pub open spec fn kept_relabelled(s: Seq<(usize, DependencyEdge)>, a: usize, last: usize) -> Seq<(usize, DependencyEdge)>
    decreases s.len(),
{
    if s.len() == 0 {
        s
    } else if s[0].0 == a {
        kept_relabelled(s.subrange(1, s.len() as int), a, last)
    } else {
        seq![(relabel(s[0].0, a, last), s[0].1)] + kept_relabelled(s.subrange(1, s.len() as int), a, last)
    }
}

/// How many entries of an edge list have an other endpoint different from `a`.
pub open spec fn count_other(s: Seq<(usize, DependencyEdge)>, a: usize) -> nat
    decreases s.len(),
{
    if s.len() == 0 {
        0
    } else if s[0].0 == a {
        count_other(s.subrange(1, s.len() as int), a)
    } else {
        1 + count_other(s.subrange(1, s.len() as int), a)
    }
}

/// Swap-removal of position `i`: the last element takes its place.
pub open spec fn swap_removed<T>(s: Seq<T>, i: int) -> Seq<T> {
    s.update(i, s.last()).drop_last()
}

/// Node index `x` after the last node (index `last`) moved into the freed slot `a`.
pub open spec fn relabel(x: usize, a: usize, last: usize) -> usize {
    if x == last { a } else { x }
}

/// Edges left once node `a` is removed and node `last` takes index `a`.
pub open spec fn edges_without_node(es: Seq<(usize, usize, DependencyEdge)>, a: usize, last: usize)
    -> Seq<(usize, usize, DependencyEdge)>
    decreases es.len(),
{
    if es.len() == 0 {
        Seq::empty()
    } else {
        let e = es.last();
        let rest = edges_without_node(es.drop_last(), a, last);
        if e.0 == a || e.1 == a {
            rest
        } else {
            rest.push((relabel(e.0, a, last), relabel(e.1, a, last), e.2))
        }
    }
}

/// Edges leaving node `a` as `(target, weight)`, most recently added first.
pub open spec fn out_adjacency(es: Seq<(usize, usize, DependencyEdge)>, a: usize) -> Seq<(usize, DependencyEdge)>
    decreases es.len(),
{
    if es.len() == 0 {
        Seq::empty()
    } else {
        let e = es.last();
        let rest = out_adjacency(es.drop_last(), a);
        if e.0 == a { seq![(e.1, e.2)] + rest } else { rest }
    }
}

/// Edges entering node `a` as `(source, weight)`, most recently added first.
pub open spec fn in_adjacency(es: Seq<(usize, usize, DependencyEdge)>, a: usize) -> Seq<(usize, DependencyEdge)>
    decreases es.len(),
{
    if es.len() == 0 {
        Seq::empty()
    } else {
        let e = es.last();
        let rest = in_adjacency(es.drop_last(), a);
        if e.1 == a { seq![(e.0, e.2)] + rest } else { rest }
    }
}

proof fn lemma_kept_front(x: (usize, DependencyEdge), t: Seq<(usize, DependencyEdge)>, a: usize, last: usize)
    ensures
        kept_relabelled(seq![x] + t, a, last) == if x.0 == a {
            kept_relabelled(t, a, last)
        } else {
            seq![(relabel(x.0, a, last), x.1)] + kept_relabelled(t, a, last)
        },
        count_other(seq![x] + t, a) == if x.0 == a { count_other(t, a) } else { 1 + count_other(t, a) },
{
    let s = seq![x] + t;
    assert(s[0] == x);
    assert(s.subrange(1, s.len() as int) =~= t);
}

/// After removing node `a` (the last node, `last`, taking its index), the outgoing and
/// incoming lists of each remaining node are its old lists with the entries for `a` dropped
/// and `last` renamed.
pub proof fn lemma_adjacency_without_node(es: Seq<(usize, usize, DependencyEdge)>, a: usize, last: usize, j: usize)
    requires
        a <= last,
        j < last,
    ensures
        out_adjacency(edges_without_node(es, a, last), j) == kept_relabelled(out_adjacency(es, moved_from(j, a, last)), a, last),
        in_adjacency(edges_without_node(es, a, last), j) == kept_relabelled(in_adjacency(es, moved_from(j, a, last)), a, last),
    decreases es.len(),
{
    let oj = moved_from(j, a, last);
    if es.len() == 0 {
    } else {
        let init = es.drop_last();
        let e = es.last();
        lemma_adjacency_without_node(init, a, last, j);
        lemma_kept_front((e.1, e.2), out_adjacency(init, oj), a, last);
        lemma_kept_front((e.0, e.2), in_adjacency(init, oj), a, last);
        if e.0 == a || e.1 == a {
        } else {
            let w = edges_without_node(init, a, last);
            let w2 = w.push((relabel(e.0, a, last), relabel(e.1, a, last), e.2));
            assert(w2.drop_last() =~= w);
        }
    }
}

/// Removing node `a` removes its outgoing edges and the incoming ones that are not self-loops.
pub proof fn lemma_len_without_node(es: Seq<(usize, usize, DependencyEdge)>, a: usize, last: usize)
    ensures
        edges_without_node(es, a, last).len() + out_adjacency(es, a).len() + count_other(in_adjacency(es, a), a) == es.len(),
    decreases es.len(),
{
    if es.len() > 0 {
        let init = es.drop_last();
        let e = es.last();
        lemma_len_without_node(init, a, last);
        lemma_kept_front((e.0, e.2), in_adjacency(init, a), a, last);
    }
}

/// A node that no edge touches has empty edge lists.
pub proof fn lemma_adjacency_untouched(es: Seq<(usize, usize, DependencyEdge)>, x: usize)
    requires
        forall|e: int| 0 <= e < es.len() ==> (#[trigger] es[e]).0 != x && es[e].1 != x,
    ensures
        out_adjacency(es, x) == Seq::<(usize, DependencyEdge)>::empty(),
        in_adjacency(es, x) == Seq::<(usize, DependencyEdge)>::empty(),
    decreases es.len(),
{
    if es.len() > 0 {
        let init = es.drop_last();
        assert forall|e: int| 0 <= e < init.len() implies (#[trigger] init[e]).0 != x && init[e].1 != x by {
            assert(init[e] == es[e]);
        }
        assert(es.last() == es[es.len() - 1]);
        lemma_adjacency_untouched(init, x);
    }
}

/// Calls `DiGraph::new`: a graph with no nodes and no edges.
#[verifier::external_body]
pub(crate) fn graph_new() -> (g: DiGraph<SymbolNode, DependencyEdge>)
    ensures
        graph_nodes(g) == Seq::<SymbolNode>::empty(),
        graph_edge_total(g) == 0,
{
    DiGraph::new()
}

/// Calls `Graph::with_capacity`: an empty graph; the capacities only reserve memory.
#[verifier::external_body]
pub(crate) fn graph_with_capacity(nodes: usize, edges: usize) -> (g: DiGraph<SymbolNode, DependencyEdge>)
    ensures
        graph_nodes(g) == Seq::<SymbolNode>::empty(),
        graph_edge_total(g) == 0,
{
    DiGraph::with_capacity(nodes, edges)
}

/// Calls `Graph::node_count`: the number of node weights.
#[verifier::external_body]
pub(crate) fn graph_node_count(g: &DiGraph<SymbolNode, DependencyEdge>) -> (n: usize)
    ensures
        n == graph_nodes(*g).len(),
{
    g.node_count()
}

/// Calls `Graph::edge_count`: the number of edges.
#[verifier::external_body]
pub(crate) fn graph_edge_count(g: &DiGraph<SymbolNode, DependencyEdge>) -> (n: usize)
    ensures
        n == graph_edge_total(*g),
{
    g.edge_count()
}

/// Calls `Graph::add_node`: appends the weight, with empty edge lists, and returns its index.
/// It panics once the `u32` index space is exhausted, so the graph must hold fewer than
/// `u32::MAX` nodes.
#[verifier::external_body]
pub(crate) fn graph_add_node(g: &mut DiGraph<SymbolNode, DependencyEdge>, w: SymbolNode) -> (i: usize)
    requires
        graph_nodes(*old(g)).len() < u32::MAX,
    ensures
        graph_nodes(*final(g)) == graph_nodes(*old(g)).push(w),
        graph_edge_total(*final(g)) == graph_edge_total(*old(g)),
        i == graph_nodes(*old(g)).len(),
        graph_out_list(*final(g), i) == Seq::<(usize, DependencyEdge)>::empty(),
        graph_in_list(*final(g), i) == Seq::<(usize, DependencyEdge)>::empty(),
        forall|x: usize| x < i ==> #[trigger] graph_out_list(*final(g), x) == graph_out_list(*old(g), x),
        forall|x: usize| x < i ==> #[trigger] graph_in_list(*final(g), x) == graph_in_list(*old(g), x),
{
    g.add_node(w).index()
}

/// Calls `Graph::add_edge`: stores the edge at the next edge index and links it at the front
/// of `a`'s outgoing list and of `b`'s incoming list. It panics on a missing endpoint or once
/// the `u32` edge index space is exhausted.
#[verifier::external_body]
pub(crate) fn graph_add_edge(g: &mut DiGraph<SymbolNode, DependencyEdge>, a: usize, b: usize, w: DependencyEdge) -> (k: usize)
    requires
        a < graph_nodes(*old(g)).len(),
        b < graph_nodes(*old(g)).len(),
        graph_nodes(*old(g)).len() <= u32::MAX,
        graph_edge_total(*old(g)) < u32::MAX,
    ensures
        graph_nodes(*final(g)) == graph_nodes(*old(g)),
        graph_edge_total(*final(g)) == graph_edge_total(*old(g)) + 1,
        k == graph_edge_total(*old(g)),
        graph_out_list(*final(g), a) == seq![(b, w)] + graph_out_list(*old(g), a),
        graph_in_list(*final(g), b) == seq![(a, w)] + graph_in_list(*old(g), b),
        forall|x: usize| x != a ==> #[trigger] graph_out_list(*final(g), x) == graph_out_list(*old(g), x),
        forall|x: usize| x != b ==> #[trigger] graph_in_list(*final(g), x) == graph_in_list(*old(g), x),
{
    g.add_edge(NodeIndex::new(a), NodeIndex::new(b), w).index()
}

/// Calls `Graph`'s `Index` by node: the weight at index `a`.
#[verifier::external_body]
pub(crate) fn graph_node<'a>(g: &'a DiGraph<SymbolNode, DependencyEdge>, a: usize) -> (w: &'a SymbolNode)
    requires
        a < graph_nodes(*g).len(),
        graph_nodes(*g).len() <= u32::MAX,
    ensures
        *w == graph_nodes(*g)[a as int],
{
    &g[NodeIndex::new(a)]
}

/// Calls `Graph`'s `IndexMut` by node: a mutable reference to the weight at index `a`.
#[verifier::external_body]
pub(crate) fn graph_node_mut<'a>(g: &'a mut DiGraph<SymbolNode, DependencyEdge>, a: usize) -> (w: &'a mut SymbolNode)
    requires
        a < graph_nodes(*old(g)).len(),
        graph_nodes(*old(g)).len() <= u32::MAX,
    ensures
        *w == graph_nodes(*old(g))[a as int],
        graph_nodes(*final(g)) == graph_nodes(*old(g)).update(a as int, *final(w)),
        graph_edge_total(*final(g)) == graph_edge_total(*old(g)),
        forall|x: usize| #[trigger] graph_out_list(*final(g), x) == graph_out_list(*old(g), x),
        forall|x: usize| #[trigger] graph_in_list(*final(g), x) == graph_in_list(*old(g), x),
{
    &mut g[NodeIndex::new(a)]
}

/// Calls `Graph::remove_node`: removes every edge touching node `a` (its outgoing edges,
/// self-loops included, then its remaining incoming ones), each unlinked from the lists that
/// hold it, which keep their order; then the last node moves into index `a`, and the edges of
/// its lists are renamed to point at `a`.
#[verifier::external_body]
pub(crate) fn graph_remove_node(g: &mut DiGraph<SymbolNode, DependencyEdge>, a: usize) -> (w: Option<SymbolNode>)
    requires
        a < graph_nodes(*old(g)).len(),
        graph_nodes(*old(g)).len() <= u32::MAX,
    ensures
        w == Some(graph_nodes(*old(g))[a as int]),
        graph_nodes(*final(g)) == swap_removed(graph_nodes(*old(g)), a as int),
        graph_edge_total(*final(g)) == graph_edge_total(*old(g))
            - graph_out_list(*old(g), a).len() - count_other(graph_in_list(*old(g), a), a),
        forall|j: usize| j < graph_nodes(*old(g)).len() - 1 ==> #[trigger] graph_out_list(*final(g), j) == kept_relabelled(
            graph_out_list(*old(g), moved_from(j, a, (graph_nodes(*old(g)).len() - 1) as usize)),
            a,
            (graph_nodes(*old(g)).len() - 1) as usize,
        ),
        forall|j: usize| j < graph_nodes(*old(g)).len() - 1 ==> #[trigger] graph_in_list(*final(g), j) == kept_relabelled(
            graph_in_list(*old(g), moved_from(j, a, (graph_nodes(*old(g)).len() - 1) as usize)),
            a,
            (graph_nodes(*old(g)).len() - 1) as usize,
        ),
{
    g.remove_node(NodeIndex::new(a))
}

/// Calls `Graph::edges_directed` with `Outgoing`: walks `a`'s outgoing list, giving each
/// edge as `(target, weight)`.
#[verifier::external_body]
pub(crate) fn graph_out_edges<'a>(g: &'a DiGraph<SymbolNode, DependencyEdge>, a: usize) -> (es: Vec<(usize, &'a DependencyEdge)>)
    requires
        a < graph_nodes(*g).len(),
        graph_nodes(*g).len() <= u32::MAX,
    ensures
        es@.len() == graph_out_list(*g, a).len(),
        forall|j: int| 0 <= j < es@.len() ==>
            (#[trigger] es@[j]).0 == graph_out_list(*g, a)[j].0 && *es@[j].1 == graph_out_list(*g, a)[j].1,
{
    g.edges_directed(NodeIndex::new(a), petgraph::Direction::Outgoing)
        .map(|e| (e.target().index(), e.weight()))
        .collect()
}

/// Calls `Graph::edges_directed` with `Incoming`: walks `a`'s incoming list, giving each
/// edge as `(source, weight)`.
#[verifier::external_body]
pub(crate) fn graph_in_edges<'a>(g: &'a DiGraph<SymbolNode, DependencyEdge>, a: usize) -> (es: Vec<(usize, &'a DependencyEdge)>)
    requires
        a < graph_nodes(*g).len(),
        graph_nodes(*g).len() <= u32::MAX,
    ensures
        es@.len() == graph_in_list(*g, a).len(),
        forall|j: int| 0 <= j < es@.len() ==>
            (#[trigger] es@[j]).0 == graph_in_list(*g, a)[j].0 && *es@[j].1 == graph_in_list(*g, a)[j].1,
{
    g.edges_directed(NodeIndex::new(a), petgraph::Direction::Incoming)
        .map(|e| (e.source().index(), e.weight()))
        .collect()
}

} // verus!
