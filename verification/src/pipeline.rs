//! Reconciling parsed source files into the dependency graph.
use vstd::prelude::*;
use crate::edge::{DependencyEdge, EdgeKind};
use crate::digraph::in_adjacency;
use crate::graph::{adjacency, filter_kind, index_in, invalidated, model, named_nodes, nodes_contain, state_without_ids, upserted, CodeGraph, Direction};
use crate::id::SymbolId;
use crate::parser::{ParsedFile, RawCallReference};
use crate::symbol::SymbolNode;

verus! {

/// The model after upserting each of `syms` in order.
pub open spec fn upserted_all(
    m: (Seq<SymbolNode>, Seq<(usize, usize, DependencyEdge)>, Map<Seq<char>, Seq<SymbolId>>),
    syms: Seq<SymbolNode>,
) -> (Seq<SymbolNode>, Seq<(usize, usize, DependencyEdge)>, Map<Seq<char>, Seq<SymbolId>>)
    decreases syms.len(),
{
    if syms.len() == 0 {
        m
    } else {
        upserted(upserted_all(m, syms.drop_last()), syms.last())
    }
}

/// Whether the line range of `s` contains `line`.
pub open spec fn encloses(s: SymbolNode, line: u32) -> bool {
    s.line_range.0 <= line && line <= s.line_range.1
}

/// Whether `a` is a tighter caller than `b`: callables (functions and methods) come before
/// other symbols, and then the shorter line span comes first.
pub open spec fn tighter_caller(a: SymbolNode, b: SymbolNode) -> bool {
    let ra: int = if a.kind.spec_is_callable() { 0 } else { 1 };
    let rb: int = if b.kind.spec_is_callable() { 0 } else { 1 };
    ra < rb || (ra == rb && a.line_range.1 - a.line_range.0 < b.line_range.1 - b.line_range.0)
}

/// The symbol a call on `line` is attributed to: among the symbols enclosing the line, the
/// innermost callable (a callable before any other symbol, then the shortest line span),
/// the earliest of equally good ones.
pub open spec fn resolve_caller(syms: Seq<SymbolNode>, line: u32) -> Option<SymbolNode>
    decreases syms.len(),
{
    if syms.len() == 0 {
        None
    } else {
        let best = resolve_caller(syms.drop_last(), line);
        let s = syms.last();
        if encloses(s, line) && (best is None || tighter_caller(s, best->0)) {
            Some(s)
        } else {
            best
        }
    }
}

/// The `Calls` edge recorded for a call reference.
pub open spec fn call_edge(c: RawCallReference) -> DependencyEdge {
    DependencyEdge { kind: EdgeKind::Calls, call_site_line: c.line, is_conditional: c.is_conditional }
}

/// The edges linking the calls: for each call whose caller resolves to a symbol present in
/// the graph, one edge from that symbol's node to every node named like the callee, in index
/// order.
pub open spec fn call_edges(ns: Seq<SymbolNode>, syms: Seq<SymbolNode>, calls: Seq<RawCallReference>) -> Seq<(usize, usize, DependencyEdge)>
    decreases calls.len(),
{
    if calls.len() == 0 {
        Seq::empty()
    } else {
        let rest = call_edges(ns, syms, calls.drop_last());
        let c = calls.last();
        match resolve_caller(syms, c.line) {
            Some(caller) => if nodes_contain(ns, caller.id) {
                rest + named_nodes(ns, c.callee_name@).map_values(
                    |t: SymbolNode| (index_in(ns, caller.id) as usize, index_in(ns, t.id) as usize, call_edge(c)),
                )
            } else {
                rest
            },
            None => rest,
        }
    }
}

/// The entries of `adj`, the incoming edge list of the node carrying `t`, whose source is not
/// among `ps`, as `(source identifier, t, weight)` in list order.
pub open spec fn foreign_inbound(
    ns: Seq<SymbolNode>,
    adj: Seq<(usize, DependencyEdge)>,
    t: SymbolId,
    ps: Seq<SymbolId>,
) -> Seq<(SymbolId, SymbolId, DependencyEdge)>
    decreases adj.len(),
{
    if adj.len() == 0 {
        Seq::empty()
    } else {
        let rest = foreign_inbound(ns, adj.drop_last(), t, ps);
        let s = ns[adj.last().0 as int].id;
        if ps.contains(s) { rest } else { rest.push((s, t, adj.last().1)) }
    }
}

/// The edges entering the nodes carrying the identifiers `qs`, one identifier after the other,
/// from nodes whose identifier is not among `ps`.
pub open spec fn inbound_of(
    ns: Seq<SymbolNode>,
    es: Seq<(usize, usize, DependencyEdge)>,
    ps: Seq<SymbolId>,
    qs: Seq<SymbolId>,
) -> Seq<(SymbolId, SymbolId, DependencyEdge)>
    decreases qs.len(),
{
    if qs.len() == 0 {
        Seq::empty()
    } else {
        let rest = inbound_of(ns, es, ps, qs.drop_last());
        let t = qs.last();
        if nodes_contain(ns, t) {
            rest + foreign_inbound(ns, in_adjacency(es, index_in(ns, t) as usize), t, ps)
        } else {
            rest
        }
    }
}

/// The edges entering the symbols recorded for the file at `path` from symbols not recorded
/// for it, as identifiers: symbol by symbol in recording order, most recent edge first.
pub open spec fn inbound_edges(
    m: (Seq<SymbolNode>, Seq<(usize, usize, DependencyEdge)>, Map<Seq<char>, Seq<SymbolId>>),
    path: Seq<char>,
) -> Seq<(SymbolId, SymbolId, DependencyEdge)> {
    if m.2.contains_key(path) {
        inbound_of(m.0, m.1, m.2[path], m.2[path])
    } else {
        Seq::empty()
    }
}

/// The edges restored from `ins`, in order: each one whose two endpoints are present in `ns`,
/// between their indices there.
pub open spec fn relinked(ns: Seq<SymbolNode>, ins: Seq<(SymbolId, SymbolId, DependencyEdge)>) -> Seq<(usize, usize, DependencyEdge)>
    decreases ins.len(),
{
    if ins.len() == 0 {
        Seq::empty()
    } else {
        let rest = relinked(ns, ins.drop_last());
        let e = ins.last();
        if nodes_contain(ns, e.0) && nodes_contain(ns, e.1) {
            rest.push((index_in(ns, e.0) as usize, index_in(ns, e.1) as usize, e.2))
        } else {
            rest
        }
    }
}

/// The model after reconciling a parsed file: the edges entering the file's symbols from other
/// files are noted, the file is invalidated, its symbols are upserted in order, the noted edges
/// whose endpoints are still present are restored, and the file's calls are linked.
pub open spec fn reconciled(
    m: (Seq<SymbolNode>, Seq<(usize, usize, DependencyEdge)>, Map<Seq<char>, Seq<SymbolId>>),
    path: Seq<char>,
    syms: Seq<SymbolNode>,
    calls: Seq<RawCallReference>,
) -> (Seq<SymbolNode>, Seq<(usize, usize, DependencyEdge)>, Map<Seq<char>, Seq<SymbolId>>) {
    let m2 = upserted_all(invalidated(m, path), syms);
    (m2.0, (m2.1 + relinked(m2.0, inbound_edges(m, path))) + call_edges(m2.0, syms, calls), m2.2)
}

} // verus!

verus! {

/// Upserts only grow the node sequence, and never touch the edges.
proof fn lemma_upserted_all_growth(
    m: (Seq<SymbolNode>, Seq<(usize, usize, DependencyEdge)>, Map<Seq<char>, Seq<SymbolId>>),
    syms: Seq<SymbolNode>,
    i: int,
)
    requires
        0 <= i <= syms.len(),
    ensures
        upserted_all(m, syms.take(i)).0.len() <= upserted_all(m, syms).0.len(),
        upserted_all(m, syms).1 == m.1,
    decreases syms.len(),
{
    if syms.len() > 0 {
        let init = syms.drop_last();
        if i < syms.len() {
            assert(syms.take(i) =~= init.take(i));
            lemma_upserted_all_growth(m, init, i);
        } else {
            assert(syms.take(i) =~= syms);
            lemma_upserted_all_growth(m, init, 0);
        }
    }
}

/// Upserting keeps every identifier present.
proof fn lemma_upserted_keeps(
    m: (Seq<SymbolNode>, Seq<(usize, usize, DependencyEdge)>, Map<Seq<char>, Seq<SymbolId>>),
    node: SymbolNode,
    id: SymbolId,
)
    requires
        nodes_contain(m.0, id) || id == node.id,
    ensures
        nodes_contain(upserted(m, node).0, id),
{
    let ns = upserted(m, node).0;
    if nodes_contain(m.0, node.id) {
        let p = index_in(m.0, node.id);
        if id == node.id {
            assert(ns[p].id == id);
        } else {
            let i = choose|i: int| 0 <= i < m.0.len() && #[trigger] m.0[i].id == id;
            assert(i != p);
            assert(ns[i].id == id);
        }
    } else {
        if id == node.id {
            assert(ns[m.0.len() as int].id == id);
        } else {
            let i = choose|i: int| 0 <= i < m.0.len() && #[trigger] m.0[i].id == id;
            assert(ns[i].id == id);
        }
    }
}

/// After upserting `syms`, every one of their identifiers is present.
pub proof fn lemma_upserted_all_contains(
    m: (Seq<SymbolNode>, Seq<(usize, usize, DependencyEdge)>, Map<Seq<char>, Seq<SymbolId>>),
    syms: Seq<SymbolNode>,
    k: int,
)
    requires
        0 <= k < syms.len(),
    ensures
        nodes_contain(upserted_all(m, syms).0, syms[k].id),
    decreases syms.len(),
{
    let init = syms.drop_last();
    if k < syms.len() - 1 {
        lemma_upserted_all_contains(m, init, k);
        assert(init[k] == syms[k]);
    }
    lemma_upserted_keeps(upserted_all(m, init), syms.last(), syms[k].id);
}

/// Every node named `name` is a node of `ns`.
proof fn lemma_named_nodes_present(ns: Seq<SymbolNode>, name: Seq<char>)
    ensures
        forall|j: int| 0 <= j < named_nodes(ns, name).len() ==> nodes_contain(ns, #[trigger] named_nodes(ns, name)[j].id),
        named_nodes(ns, name).len() <= ns.len(),
    decreases ns.len(),
{
    if ns.len() > 0 {
        let init = ns.drop_last();
        lemma_named_nodes_present(init, name);
        let r = named_nodes(ns, name);
        let r0 = named_nodes(init, name);
        assert forall|j: int| 0 <= j < r.len() implies nodes_contain(ns, #[trigger] r[j].id) by {
            if j < r0.len() {
                assert(r[j] == r0[j]);
                let i = choose|i: int| 0 <= i < init.len() && #[trigger] init[i].id == r0[j].id;
                assert(ns[i] == init[i]);
            } else {
                assert(r[j] == ns.last());
                assert(ns[ns.len() - 1].id == r[j].id);
            }
        }
    }
}

/// Linking a prefix of the calls adds a prefix of the edges.
proof fn lemma_call_edges_prefix(ns: Seq<SymbolNode>, syms: Seq<SymbolNode>, calls: Seq<RawCallReference>, i: int)
    requires
        0 <= i <= calls.len(),
    ensures
        call_edges(ns, syms, calls.take(i)).len() <= call_edges(ns, syms, calls).len(),
    decreases calls.len(),
{
    if calls.len() > 0 {
        let init = calls.drop_last();
        if i < calls.len() {
            assert(calls.take(i) =~= init.take(i));
            lemma_call_edges_prefix(ns, syms, init, i);
        } else {
            assert(calls.take(i) =~= calls);
        }
    }
}

} // verus!

verus! {

/// Position of the symbol a call on `line` is attributed to: the innermost enclosing
/// callable, the earliest of equally good ones.
pub fn resolve_caller_symbol(syms: &Vec<SymbolNode>, line: u32) -> (r: Option<usize>)
    ensures
        match r {
            Some(i) => i < syms@.len() && resolve_caller(syms@, line) == Some(syms@[i as int]),
            None => resolve_caller(syms@, line) is None,
        },
{
    let mut best: Option<usize> = None;
    for i in 0..syms.len()
        invariant
            match best {
                Some(b) => b < i && resolve_caller(syms@.take(i as int), line) == Some(syms@[b as int])
                    && encloses(syms@[b as int], line),
                None => resolve_caller(syms@.take(i as int), line) is None,
            },
    {
        let s = &syms[i];
        proof {
            assert(syms@.take(i + 1).drop_last() =~= syms@.take(i as int));
            assert(syms@.take(i + 1).last() == syms@[i as int]);
        }
        if s.line_range.0 <= line && line <= s.line_range.1 {
            let better = match best {
                None => true,
                Some(b) => {
                    let cur = &syms[b];
                    let rs: u8 = if s.kind.is_callable() { 0 } else { 1 };
                    let rc: u8 = if cur.kind.is_callable() { 0 } else { 1 };
                    rs < rc || (rs == rc && s.line_range.1 - s.line_range.0 < cur.line_range.1 - cur.line_range.0)
                },
            };
            if better {
                best = Some(i);
            }
        }
    }
    assert(syms@.take(syms@.len() as int) =~= syms@);
    best
}

/// Upserts each of `syms` in order.
fn upsert_all(graph: &mut CodeGraph, syms: &Vec<SymbolNode>)
    requires
        old(graph).wf(),
        upserted_all(model(*old(graph)), syms@).0.len() <= u32::MAX,
    ensures
        final(graph).wf(),
        model(*final(graph)) == upserted_all(model(*old(graph)), syms@),
{
    let ghost m1 = model(*graph);
    let n = syms.len();
    for i in 0..n
        invariant
            graph.wf(),
            n == syms@.len(),
            upserted_all(m1, syms@).0.len() <= u32::MAX,
            model(*graph) == upserted_all(m1, syms@.take(i as int)),
    {
        let node = syms[i].clone();
        proof {
            assert(syms@.take(i + 1).drop_last() =~= syms@.take(i as int));
            assert(syms@.take(i + 1).last() == node);
            lemma_upserted_all_growth(m1, syms@, i + 1);
        }
        let _ = graph.upsert_symbol(node);
    }
    assert(syms@.take(n as int) =~= syms@);
}

/// Links each call from its resolved caller to every symbol named like the callee.
fn link_calls(graph: &mut CodeGraph, syms: &Vec<SymbolNode>, calls: &Vec<RawCallReference>)
    requires
        old(graph).wf(),
        old(graph).edges().len() + call_edges(old(graph).nodes(), syms@, calls@).len() <= u32::MAX,
    ensures
        final(graph).wf(),
        final(graph).nodes() == old(graph).nodes(),
        final(graph).file_index() == old(graph).file_index(),
        final(graph).edges() == old(graph).edges() + call_edges(old(graph).nodes(), syms@, calls@),
{
    let ghost ns = graph.nodes();
    let ghost es0 = graph.edges();
    let ghost fi0 = graph.file_index();
    let c = calls.len();
    for k in 0..c
        invariant
            graph.wf(),
            c == calls@.len(),
            es0.len() + call_edges(ns, syms@, calls@).len() <= u32::MAX,
            graph.nodes() == ns,
            graph.file_index() == fi0,
            graph.edges() == es0 + call_edges(ns, syms@, calls@.take(k as int)),
    {
        let call = &calls[k];
        let ghost before = graph.edges();
        proof {
            assert(calls@.take(k + 1).drop_last() =~= calls@.take(k as int));
            assert(calls@.take(k + 1).last() == *call);
            lemma_call_edges_prefix(ns, syms@, calls@, k + 1);
            lemma_named_nodes_present(ns, call.callee_name@);
        }
        let named = graph.get_symbols_by_name(call.callee_name.as_str());
        let ghost targets = named_nodes(ns, call.callee_name@);
        let mut ids: Vec<SymbolId> = Vec::new();
        for j in 0..named.len()
            invariant
                named@.len() == targets.len(),
                forall|q: int| 0 <= q < named@.len() ==> *named@[q] == targets[q],
                ids@.len() == j,
                forall|q: int| 0 <= q < j ==> ids@[q] == targets[q].id,
        {
            ids.push(named[j].id);
        }
        match resolve_caller_symbol(syms, call.line) {
            Some(ci) => {
                let caller_id = syms[ci].id;
                let edge = DependencyEdge::new(EdgeKind::Calls, call.line, call.is_conditional);
                let ghost present = nodes_contain(ns, caller_id);
                let ghost added = if present {
                    targets.map_values(
                        |t: SymbolNode| (index_in(ns, caller_id) as usize, index_in(ns, t.id) as usize, call_edge(*call)),
                    )
                } else {
                    Seq::empty()
                };
                proof {
                    assert(before + added == es0 + call_edges(ns, syms@, calls@.take(k + 1)));
                }
                for j in 0..ids.len()
                    invariant
                        graph.wf(),
                        graph.nodes() == ns,
                        graph.file_index() == fi0,
                        ids@.len() == targets.len(),
                        forall|q: int| 0 <= q < ids@.len() ==> ids@[q] == targets[q].id,
                        forall|q: int| 0 <= q < targets.len() ==> nodes_contain(ns, #[trigger] targets[q].id),
                        present == nodes_contain(ns, caller_id),
                        edge == call_edge(*call),
                        present ==> added.len() == targets.len(),
                        !present ==> added.len() == 0,
                        present ==> forall|q: int| 0 <= q < added.len() ==> #[trigger] added[q]
                            == (index_in(ns, caller_id) as usize, index_in(ns, targets[q].id) as usize, call_edge(*call)),
                        present ==> graph.edges() == before + added.take(j as int),
                        !present ==> graph.edges() == before,
                        before.len() + added.len() <= es0.len() + call_edges(ns, syms@, calls@).len(),
                        es0.len() + call_edges(ns, syms@, calls@).len() <= u32::MAX,
                {
                    let target_id = ids[j];
                    proof {
                        assert(nodes_contain(ns, targets[j as int].id));
                    }
                    let _ = graph.add_edge(caller_id, target_id, edge);
                    proof {
                        if present {
                            assert(added.take(j + 1) =~= added.take(j as int).push(added[j as int]));
                        }
                    }
                }
                proof {
                    if present {
                        assert(added.take(ids@.len() as int) =~= added);
                    } else {
                        assert(before + added =~= before);
                    }
                }
            },
            None => {
                assert(before == es0 + call_edges(ns, syms@, calls@.take(k + 1)));
            },
        }
    }
    assert(calls@.take(c as int) =~= calls@);
}

/// Filtering with no kind keeps every entry.
proof fn lemma_filter_kind_none(s: Seq<(usize, DependencyEdge)>)
    ensures
        filter_kind(s, None) == s,
    decreases s.len(),
{
    if s.len() > 0 {
        lemma_filter_kind_none(s.drop_last());
        assert(s.drop_last().push(s.last()) =~= s);
    }
}

/// Restoring a prefix of the noted edges restores a prefix of the edges, and at most one edge
/// is restored per noted one.
proof fn lemma_relinked_prefix(ns: Seq<SymbolNode>, ins: Seq<(SymbolId, SymbolId, DependencyEdge)>, i: int)
    requires
        0 <= i <= ins.len(),
    ensures
        relinked(ns, ins.take(i)).len() <= relinked(ns, ins).len(),
        relinked(ns, ins).len() <= ins.len(),
    decreases ins.len(),
{
    if ins.len() > 0 {
        let init = ins.drop_last();
        if i < ins.len() {
            assert(ins.take(i) =~= init.take(i));
            lemma_relinked_prefix(ns, init, i);
        } else {
            assert(ins.take(i) =~= ins);
            lemma_relinked_prefix(ns, init, 0);
        }
    }
}

/// Whether `id` is among `ids`.
fn contains_id(ids: &Vec<SymbolId>, id: SymbolId) -> (b: bool)
    ensures
        b == ids@.contains(id),
{
    for k in 0..ids.len()
        invariant
            forall|q: int| 0 <= q < k ==> ids@[q] != id,
    {
        if ids[k] == id {
            assert(ids@[k as int] == id);
            return true;
        }
    }
    false
}

/// The edges entering the symbols recorded for `path` from symbols not recorded for it, as
/// `(source, target, weight)` identifiers: symbol by symbol in recording order, each symbol's
/// incoming edges most recent first.
pub fn inbound_from_other_files(graph: &CodeGraph, path: &str) -> (ins: Vec<(SymbolId, SymbolId, DependencyEdge)>)
    requires
        graph.wf(),
    ensures
        ins@ == inbound_edges(model(*graph), path@),
{
    let mut out: Vec<(SymbolId, SymbolId, DependencyEdge)> = Vec::new();
    let ids = match graph.file_symbol_ids(path) {
        Some(v) => v,
        None => return out,
    };
    let ghost ns = graph.nodes();
    let ghost es = graph.edges();
    let ghost ps = ids@;
    for k in 0..ids.len()
        invariant
            graph.wf(),
            ns == graph.nodes(),
            es == graph.edges(),
            ids@ == ps,
            out@ == inbound_of(ns, es, ps, ps.take(k as int)),
    {
        let t = ids[k];
        proof {
            assert(ps.take(k + 1).drop_last() =~= ps.take(k as int));
            assert(ps.take(k + 1).last() == t);
        }
        let into = graph.get_neighbors_by_direction(&t, Direction::Incoming, None);
        let ghost before = out@;
        let ghost present = nodes_contain(ns, t);
        let ghost adj = in_adjacency(es, index_in(ns, t) as usize);
        proof {
            lemma_filter_kind_none(adjacency(es, index_in(ns, t) as usize, Direction::Incoming));
        }
        for j in 0..into.len()
            invariant
                ids@ == ps,
                present == nodes_contain(ns, t),
                present ==> into@.len() == adj.len(),
                !present ==> into@.len() == 0,
                present ==> forall|q: int| 0 <= q < into@.len() ==>
                    (#[trigger] into@[q]).0.id == ns[adj[q].0 as int].id && *into@[q].1 == adj[q].1,
                present ==> out@ == before + foreign_inbound(ns, adj.take(j as int), t, ps),
                !present ==> out@ == before,
        {
            let (src, w) = into[j];
            proof {
                assert(adj.take(j + 1).drop_last() =~= adj.take(j as int));
                assert(adj.take(j + 1).last() == adj[j as int]);
            }
            if !contains_id(ids, src.id) {
                out.push((src.id, t, *w));
            }
        }
        proof {
            if present {
                assert(adj.take(adj.len() as int) =~= adj);
            } else {
                assert(before + Seq::<(SymbolId, SymbolId, DependencyEdge)>::empty() =~= before);
            }
        }
    }
    assert(ps.take(ps.len() as int) =~= ps);
    out
}

/// Restores each noted edge whose two endpoints are present, in order.
fn relink(graph: &mut CodeGraph, ins: &Vec<(SymbolId, SymbolId, DependencyEdge)>)
    requires
        old(graph).wf(),
        old(graph).edges().len() + relinked(old(graph).nodes(), ins@).len() <= u32::MAX,
    ensures
        final(graph).wf(),
        final(graph).nodes() == old(graph).nodes(),
        final(graph).file_index() == old(graph).file_index(),
        final(graph).edges() == old(graph).edges() + relinked(old(graph).nodes(), ins@),
{
    let ghost ns = graph.nodes();
    let ghost es0 = graph.edges();
    let ghost fi0 = graph.file_index();
    for k in 0..ins.len()
        invariant
            graph.wf(),
            graph.nodes() == ns,
            graph.file_index() == fi0,
            es0.len() + relinked(ns, ins@).len() <= u32::MAX,
            graph.edges() == es0 + relinked(ns, ins@.take(k as int)),
    {
        let (s, t, w) = ins[k];
        proof {
            assert(ins@.take(k + 1).drop_last() =~= ins@.take(k as int));
            assert(ins@.take(k + 1).last() == (s, t, w));
            lemma_relinked_prefix(ns, ins@, k + 1);
        }
        let _ = graph.add_edge(s, t, w);
    }
    assert(ins@.take(ins@.len() as int) =~= ins@);
}

/// Reconciles a parsed file into the graph: the edges entering the file's symbols from other
/// files are noted, the file's previous symbols and their edges are invalidated, its symbols
/// are upserted in order, the noted edges whose endpoints survived are restored, and each call
/// is linked from the innermost callable enclosing its line to every symbol named like the
/// callee.
pub fn reconcile_parsed_file(graph: &mut CodeGraph, file_path: &str, parsed: ParsedFile)
    requires
        old(graph).wf(),
        reconciled(model(*old(graph)), file_path@, parsed.symbols@, parsed.raw_calls@).0.len() <= u32::MAX,
        reconciled(model(*old(graph)), file_path@, parsed.symbols@, parsed.raw_calls@).1.len() <= u32::MAX,
    ensures
        final(graph).wf(),
        model(*final(graph)) == reconciled(model(*old(graph)), file_path@, parsed.symbols@, parsed.raw_calls@),
{
    let ghost m0 = model(*graph);
    let ins = inbound_from_other_files(graph, file_path);
    let _ = graph.invalidate_file(file_path);
    let ghost m1 = model(*graph);
    assert(m1 == invalidated(m0, file_path@));
    upsert_all(graph, &parsed.symbols);
    proof {
        lemma_upserted_all_growth(m1, parsed.symbols@, 0);
    }
    relink(graph, &ins);
    link_calls(graph, &parsed.symbols, &parsed.raw_calls);
}

} // verus!

verus! {

/// Removing a node keeps at most every edge.
proof fn lemma_edges_without_node_len(es: Seq<(usize, usize, DependencyEdge)>, a: usize, last: usize)
    ensures
        crate::digraph::edges_without_node(es, a, last).len() <= es.len(),
    decreases es.len(),
{
    if es.len() > 0 {
        lemma_edges_without_node_len(es.drop_last(), a, last);
    }
}

/// Removing nodes by identifier never grows the nodes or the edges.
proof fn lemma_state_without_ids_len(st: (Seq<SymbolNode>, Seq<(usize, usize, DependencyEdge)>), ids: Seq<SymbolId>)
    ensures
        state_without_ids(st, ids).0.len() <= st.0.len(),
        state_without_ids(st, ids).1.len() <= st.1.len(),
    decreases ids.len(),
{
    if ids.len() > 0 {
        lemma_state_without_ids_len(st, ids.drop_last());
        let before = state_without_ids(st, ids.drop_last());
        if nodes_contain(before.0, ids.last()) {
            let i = index_in(before.0, ids.last());
            lemma_edges_without_node_len(before.1, i as usize, (before.0.len() - 1) as usize);
        }
    }
}

/// Upserting adds at most one node per symbol.
proof fn lemma_upserted_all_len(
    m: (Seq<SymbolNode>, Seq<(usize, usize, DependencyEdge)>, Map<Seq<char>, Seq<SymbolId>>),
    syms: Seq<SymbolNode>,
)
    ensures
        upserted_all(m, syms).0.len() <= m.0.len() + syms.len(),
    decreases syms.len(),
{
    if syms.len() > 0 {
        lemma_upserted_all_len(m, syms.drop_last());
    }
}

/// Linking adds at most one edge per call and node.
proof fn lemma_call_edges_len(ns: Seq<SymbolNode>, syms: Seq<SymbolNode>, calls: Seq<RawCallReference>)
    ensures
        call_edges(ns, syms, calls).len() <= calls.len() * ns.len(),
    decreases calls.len(),
{
    if calls.len() > 0 {
        let init = calls.drop_last();
        lemma_call_edges_len(ns, syms, init);
        lemma_named_nodes_present(ns, calls.last().callee_name@);
        assert(init.len() * ns.len() + ns.len() == calls.len() * ns.len()) by (nonlinear_arith)
            requires
                init.len() + 1 == calls.len(),
        ;
    }
}

/// The reconciled graph has at most the old nodes plus the parsed symbols.
proof fn lemma_reconciled_len(
    m: (Seq<SymbolNode>, Seq<(usize, usize, DependencyEdge)>, Map<Seq<char>, Seq<SymbolId>>),
    path: Seq<char>,
    syms: Seq<SymbolNode>,
)
    ensures
        upserted_all(invalidated(m, path), syms).0.len() <= m.0.len() + syms.len(),
{
    let m1 = invalidated(m, path);
    if m.2.contains_key(path) {
        lemma_state_without_ids_len((m.0, m.1), m.2[path]);
    }
    assert(m1.0.len() <= m.0.len());
    lemma_upserted_all_len(m1, syms);
}

/// Number of noted edges whose two endpoints are present: the number of edges restoring them
/// adds.
fn count_restorable(graph: &CodeGraph, ins: &Vec<(SymbolId, SymbolId, DependencyEdge)>) -> (n: u128)
    requires
        graph.wf(),
    ensures
        n == relinked(graph.nodes(), ins@).len(),
{
    let mut n: u128 = 0;
    for k in 0..ins.len()
        invariant
            graph.wf(),
            n == relinked(graph.nodes(), ins@.take(k as int)).len(),
            n <= k,
    {
        let (s, t, _w) = ins[k];
        proof {
            assert(ins@.take(k + 1).drop_last() =~= ins@.take(k as int));
            assert(ins@.take(k + 1).last() == ins@[k as int]);
        }
        if graph.contains_symbol(&s) && graph.contains_symbol(&t) {
            n = n + 1;
        }
    }
    assert(ins@.take(ins@.len() as int) =~= ins@);
    n
}

/// Number of edges linking `calls` adds: for each call whose caller resolves to a present
/// symbol, one per symbol named like the callee.
fn count_call_edges(graph: &CodeGraph, syms: &Vec<SymbolNode>, calls: &Vec<RawCallReference>) -> (n: u128)
    requires
        graph.wf(),
    ensures
        n == call_edges(graph.nodes(), syms@, calls@).len(),
{
    let ghost ns = graph.nodes();
    let nodes = graph.node_count() as u128;
    let mut n: u128 = 0;
    for k in 0..calls.len()
        invariant
            graph.wf(),
            ns == graph.nodes(),
            nodes == ns.len(),
            nodes <= 0xffff_ffff,
            n == call_edges(ns, syms@, calls@.take(k as int)).len(),
            n <= k * nodes,
    {
        let call = &calls[k];
        proof {
            assert(calls@.take(k + 1).drop_last() =~= calls@.take(k as int));
            assert(calls@.take(k + 1).last() == *call);
            lemma_named_nodes_present(ns, call.callee_name@);
        }
        match resolve_caller_symbol(syms, call.line) {
            Some(ci) => {
                if graph.contains_symbol(&syms[ci].id) {
                    let named = graph.get_symbols_by_name(call.callee_name.as_str());
                    assert(named@.len() <= nodes);
                    assert(k * nodes + nodes == (k + 1) * nodes) by (nonlinear_arith);
                    assert((k + 1) * nodes <= 0x1_0000_0000_0000_0000 * 0xffff_ffff) by (nonlinear_arith)
                        requires
                            k + 1 <= 0x1_0000_0000_0000_0000,
                            nodes <= 0xffff_ffff,
                    ;
                    n = n + named.len() as u128;
                } else {
                    assert(k * nodes <= (k + 1) * nodes) by (nonlinear_arith);
                }
            },
            None => {
                assert(k * nodes <= (k + 1) * nodes) by (nonlinear_arith);
            },
        }
    }
    assert(calls@.take(calls@.len() as int) =~= calls@);
    n
}

/// Reconciles a parsed file (see `reconcile_parsed_file`) when the graph's `u32` index space
/// holds the result, and returns whether it did.
///
/// The old nodes plus the parsed symbols must fit, else the graph is left unchanged. Then the
/// file is invalidated and its symbols upserted, and the edges that restoring and linking
/// would add are counted exactly: if the graph cannot hold them, the graph is left with the
/// symbols upserted and no edge added.
pub fn try_reconcile_parsed_file(graph: &mut CodeGraph, file_path: &str, parsed: ParsedFile) -> (done: bool)
    requires
        old(graph).wf(),
    ensures
        final(graph).wf(),
        done == (old(graph).nodes().len() + parsed.symbols@.len() <= u32::MAX
            && reconciled(model(*old(graph)), file_path@, parsed.symbols@, parsed.raw_calls@).1.len() <= u32::MAX),
        done ==> model(*final(graph)) == reconciled(model(*old(graph)), file_path@, parsed.symbols@, parsed.raw_calls@),
        old(graph).nodes().len() + parsed.symbols@.len() > u32::MAX ==> *final(graph) == *old(graph),
        !done && old(graph).nodes().len() + parsed.symbols@.len() <= u32::MAX ==>
            model(*final(graph)) == upserted_all(invalidated(model(*old(graph)), file_path@), parsed.symbols@),
{
    let ghost m0 = model(*graph);
    let nodes = graph.node_count() as u128;
    let syms = parsed.symbols.len() as u128;
    if nodes + syms > 0xffff_ffffu128 {
        return false;
    }
    let ins = inbound_from_other_files(graph, file_path);
    let _ = graph.invalidate_file(file_path);
    let ghost m1 = model(*graph);
    proof {
        lemma_reconciled_len(m0, file_path@, parsed.symbols@);
    }
    upsert_all(graph, &parsed.symbols);
    proof {
        lemma_upserted_all_growth(m1, parsed.symbols@, 0);
    }
    let restored = count_restorable(graph, &ins);
    let linked = count_call_edges(graph, &parsed.symbols, &parsed.raw_calls);
    let edges = graph.edge_count() as u128;
    proof {
        lemma_relinked_prefix(graph.nodes(), ins@, 0);
        lemma_call_edges_len(graph.nodes(), parsed.symbols@, parsed.raw_calls@);
        assert(parsed.raw_calls@.len() * graph.nodes().len() <= 0x1_0000_0000_0000_0000 * 0xffff_ffff) by (nonlinear_arith)
            requires
                parsed.raw_calls@.len() <= 0x1_0000_0000_0000_0000,
                graph.nodes().len() <= 0xffff_ffff,
        ;
    }
    if edges + restored + linked > 0xffff_ffffu128 {
        return false;
    }
    relink(graph, &ins);
    link_calls(graph, &parsed.symbols, &parsed.raw_calls);
    true
}

/// What reconciling a parsed file when the graph's index space holds the result leaves (see
/// `try_reconcile_parsed_file`): `done` tells whether it fits; the reconciled model if so; the
/// model unchanged if the symbols cannot fit; otherwise the file invalidated and its symbols
/// upserted, with no edge added.
pub open spec fn reconcile_attempt(
    m: (Seq<SymbolNode>, Seq<(usize, usize, DependencyEdge)>, Map<Seq<char>, Seq<SymbolId>>),
    path: Seq<char>,
    syms: Seq<SymbolNode>,
    calls: Seq<RawCallReference>,
    done: bool,
    after: (Seq<SymbolNode>, Seq<(usize, usize, DependencyEdge)>, Map<Seq<char>, Seq<SymbolId>>),
) -> bool {
    &&& done == (m.0.len() + syms.len() <= u32::MAX && reconciled(m, path, syms, calls).1.len() <= u32::MAX)
    &&& done ==> after == reconciled(m, path, syms, calls)
    &&& m.0.len() + syms.len() > u32::MAX ==> after == m
    &&& !done && m.0.len() + syms.len() <= u32::MAX ==> after == upserted_all(invalidated(m, path), syms)
}

/// Parses `source_code` as the file at `file_path` with `engine` and reconciles the result
/// into the graph.
///
/// Fails, leaving the graph unchanged, with the parser's error: `UnsupportedLanguage` exactly
/// when the path's extension names no language, otherwise the error of a query of the
/// language that did not compile. When both queries run, it succeeds, and the graph is the
/// reconciled parse (see `try_reconcile_parsed_file` for `Ok(false)`).
pub fn index_source(
    engine: &mut crate::parser::AstEngine,
    graph: &mut CodeGraph,
    file_path: &str,
    source_code: &str,
) -> (r: Result<bool, crate::error::AstError>)
    requires
        old(graph).wf(),
    ensures
        final(graph).wf(),
        crate::parser::spec_from_path(file_path@) is None ==>
            (r matches Err(crate::error::AstError::UnsupportedLanguage(p)) && p@ == file_path@),
        r is Err ==> *final(graph) == *old(graph),
        r matches Err(e) ==> (crate::parser::spec_from_path(file_path@) matches Some(l) ==>
            crate::parser::parse_outcome(l, file_path@, source_code@, Err(e))),
        crate::parser::spec_from_path(file_path@) matches Some(l)
            && crate::parser::query_outcome(l, crate::parser::spec_symbols_query(l), source_code@) is Matches
            && crate::parser::query_outcome(l, crate::parser::spec_calls_query(l), source_code@) is Matches ==> r is Ok,
        r matches Ok(done) ==> exists|pf: ParsedFile| {
            &&& crate::parser::spec_from_path(file_path@) is Some
            &&& #[trigger] crate::parser::parse_outcome(crate::parser::spec_from_path(file_path@)->0, file_path@, source_code@, Ok(pf))
            &&& reconcile_attempt(model(*old(graph)), file_path@, pf.symbols@, pf.raw_calls@, done, model(*final(graph)))
        },
{
    let parsed = match engine.parse_source(file_path, source_code) {
        Ok(p) => p,
        Err(e) => return Err(e),
    };
    let ghost pf = parsed;
    let done = try_reconcile_parsed_file(graph, file_path, parsed);
    proof {
        assert(reconcile_attempt(model(*old(graph)), file_path@, pf.symbols@, pf.raw_calls@, done, model(*graph)));
    }
    Ok(done)
}

} // verus!

verus! {

/// What the file watcher does with a changed path.
#[derive(Clone, Copy, PartialEq, Eq, Structural, Debug)]
pub enum WatchAction {
    /// Re-index the file.
    Index,
    /// Drop the file's symbols: it was deleted or moved away.
    Remove,
    /// Nothing: a directory, whose contents arrive as their own events.
    Ignore,
}

/// The watcher's decision for an event path: an existing file is re-indexed, an existing
/// directory is ignored, and a path that no longer exists is removed from the graph.
pub fn watch_action(exists: bool, is_file: bool) -> (a: WatchAction)
    ensures
        a == (if !exists {
            WatchAction::Remove
        } else if is_file {
            WatchAction::Index
        } else {
            WatchAction::Ignore
        }),
{
    if exists {
        if is_file {
            WatchAction::Index
        } else {
            WatchAction::Ignore
        }
    } else {
        WatchAction::Remove
    }
}

/// Directories skipped when scanning a workspace: hidden ones, `target` and `node_modules`.
pub open spec fn spec_skips_directory(name: Seq<char>) -> bool {
    (name.len() > 0 && name[0] == '.') || name == "target"@ || name == "node_modules"@
}

/// Whether a workspace scan skips a directory of this name.
pub fn skips_directory(name: &str) -> (b: bool)
    ensures
        b == spec_skips_directory(name@),
{
    let cs = crate::text::chars_of(name);
    (cs.len() > 0 && cs[0] == '.') || crate::text::str_equal(name, "target") || crate::text::str_equal(name, "node_modules")
}

} // verus!

verus! {

/// The first pass over a batch of parsed files: for each file in turn, the edges entering its
/// symbols from other files are noted, the file is invalidated, its symbols are upserted, and
/// the noted edges whose endpoints are still present are restored.
pub open spec fn batch_upserted(
    m: (Seq<SymbolNode>, Seq<(usize, usize, DependencyEdge)>, Map<Seq<char>, Seq<SymbolId>>),
    files: Seq<(String, ParsedFile)>,
) -> (Seq<SymbolNode>, Seq<(usize, usize, DependencyEdge)>, Map<Seq<char>, Seq<SymbolId>>)
    decreases files.len(),
{
    if files.len() == 0 {
        m
    } else {
        let f = files.last();
        let prev = batch_upserted(m, files.drop_last());
        let mi = upserted_all(invalidated(prev, f.0@), f.1.symbols@);
        (mi.0, mi.1 + relinked(mi.0, inbound_edges(prev, f.0@)), mi.2)
    }
}

/// The second pass: the call edges of each file in turn, over the nodes left by the first.
pub open spec fn batch_call_edges(ns: Seq<SymbolNode>, files: Seq<(String, ParsedFile)>) -> Seq<(usize, usize, DependencyEdge)>
    decreases files.len(),
{
    if files.len() == 0 {
        Seq::empty()
    } else {
        let f = files.last();
        batch_call_edges(ns, files.drop_last()) + call_edges(ns, f.1.symbols@, f.1.raw_calls@)
    }
}

/// The model after reconciling a batch in two passes: all symbols first, then all calls, so
/// that calls across files of the batch are linked whatever the files' order.
pub open spec fn batch_reconciled(
    m: (Seq<SymbolNode>, Seq<(usize, usize, DependencyEdge)>, Map<Seq<char>, Seq<SymbolId>>),
    files: Seq<(String, ParsedFile)>,
) -> (Seq<SymbolNode>, Seq<(usize, usize, DependencyEdge)>, Map<Seq<char>, Seq<SymbolId>>) {
    let m2 = batch_upserted(m, files);
    (m2.0, m2.1 + batch_call_edges(m2.0, files), m2.2)
}

proof fn lemma_batch_call_edges_prefix(ns: Seq<SymbolNode>, files: Seq<(String, ParsedFile)>, i: int)
    requires
        0 <= i <= files.len(),
    ensures
        batch_call_edges(ns, files.take(i)).len() <= batch_call_edges(ns, files).len(),
    decreases files.len(),
{
    if files.len() > 0 {
        let init = files.drop_last();
        if i < files.len() {
            assert(files.take(i) =~= init.take(i));
            lemma_batch_call_edges_prefix(ns, init, i);
        } else {
            assert(files.take(i) =~= files);
        }
    }
}

/// Reconciles a batch of parsed files in two passes: every file is invalidated, its symbols
/// upserted and the edges into them from other files restored, then every file's calls are
/// linked.
pub fn reconcile_batch(graph: &mut CodeGraph, files: &Vec<(String, ParsedFile)>)
    requires
        old(graph).wf(),
        forall|i: int| 0 <= i <= files@.len() ==> #[trigger] batch_upserted(model(*old(graph)), files@.take(i)).0.len() <= u32::MAX,
        forall|i: int| 0 <= i <= files@.len() ==> #[trigger] batch_upserted(model(*old(graph)), files@.take(i)).1.len() <= u32::MAX,
        batch_reconciled(model(*old(graph)), files@).1.len() <= u32::MAX,
    ensures
        final(graph).wf(),
        model(*final(graph)) == batch_reconciled(model(*old(graph)), files@),
{
    let ghost m0 = model(*graph);
    let n = files.len();
    for i in 0..n
        invariant
            graph.wf(),
            n == files@.len(),
            forall|j: int| 0 <= j <= files@.len() ==> #[trigger] batch_upserted(m0, files@.take(j)).0.len() <= u32::MAX,
            forall|j: int| 0 <= j <= files@.len() ==> #[trigger] batch_upserted(m0, files@.take(j)).1.len() <= u32::MAX,
            model(*graph) == batch_upserted(m0, files@.take(i as int)),
    {
        let (path, parsed) = &files[i];
        proof {
            assert(files@.take(i + 1).drop_last() =~= files@.take(i as int));
            assert(files@.take(i + 1).last() == files@[i as int]);
            assert(batch_upserted(m0, files@.take(i + 1)).0.len() <= u32::MAX);
            assert(batch_upserted(m0, files@.take(i + 1)).1.len() <= u32::MAX);
        }
        reconcile_symbols(graph, path.as_str(), &parsed.symbols);
    }
    assert(files@.take(n as int) =~= files@);
    link_batch_calls(graph, files);
}

/// The first-pass step for one file: notes the edges entering its symbols from other files,
/// invalidates it, upserts its symbols and restores the noted edges.
fn reconcile_symbols(graph: &mut CodeGraph, path: &str, syms: &Vec<SymbolNode>)
    requires
        old(graph).wf(),
        upserted_all(invalidated(model(*old(graph)), path@), syms@).0.len() <= u32::MAX,
        upserted_all(invalidated(model(*old(graph)), path@), syms@).1.len()
            + relinked(upserted_all(invalidated(model(*old(graph)), path@), syms@).0, inbound_edges(model(*old(graph)), path@)).len()
            <= u32::MAX,
    ensures
        final(graph).wf(),
        ({
            let mi = upserted_all(invalidated(model(*old(graph)), path@), syms@);
            model(*final(graph)) == (mi.0, mi.1 + relinked(mi.0, inbound_edges(model(*old(graph)), path@)), mi.2)
        }),
{
    let ins = inbound_from_other_files(graph, path);
    let _ = graph.invalidate_file(path);
    upsert_all(graph, syms);
    relink(graph, &ins);
}

/// The second pass: links every file's calls over the nodes the first pass left.
fn link_batch_calls(graph: &mut CodeGraph, files: &Vec<(String, ParsedFile)>)
    requires
        old(graph).wf(),
        old(graph).edges().len() + batch_call_edges(old(graph).nodes(), files@).len() <= u32::MAX,
    ensures
        final(graph).wf(),
        model(*final(graph)) == (old(graph).nodes(), old(graph).edges() + batch_call_edges(old(graph).nodes(), files@), old(graph).file_index()),
{
    let ghost ns = graph.nodes();
    let ghost es0 = graph.edges();
    let ghost fi0 = graph.file_index();
    let n = files.len();
    for i in 0..n
        invariant
            graph.wf(),
            n == files@.len(),
            es0.len() + batch_call_edges(ns, files@).len() <= u32::MAX,
            graph.nodes() == ns,
            graph.file_index() == fi0,
            graph.edges() == es0 + batch_call_edges(ns, files@.take(i as int)),
    {
        let (_path, parsed) = &files[i];
        proof {
            assert(files@.take(i + 1).drop_last() =~= files@.take(i as int));
            assert(files@.take(i + 1).last() == files@[i as int]);
            lemma_batch_call_edges_prefix(ns, files@, i + 1);
        }
        link_calls(graph, &parsed.symbols, &parsed.raw_calls);
    }
    assert(files@.take(n as int) =~= files@);
}

} // verus!

verus! {

/// Number of symbols over a batch of parsed files.
pub open spec fn total_symbols(files: Seq<(String, ParsedFile)>) -> nat
    decreases files.len(),
{
    if files.len() == 0 {
        0
    } else {
        total_symbols(files.drop_last()) + files.last().1.symbols@.len()
    }
}

/// Number of calls over a batch of parsed files.
pub open spec fn total_calls(files: Seq<(String, ParsedFile)>) -> nat
    decreases files.len(),
{
    if files.len() == 0 {
        0
    } else {
        total_calls(files.drop_last()) + files.last().1.raw_calls@.len()
    }
}

/// The first pass adds at most one node per symbol.
proof fn lemma_batch_upserted_len(
    m: (Seq<SymbolNode>, Seq<(usize, usize, DependencyEdge)>, Map<Seq<char>, Seq<SymbolId>>),
    files: Seq<(String, ParsedFile)>,
)
    ensures
        batch_upserted(m, files).0.len() <= m.0.len() + total_symbols(files),
    decreases files.len(),
{
    if files.len() > 0 {
        let init = files.drop_last();
        lemma_batch_upserted_len(m, init);
        let before = batch_upserted(m, init);
        let f = files.last();
        let mi = invalidated(before, f.0@);
        if before.2.contains_key(f.0@) {
            lemma_state_without_ids_len((before.0, before.1), before.2[f.0@]);
        }
        lemma_upserted_all_len(mi, f.1.symbols@);
        lemma_upserted_all_growth(mi, f.1.symbols@, 0);
    }
}

/// Totals over a prefix of the batch are at most the totals over the whole batch.
proof fn lemma_totals_prefix(files: Seq<(String, ParsedFile)>, i: int)
    requires
        0 <= i <= files.len(),
    ensures
        total_symbols(files.take(i)) <= total_symbols(files),
        total_calls(files.take(i)) <= total_calls(files),
    decreases files.len(),
{
    if files.len() > 0 {
        let init = files.drop_last();
        if i < files.len() {
            assert(files.take(i) =~= init.take(i));
            lemma_totals_prefix(init, i);
        } else {
            assert(files.take(i) =~= files);
        }
    }
}

/// The second pass adds at most one edge per call and node.
proof fn lemma_batch_call_edges_len(ns: Seq<SymbolNode>, files: Seq<(String, ParsedFile)>)
    ensures
        batch_call_edges(ns, files).len() <= total_calls(files) * ns.len(),
    decreases files.len(),
{
    if files.len() > 0 {
        let init = files.drop_last();
        let f = files.last();
        lemma_batch_call_edges_len(ns, init);
        lemma_call_edges_len(ns, f.1.symbols@, f.1.raw_calls@);
        assert(total_calls(init) * ns.len() + f.1.raw_calls@.len() * ns.len() == total_calls(files) * ns.len()) by (nonlinear_arith)
            requires
                total_calls(init) + f.1.raw_calls@.len() == total_calls(files),
        ;
    }
}

/// Whether reconciling the batch keeps the graph within its `u32` index space: the old nodes
/// plus all parsed symbols, the edges after each file of the first pass, and the edges at the
/// end.
pub open spec fn batch_fits(
    m: (Seq<SymbolNode>, Seq<(usize, usize, DependencyEdge)>, Map<Seq<char>, Seq<SymbolId>>),
    files: Seq<(String, ParsedFile)>,
) -> bool {
    &&& m.0.len() + total_symbols(files) <= u32::MAX
    &&& forall|i: int| 0 <= i <= files.len() ==> #[trigger] batch_upserted(m, files.take(i)).1.len() <= u32::MAX
    &&& batch_reconciled(m, files).1.len() <= u32::MAX
}

/// Where a batch that does not fit stops: before anything when the symbols cannot fit; after
/// invalidating a file and upserting its symbols when restoring the edges into them would not
/// fit; after the first pass when linking the calls would not fit.
pub open spec fn batch_stopped(
    m: (Seq<SymbolNode>, Seq<(usize, usize, DependencyEdge)>, Map<Seq<char>, Seq<SymbolId>>),
    files: Seq<(String, ParsedFile)>,
    after: (Seq<SymbolNode>, Seq<(usize, usize, DependencyEdge)>, Map<Seq<char>, Seq<SymbolId>>),
) -> bool {
    ||| after == m
    ||| exists|i: int| 0 <= i < files.len() && after
        == #[trigger] upserted_all(invalidated(batch_upserted(m, files.take(i)), files[i].0@), files[i].1.symbols@)
    ||| after == batch_upserted(m, files)
}

/// Reconciles a batch in two passes (see `reconcile_batch`) when the graph's `u32` index space
/// holds the result, and returns whether it did.
///
/// The old nodes plus all parsed symbols must fit, else the graph is left unchanged. The edges
/// that each step adds are counted exactly before it runs: the first file whose restored edges
/// would not fit is left invalidated with its symbols upserted, and if the calls' edges would
/// not fit, the graph is left after the first pass (`batch_stopped`).
pub fn try_reconcile_batch(graph: &mut CodeGraph, files: &Vec<(String, ParsedFile)>) -> (done: bool)
    requires
        old(graph).wf(),
    ensures
        final(graph).wf(),
        done == batch_fits(model(*old(graph)), files@),
        done ==> model(*final(graph)) == batch_reconciled(model(*old(graph)), files@),
        old(graph).nodes().len() + total_symbols(files@) > u32::MAX ==> *final(graph) == *old(graph),
        !done ==> batch_stopped(model(*old(graph)), files@, model(*final(graph))),
{
    let limit = 0xffff_ffffu128;
    let ghost m0 = model(*graph);
    let nodes = graph.node_count() as u128;
    let n = files.len();
    let mut syms: u128 = 0;
    for i in 0..n
        invariant
            graph.wf(),
            *graph == *old(graph),
            m0 == model(*old(graph)),
            n == files@.len(),
            nodes == m0.0.len(),
            nodes <= limit,
            limit == 0xffff_ffffu128,
            syms == total_symbols(files@.take(i as int)),
            syms <= limit,
    {
        proof {
            assert(files@.take(i + 1).drop_last() =~= files@.take(i as int));
            assert(files@.take(i + 1).last() == files@[i as int]);
        }
        syms = syms + files[i].1.symbols.len() as u128;
        if syms > limit {
            proof {
                lemma_totals_prefix(files@, i + 1);
            }
            return false;
        }
    }
    assert(files@.take(n as int) =~= files@);
    if nodes + syms > limit {
        return false;
    }
    proof {
        assert forall|i: int| 0 <= i <= files@.len() implies #[trigger] batch_upserted(m0, files@.take(i)).0.len() <= u32::MAX by {
            lemma_batch_upserted_len(m0, files@.take(i));
            lemma_totals_prefix(files@, i);
        }
    }
    for i in 0..n
        invariant
            graph.wf(),
            n == files@.len(),
            limit == 0xffff_ffffu128,
            m0 == model(*old(graph)),
            m0.0.len() + total_symbols(files@) <= u32::MAX,
            forall|j: int| 0 <= j <= files@.len() ==> #[trigger] batch_upserted(m0, files@.take(j)).0.len() <= u32::MAX,
            forall|j: int| 0 <= j <= i ==> #[trigger] batch_upserted(m0, files@.take(j)).1.len() <= u32::MAX,
            model(*graph) == batch_upserted(m0, files@.take(i as int)),
    {
        let (path, parsed) = &files[i];
        let ghost prev = model(*graph);
        proof {
            assert(files@.take(i + 1).drop_last() =~= files@.take(i as int));
            assert(files@.take(i + 1).last() == files@[i as int]);
            assert(batch_upserted(m0, files@.take(i + 1)).0.len() <= u32::MAX);
        }
        let ins = inbound_from_other_files(graph, path.as_str());
        let noted = ins.len();
        let _ = graph.invalidate_file(path.as_str());
        upsert_all(graph, &parsed.symbols);
        let restored = count_restorable(graph, &ins);
        let edges = graph.edge_count() as u128;
        proof {
            lemma_relinked_prefix(graph.nodes(), ins@, 0);
        }
        if edges + restored > limit {
            proof {
                assert(batch_upserted(m0, files@.take(i + 1)).1.len() > u32::MAX);
                assert(!batch_fits(m0, files@));
                assert(files@[i as int] == (*path, *parsed));
                assert(model(*graph) == upserted_all(invalidated(batch_upserted(m0, files@.take(i as int)), files@[i as int].0@), files@[i as int].1.symbols@));
            }
            return false;
        }
        relink(graph, &ins);
        proof {
            assert(model(*graph) == batch_upserted(m0, files@.take(i + 1)));
        }
    }
    assert(files@.take(n as int) =~= files@);
    let ghost m2 = model(*graph);
    let ghost ns = graph.nodes();
    let edges = graph.edge_count() as u128;
    let mut linked: u128 = 0;
    for i in 0..n
        invariant
            graph.wf(),
            n == files@.len(),
            limit == 0xffff_ffffu128,
            m2 == batch_upserted(m0, files@),
            m0 == model(*old(graph)),
            m0.0.len() + total_symbols(files@) <= u32::MAX,
            model(*graph) == m2,
            ns == graph.nodes(),
            edges == m2.1.len(),
            edges <= limit,
            linked == batch_call_edges(ns, files@.take(i as int)).len(),
            edges + linked <= limit,
    {
        let (_path, parsed) = &files[i];
        let _count = parsed.raw_calls.len();
        proof {
            assert(files@.take(i + 1).drop_last() =~= files@.take(i as int));
            assert(files@.take(i + 1).last() == files@[i as int]);
            lemma_call_edges_len(ns, parsed.symbols@, parsed.raw_calls@);
            assert(parsed.raw_calls@.len() * ns.len() <= 0x1_0000_0000_0000_0000 * 0xffff_ffff) by (nonlinear_arith)
                requires
                    parsed.raw_calls@.len() <= 0x1_0000_0000_0000_0000,
                    ns.len() <= 0xffff_ffff,
            ;
        }
        let c = count_call_edges(graph, &parsed.symbols, &parsed.raw_calls);
        linked = linked + c;
        if edges + linked > limit {
            proof {
                lemma_batch_call_edges_prefix(ns, files@, i + 1);
                assert(!batch_fits(m0, files@));
            }
            return false;
        }
    }
    assert(files@.take(n as int) =~= files@);
    link_batch_calls(graph, files);
    true
}

} // verus!
