//! In-memory directed dependency graph with an identifier index and a per-file index.
use std::collections::HashMap;
use vstd::prelude::*;
use petgraph::graph::DiGraph;
use crate::digraph::{graph_nodes, graph_edge_total, graph_out_list, graph_in_list, graph_new, graph_with_capacity, graph_node_count, graph_edge_count, graph_node, graph_node_mut, graph_add_node, graph_add_edge, graph_remove_node, graph_out_edges, graph_in_edges, swap_removed, edges_without_node, relabel, out_adjacency, in_adjacency};
use crate::edge::{DependencyEdge, EdgeKind};
use crate::error::GraphError;
use crate::id::{SymbolId, lemma_key_injective};
use crate::symbol::SymbolNode;

verus! {

broadcast use vstd::std_specs::hash::group_hash_axioms;

/// The identifiers recorded for one source file, in insertion order.
#[derive(Debug)]
pub struct FileSymbols {
    /// Path of the source file.
    pub file_path: String,
    /// Identifiers of the symbols recorded for the file.
    pub symbols: Vec<SymbolId>,
}

/// Whether some entry of `fs` is recorded for path `p`.
pub open spec fn has_entry(fs: Seq<FileSymbols>, p: Seq<char>) -> bool {
    exists|f: int| 0 <= f < fs.len() && #[trigger] fs[f].file_path@ == p
}

/// The position of the entry recorded for path `p`.
pub open spec fn entry_of(fs: Seq<FileSymbols>, p: Seq<char>) -> int {
    choose|f: int| 0 <= f < fs.len() && #[trigger] fs[f].file_path@ == p
}

/// The file index as a map from path to recorded identifiers.
pub open spec fn file_index_of(fs: Seq<FileSymbols>) -> Map<Seq<char>, Seq<SymbolId>> {
    Map::new(|p: Seq<char>| has_entry(fs, p), |p: Seq<char>| fs[entry_of(fs, p)].symbols@)
}

/// No two entries share a path, and no entry is empty.
pub open spec fn file_entries_wf(fs: Seq<FileSymbols>) -> bool {
    &&& forall|f: int, g: int| 0 <= f < fs.len() && 0 <= g < fs.len() && f != g
        ==> #[trigger] fs[f].file_path@ != #[trigger] fs[g].file_path@
    &&& forall|f: int| 0 <= f < fs.len() ==> #[trigger] fs[f].symbols@.len() > 0
}

/// Whether `id` is recorded under some file.
pub open spec fn recorded(fs: Seq<FileSymbols>, id: SymbolId) -> bool {
    exists|f: int| 0 <= f < fs.len() && #[trigger] fs[f].symbols@.contains(id)
}

proof fn lemma_entry_unique(fs: Seq<FileSymbols>, f: int)
    requires
        file_entries_wf(fs),
        0 <= f < fs.len(),
    ensures
        has_entry(fs, fs[f].file_path@),
        entry_of(fs, fs[f].file_path@) == f,
{
    assert(has_entry(fs, fs[f].file_path@));
}

/// In-memory directed dependency graph.
///
/// Edges point from the dependant (source, the caller) to the dependency (target, the callee).
pub struct CodeGraph {
    /// The directed graph holding symbol nodes and dependency edges.
    pub graph: DiGraph<SymbolNode, DependencyEdge>,
    /// Maps each identifier's 128-bit key to the node index that holds the symbol.
    pub symbol_to_node: HashMap<u128, usize>,
    /// Per-file record of the identifiers inserted for each source file.
    pub file_to_symbols: Vec<FileSymbols>,
    /// The edges as `(source, target, weight)`, oldest first, in an order that lists every
    /// node's outgoing and incoming edges as the graph does.
    pub edge_log: Ghost<Seq<(usize, usize, DependencyEdge)>>,
}

/// Whether `id` names a node of `ns`.
pub open spec fn nodes_contain(ns: Seq<SymbolNode>, id: SymbolId) -> bool {
    exists|i: int| 0 <= i < ns.len() && #[trigger] ns[i].id == id
}

/// The index of a node of `ns` carrying `id` (meaningful when one exists).
pub open spec fn index_in(ns: Seq<SymbolNode>, id: SymbolId) -> int {
    choose|i: int| 0 <= i < ns.len() && #[trigger] ns[i].id == id
}

impl CodeGraph {
    /// The node weights in index order.
    pub open spec fn nodes(&self) -> Seq<SymbolNode> {
        graph_nodes(self.graph)
    }

    /// The edges as `(source index, target index, weight)`, oldest first: every node's
    /// outgoing and incoming edge lists are these, newest first.
    pub open spec fn edges(&self) -> Seq<(usize, usize, DependencyEdge)> {
        self.edge_log@
    }

    /// The file index as a map from path to recorded identifiers.
    pub open spec fn file_index(&self) -> Map<Seq<char>, Seq<SymbolId>> {
        file_index_of(self.file_to_symbols@)
    }

    /// Whether a node carries identifier `id`.
    pub open spec fn spec_contains(&self, id: SymbolId) -> bool {
        nodes_contain(self.nodes(), id)
    }

    /// The index of the node carrying `id` (meaningful when it exists).
    pub open spec fn spec_index_of(&self, id: SymbolId) -> int {
        index_in(self.nodes(), id)
    }

    /// Well-formedness: the identifier table and the nodes agree, edges join existing nodes,
    /// the file index has one non-empty entry per path, and every node's identifier is
    /// recorded under some file.
    pub open spec fn wf(&self) -> bool {
        &&& self.nodes().len() <= u32::MAX
        &&& self.edges().len() <= u32::MAX
        &&& graph_edge_total(self.graph) == self.edges().len()
        &&& forall|a: usize| a < self.nodes().len() ==> #[trigger] graph_out_list(self.graph, a) == out_adjacency(self.edges(), a)
        &&& forall|a: usize| a < self.nodes().len() ==> #[trigger] graph_in_list(self.graph, a) == in_adjacency(self.edges(), a)
        &&& forall|e: int| 0 <= e < self.edges().len() ==>
            (#[trigger] self.edges()[e]).0 < self.nodes().len() && self.edges()[e].1 < self.nodes().len()
        &&& forall|k: u128| #[trigger] self.symbol_to_node@.contains_key(k) ==>
            self.symbol_to_node@[k] < self.nodes().len()
            && self.nodes()[self.symbol_to_node@[k] as int].id.spec_key() == k
        &&& forall|i: int| 0 <= i < self.nodes().len() ==>
            self.symbol_to_node@.contains_key(#[trigger] self.nodes()[i].id.spec_key())
            && self.symbol_to_node@[self.nodes()[i].id.spec_key()] == i
        &&& file_entries_wf(self.file_to_symbols@)
        &&& forall|i: int| 0 <= i < self.nodes().len() ==> recorded(self.file_to_symbols@, #[trigger] self.nodes()[i].id)
    }

    /// Creates a new, empty `CodeGraph`.
    pub fn new() -> (g: Self)
        ensures
            g.wf(),
            g.nodes() == Seq::<SymbolNode>::empty(),
            g.edges() == Seq::<(usize, usize, DependencyEdge)>::empty(),
            g.file_to_symbols@ == Seq::<FileSymbols>::empty(),
    {
        let g = CodeGraph {
            graph: graph_new(),
            symbol_to_node: HashMap::new(),
            file_to_symbols: Vec::new(),
            edge_log: Ghost(Seq::empty()),
        };
        assert(g.symbol_to_node@ =~= Map::empty());
        g
    }

    /// An empty graph.
    pub open spec fn is_empty_graph(&self) -> bool {
        &&& self.nodes() == Seq::<SymbolNode>::empty()
        &&& self.edges() == Seq::<(usize, usize, DependencyEdge)>::empty()
        &&& self.file_to_symbols@ == Seq::<FileSymbols>::empty()
    }

    /// Creates a new, empty `CodeGraph` with pre-allocated node and edge capacities.
    pub fn with_capacity(nodes: usize, edges: usize) -> (g: Self)
        ensures
            g.wf(),
            g.nodes() == Seq::<SymbolNode>::empty(),
            g.edges() == Seq::<(usize, usize, DependencyEdge)>::empty(),
            g.file_to_symbols@ == Seq::<FileSymbols>::empty(),
    {
        CodeGraph {
            graph: graph_with_capacity(nodes, edges),
            symbol_to_node: HashMap::with_capacity(nodes),
            file_to_symbols: Vec::new(),
            edge_log: Ghost(Seq::empty()),
        }
    }

    /// Total number of symbol nodes.
    pub fn node_count(&self) -> (n: usize)
        ensures
            n == self.nodes().len(),
    {
        graph_node_count(&self.graph)
    }

    /// Total number of dependency edges.
    pub fn edge_count(&self) -> (n: usize)
        requires
            self.wf(),
        ensures
            n == self.edges().len(),
    {
        graph_edge_count(&self.graph)
    }

    /// Total number of source files with an entry in the file index.
    pub fn file_count(&self) -> (n: usize)
        ensures
            n == self.file_to_symbols@.len(),
    {
        self.file_to_symbols.len()
    }

    /// The index of the node carrying `id`, if any.
    pub(crate) fn lookup_index(&self, id: &SymbolId) -> (r: Option<usize>)
        requires
            self.wf(),
        ensures
            match r {
                Some(i) => i < self.nodes().len() && self.nodes()[i as int].id == *id,
                None => !self.spec_contains(*id),
            },
    {
        self.lookup(id)
    }

    /// The index of the node carrying `id`, if any.
    fn lookup(&self, id: &SymbolId) -> (r: Option<usize>)
        requires
            self.wf(),
        ensures
            match r {
                Some(i) => i < self.nodes().len() && self.nodes()[i as int].id == *id,
                None => !self.spec_contains(*id),
            },
    {
        match self.symbol_to_node.get(&id.key()) {
            Some(i) => {
                proof {
                    lemma_key_injective(self.nodes()[*i as int].id, *id);
                }
                Some(*i)
            },
            None => {
                proof {
                    if self.spec_contains(*id) {
                        let i = choose|i: int| 0 <= i < self.nodes().len() && #[trigger] self.nodes()[i].id == *id;
                        assert(self.symbol_to_node@.contains_key(self.nodes()[i].id.spec_key()));
                    }
                }
                None
            },
        }
    }

    /// Checks whether a symbol exists in the graph.
    pub fn contains_symbol(&self, id: &SymbolId) -> (b: bool)
        requires
            self.wf(),
        ensures
            b == self.spec_contains(*id),
    {
        self.lookup(id).is_some()
    }

    /// Retrieves the `SymbolNode` carrying `id`.
    pub fn get_symbol(&self, id: &SymbolId) -> (r: Option<&SymbolNode>)
        requires
            self.wf(),
        ensures
            r is Some == self.spec_contains(*id),
            r matches Some(n) ==> *n == self.nodes()[self.spec_index_of(*id)] && n.id == *id,
    {
        match self.lookup(id) {
            Some(i) => {
                proof { self.lemma_index_of(*id, i as int); }
                Some(graph_node(&self.graph, i))
            },
            None => None,
        }
    }

    /// The only node carrying `id` is the one at index `i`.
    pub proof fn lemma_index_of(&self, id: SymbolId, i: int)
        requires
            self.wf(),
            0 <= i < self.nodes().len(),
            self.nodes()[i].id == id,
        ensures
            self.spec_contains(id),
            self.spec_index_of(id) == i,
            forall|j: int| 0 <= j < self.nodes().len() && #[trigger] self.nodes()[j].id == id ==> j == i,
    {
        assert(self.spec_contains(id));
        assert forall|j: int| 0 <= j < self.nodes().len() && #[trigger] self.nodes()[j].id == id implies j == i by {
            assert(self.symbol_to_node@[self.nodes()[j].id.spec_key()] == j);
            assert(self.symbol_to_node@[self.nodes()[i].id.spec_key()] == i);
        }
    }

    /// Retrieves a mutable reference to the `SymbolNode` carrying `id`.
    pub fn get_symbol_mut(&mut self, id: &SymbolId) -> (r: Option<&mut SymbolNode>)
        requires
            old(self).wf(),
        ensures
            r is Some == old(self).spec_contains(*id),
            r is None ==> *final(self) == *old(self),
            r matches Some(n) ==> {
                let i = old(self).spec_index_of(*id);
                &&& *n == old(self).nodes()[i]
                &&& final(self).nodes() == old(self).nodes().update(i, *final(n))
                &&& final(self).edges() == old(self).edges()
                &&& final(self).symbol_to_node@ == old(self).symbol_to_node@
                &&& final(self).file_to_symbols@ == old(self).file_to_symbols@
            },
    {
        match self.lookup(id) {
            Some(i) => {
                proof { self.lemma_index_of(*id, i as int); }
                Some(graph_node_mut(&mut self.graph, i))
            },
            None => None,
        }
    }
}

} // verus!

verus! {

/// The nodes of `ns` whose name is `name`, in index order.
pub open spec fn named_nodes(ns: Seq<SymbolNode>, name: Seq<char>) -> Seq<SymbolNode>
    decreases ns.len(),
{
    if ns.len() == 0 {
        Seq::empty()
    } else {
        let rest = named_nodes(ns.drop_last(), name);
        if ns.last().name@ == name { rest.push(ns.last()) } else { rest }
    }
}

impl Default for CodeGraph {
    fn default() -> (g: Self)
        ensures
            g.wf(),
            g.is_empty_graph(),
    {
        CodeGraph::new()
    }
}

/// Position of the file entry recorded for `path`, if any.
fn find_file_entry(fs: &Vec<FileSymbols>, path: &str) -> (r: Option<usize>)
    requires
        file_entries_wf(fs@),
    ensures
        match r {
            Some(f) => f < fs@.len() && fs@[f as int].file_path@ == path@,
            None => !has_entry(fs@, path@),
        },
{
    let mut f: usize = 0;
    while f < fs.len()
        invariant
            f <= fs@.len(),
            forall|g: int| 0 <= g < f ==> fs@[g].file_path@ != path@,
        decreases fs@.len() - f,
    {
        if crate::text::str_equal(fs[f].file_path.as_str(), path) {
            return Some(f);
        }
        f = f + 1;
    }
    None
}

impl CodeGraph {
    /// The nodes present in the graph for the identifiers `ids`, in order, skipping absent ones.
    pub open spec fn present_nodes(&self, ids: Seq<SymbolId>) -> Seq<SymbolNode>
        decreases ids.len(),
    {
        if ids.len() == 0 {
            Seq::empty()
        } else {
            let rest = self.present_nodes(ids.drop_last());
            if self.spec_contains(ids.last()) {
                rest.push(self.nodes()[self.spec_index_of(ids.last())])
            } else {
                rest
            }
        }
    }

    /// Finds all symbols with a matching name, in node-index order.
    pub fn get_symbols_by_name(&self, name: &str) -> (r: Vec<&SymbolNode>)
        requires
            self.wf(),
        ensures
            r@.len() == named_nodes(self.nodes(), name@).len(),
            forall|j: int| 0 <= j < r@.len() ==> *r@[j] == named_nodes(self.nodes(), name@)[j],
    {
        let n = graph_node_count(&self.graph);
        let mut out: Vec<&SymbolNode> = Vec::new();
        for i in 0..n
            invariant
                n == self.nodes().len(),
                self.wf(),
                out@.len() == named_nodes(self.nodes().take(i as int), name@).len(),
                forall|j: int| 0 <= j < out@.len() ==> *out@[j] == named_nodes(self.nodes().take(i as int), name@)[j],
        {
            assert(self.nodes().take(i + 1).drop_last() =~= self.nodes().take(i as int));
            let node = graph_node(&self.graph, i);
            if crate::text::str_equal(node.name.as_str(), name) {
                out.push(node);
            }
        }
        assert(self.nodes().take(n as int) =~= self.nodes());
        out
    }

    /// The identifiers recorded for `path`, in recording order, if the file has an entry.
    pub fn file_symbol_ids(&self, path: &str) -> (r: Option<&Vec<SymbolId>>)
        requires
            self.wf(),
        ensures
            r is Some == self.file_index().contains_key(path@),
            r matches Some(v) ==> v@ == self.file_index()[path@],
    {
        match find_file_entry(&self.file_to_symbols, path) {
            Some(f) => {
                proof { lemma_entry_unique(self.file_to_symbols@, f as int); }
                Some(&self.file_to_symbols[f].symbols)
            },
            None => None,
        }
    }

    /// Retrieves the symbols recorded for `path`, skipping identifiers no longer in the graph.
    pub fn get_symbols_for_file(&self, path: &str) -> (r: Vec<&SymbolNode>)
        requires
            self.wf(),
        ensures
            !self.file_index().contains_key(path@) ==> r@.len() == 0,
            self.file_index().contains_key(path@) ==> {
                let expect = self.present_nodes(self.file_index()[path@]);
                &&& r@.len() == expect.len()
                &&& forall|j: int| 0 <= j < r@.len() ==> *r@[j] == expect[j]
            },
    {
        let mut out: Vec<&SymbolNode> = Vec::new();
        let f = match find_file_entry(&self.file_to_symbols, path) {
            Some(f) => f,
            None => return out,
        };
        proof { lemma_entry_unique(self.file_to_symbols@, f as int); }
        let ids = &self.file_to_symbols[f].symbols;
        for k in 0..ids.len()
            invariant
                self.wf(),
                ids@ == self.file_index()[path@],
                out@.len() == self.present_nodes(ids@.take(k as int)).len(),
                forall|j: int| 0 <= j < out@.len() ==> *out@[j] == self.present_nodes(ids@.take(k as int))[j],
        {
            assert(ids@.take(k + 1).drop_last() =~= ids@.take(k as int));
            match self.lookup(&ids[k]) {
                Some(i) => {
                    proof { self.lemma_index_of(ids@[k as int], i as int); }
                    out.push(graph_node(&self.graph, i));
                },
                None => {},
            }
        }
        assert(ids@.take(ids@.len() as int) =~= ids@);
        out
    }
}

} // verus!

verus! {

/// The file index after recording identifier `id` for path `p`.
pub open spec fn index_with_symbol(m: Map<Seq<char>, Seq<SymbolId>>, p: Seq<char>, id: SymbolId)
    -> Map<Seq<char>, Seq<SymbolId>>
{
    if m.contains_key(p) { m.insert(p, m[p].push(id)) } else { m.insert(p, seq![id]) }
}

/// Records `id` under `path`, creating the file's entry when it has none.
fn record_file_symbol(fs: &mut Vec<FileSymbols>, path: String, id: SymbolId)
    requires
        file_entries_wf(old(fs)@),
    ensures
        file_entries_wf(final(fs)@),
        file_index_of(final(fs)@) == index_with_symbol(file_index_of(old(fs)@), path@, id),
        recorded(final(fs)@, id),
        forall|y: SymbolId| recorded(old(fs)@, y) ==> #[trigger] recorded(final(fs)@, y),
{
    let ghost old_fs = fs@;
    match find_file_entry(fs, path.as_str()) {
        Some(f) => {
            proof { lemma_entry_unique(old_fs, f as int); }
            fs[f].symbols.push(id);
            proof {
                let new_fs = fs@;
                assert(new_fs[f as int].symbols@ == old_fs[f as int].symbols@.push(id));
                assert(new_fs[f as int].symbols@[old_fs[f as int].symbols@.len() as int] == id);
                assert(new_fs[f as int].symbols@.contains(id));
                assert(recorded(new_fs, id));
                assert forall|y: SymbolId| recorded(old_fs, y) implies #[trigger] recorded(new_fs, y) by {
                    let g = choose|g: int| 0 <= g < old_fs.len() && #[trigger] old_fs[g].symbols@.contains(y);
                    let q = choose|q: int| 0 <= q < old_fs[g].symbols@.len() && old_fs[g].symbols@[q] == y;
                    if g == f {
                        assert(new_fs[g].symbols@[q] == y);
                    } else {
                        assert(new_fs[g] == old_fs[g]);
                    }
                    assert(new_fs[g].symbols@.contains(y));
                }
                assert forall|g: int| 0 <= g < new_fs.len() implies #[trigger] new_fs[g].file_path@ == old_fs[g].file_path@ by {}
                assert(file_entries_wf(new_fs));
                lemma_entry_unique(new_fs, f as int);
                let m0 = file_index_of(old_fs);
                let m1 = file_index_of(new_fs);
                let want = index_with_symbol(m0, path@, id);
                assert forall|p: Seq<char>| #[trigger] m1.contains_key(p) == want.contains_key(p) by {
                    if has_entry(old_fs, p) {
                        let g = choose|g: int| 0 <= g < old_fs.len() && #[trigger] old_fs[g].file_path@ == p;
                        assert(new_fs[g].file_path@ == p);
                    }
                    if has_entry(new_fs, p) {
                        let g = choose|g: int| 0 <= g < new_fs.len() && #[trigger] new_fs[g].file_path@ == p;
                        assert(old_fs[g].file_path@ == p);
                    }
                }
                assert forall|p: Seq<char>| #[trigger] m1.contains_key(p) implies m1[p] == want[p] by {
                    let g = choose|g: int| 0 <= g < new_fs.len() && #[trigger] new_fs[g].file_path@ == p;
                    lemma_entry_unique(new_fs, g);
                    lemma_entry_unique(old_fs, g);
                }
                assert(m1 =~= want);
            }
        },
        None => {
            let ghost p = path@;
            fs.push(FileSymbols { file_path: path, symbols: vec![id] });
            proof {
                let new_fs = fs@;
                let n = old_fs.len() as int;
                assert(new_fs[n].symbols@[0] == id);
                assert(new_fs[n].symbols@.contains(id));
                assert forall|y: SymbolId| recorded(old_fs, y) implies #[trigger] recorded(new_fs, y) by {
                    let g = choose|g: int| 0 <= g < old_fs.len() && #[trigger] old_fs[g].symbols@.contains(y);
                    assert(new_fs[g] == old_fs[g]);
                }
                assert forall|f: int, g: int| 0 <= f < new_fs.len() && 0 <= g < new_fs.len() && f != g
                    implies #[trigger] new_fs[f].file_path@ != #[trigger] new_fs[g].file_path@ by {
                    if f == n {
                        assert(old_fs[g].file_path@ == new_fs[g].file_path@);
                    } else if g == n {
                        assert(old_fs[f].file_path@ == new_fs[f].file_path@);
                    }
                }
                assert(new_fs[n].symbols@ =~= seq![id]);
                assert(file_entries_wf(new_fs));
                lemma_entry_unique(new_fs, n);
                let m0 = file_index_of(old_fs);
                let m1 = file_index_of(new_fs);
                let want = index_with_symbol(m0, p, id);
                assert forall|q: Seq<char>| #[trigger] m1.contains_key(q) == want.contains_key(q) by {
                    if has_entry(old_fs, q) {
                        let g = choose|g: int| 0 <= g < old_fs.len() && #[trigger] old_fs[g].file_path@ == q;
                        assert(new_fs[g].file_path@ == q);
                    }
                    if has_entry(new_fs, q) && q != p {
                        let g = choose|g: int| 0 <= g < new_fs.len() && #[trigger] new_fs[g].file_path@ == q;
                        assert(old_fs[g].file_path@ == q);
                    }
                }
                assert forall|q: Seq<char>| #[trigger] m1.contains_key(q) implies m1[q] == want[q] by {
                    let g = choose|g: int| 0 <= g < new_fs.len() && #[trigger] new_fs[g].file_path@ == q;
                    lemma_entry_unique(new_fs, g);
                    if g < n {
                        lemma_entry_unique(old_fs, g);
                    }
                }
                assert(m1 =~= want);
            }
        },
    }
}

impl CodeGraph {
    /// Inserts a new symbol, or replaces the metadata of the node already carrying its identifier.
    ///
    /// Replacing keeps the node's index, its edges and the file index unchanged; inserting
    /// appends the node and records its identifier under its file path.
    pub fn upsert_symbol(&mut self, node: SymbolNode) -> (i: usize)
        requires
            old(self).wf(),
            !old(self).spec_contains(node.id) ==> old(self).nodes().len() < u32::MAX,
        ensures
            final(self).wf(),
            model(*final(self)) == upserted(model(*old(self)), node),
            final(self).edges() == old(self).edges(),
            old(self).spec_contains(node.id) ==> {
                &&& i == old(self).spec_index_of(node.id)
                &&& final(self).nodes() == old(self).nodes().update(i as int, node)
                &&& final(self).file_index() == old(self).file_index()
            },
            !old(self).spec_contains(node.id) ==> {
                &&& i == old(self).nodes().len()
                &&& final(self).nodes() == old(self).nodes().push(node)
                &&& final(self).file_index() == index_with_symbol(old(self).file_index(), node.file_path@, node.id)
            },
    {
        let symbol_id = node.id;
        match self.lookup(&symbol_id) {
            Some(i) => {
                proof { self.lemma_index_of(symbol_id, i as int); }
                let ghost g0 = *self;
                let w = graph_node_mut(&mut self.graph, i);
                *w = node;
                proof {
                    assert forall|a: usize| a < self.nodes().len() implies
                        #[trigger] graph_out_list(self.graph, a) == out_adjacency(self.edges(), a) by {
                        assert(graph_out_list(g0.graph, a) == out_adjacency(g0.edges(), a));
                    }
                    assert forall|a: usize| a < self.nodes().len() implies
                        #[trigger] graph_in_list(self.graph, a) == in_adjacency(self.edges(), a) by {
                        assert(graph_in_list(g0.graph, a) == in_adjacency(g0.edges(), a));
                    }
                    assert forall|j: int| 0 <= j < self.nodes().len() implies
                        self.symbol_to_node@.contains_key(#[trigger] self.nodes()[j].id.spec_key())
                        && self.symbol_to_node@[self.nodes()[j].id.spec_key()] == j by {
                        if j != i {
                            assert(g0.nodes()[j] == self.nodes()[j]);
                        }
                    }
                }
                i
            },
            None => {
                let file_path = node.file_path.clone();
                let ghost g0 = *self;
                let i = graph_add_node(&mut self.graph, node);
                self.symbol_to_node.insert(symbol_id.key(), i);
                proof {
                    crate::digraph::lemma_adjacency_untouched(self.edges(), i);
                    assert forall|a: usize| a < self.nodes().len() implies
                        #[trigger] graph_out_list(self.graph, a) == out_adjacency(self.edges(), a) by {
                        if a < i {
                            assert(graph_out_list(g0.graph, a) == out_adjacency(g0.edges(), a));
                        }
                    }
                    assert forall|a: usize| a < self.nodes().len() implies
                        #[trigger] graph_in_list(self.graph, a) == in_adjacency(self.edges(), a) by {
                        if a < i {
                            assert(graph_in_list(g0.graph, a) == in_adjacency(g0.edges(), a));
                        }
                    }
                    assert forall|k: u128| #[trigger] self.symbol_to_node@.contains_key(k) implies
                        self.symbol_to_node@[k] < self.nodes().len()
                        && self.nodes()[self.symbol_to_node@[k] as int].id.spec_key() == k by {
                        if k != symbol_id.spec_key() {
                            assert(g0.symbol_to_node@.contains_key(k));
                        }
                    }
                    assert forall|j: int| 0 <= j < self.nodes().len() implies
                        self.symbol_to_node@.contains_key(#[trigger] self.nodes()[j].id.spec_key())
                        && self.symbol_to_node@[self.nodes()[j].id.spec_key()] == j by {
                        if j < i {
                            assert(g0.nodes()[j] == self.nodes()[j]);
                            if self.nodes()[j].id.spec_key() == symbol_id.spec_key() {
                                lemma_key_injective(self.nodes()[j].id, symbol_id);
                            }
                        }
                    }
                }
                record_file_symbol(&mut self.file_to_symbols, file_path, symbol_id);
                i
            },
        }
    }

    /// Adds a directed dependency edge from `source_id` to `target_id`.
    ///
    /// Fails with `EndpointNotFound`, leaving the graph unchanged, when either symbol is missing.
    pub fn add_edge(&mut self, source_id: SymbolId, target_id: SymbolId, edge: DependencyEdge)
        -> (r: Result<usize, GraphError>)
        requires
            old(self).wf(),
            old(self).spec_contains(source_id) && old(self).spec_contains(target_id) ==> old(self).edges().len() < u32::MAX,
        ensures
            final(self).wf(),
            final(self).nodes() == old(self).nodes(),
            final(self).file_index() == old(self).file_index(),
            final(self).symbol_to_node@ == old(self).symbol_to_node@,
            r is Err <==> !(old(self).spec_contains(source_id) && old(self).spec_contains(target_id)),
            r is Err ==> r == Err::<usize, GraphError>(GraphError::EndpointNotFound)
                && final(self).edges() == old(self).edges(),
            r matches Ok(k) ==> k == old(self).edges().len() && final(self).edges() == old(self).edges().push(
                (
                    old(self).spec_index_of(source_id) as usize,
                    old(self).spec_index_of(target_id) as usize,
                    edge,
                ),
            ),
    {
        let source_idx = match self.lookup(&source_id) {
            Some(i) => i,
            None => return Err(GraphError::EndpointNotFound),
        };
        let target_idx = match self.lookup(&target_id) {
            Some(i) => i,
            None => return Err(GraphError::EndpointNotFound),
        };
        proof {
            self.lemma_index_of(source_id, source_idx as int);
            self.lemma_index_of(target_id, target_idx as int);
        }
        let ghost g0 = *self;
        let k = graph_add_edge(&mut self.graph, source_idx, target_idx, edge);
        self.edge_log = Ghost(self.edge_log@.push((source_idx, target_idx, edge)));
        proof {
            let es = self.edges();
            assert(es.drop_last() =~= g0.edges());
            assert forall|a: usize| a < self.nodes().len() implies #[trigger] graph_out_list(self.graph, a) == out_adjacency(es, a) by {
                assert(graph_out_list(g0.graph, a) == out_adjacency(g0.edges(), a));
            }
            assert forall|a: usize| a < self.nodes().len() implies #[trigger] graph_in_list(self.graph, a) == in_adjacency(es, a) by {
                assert(graph_in_list(g0.graph, a) == in_adjacency(g0.edges(), a));
            }
            assert forall|e: int| 0 <= e < self.edges().len() implies
                (#[trigger] self.edges()[e]).0 < self.nodes().len() && self.edges()[e].1 < self.nodes().len() by {
                if e < g0.edges().len() {
                    assert(self.edges()[e] == g0.edges()[e]);
                }
            }
        }
        Ok(k)
    }
}

} // verus!

verus! {

/// The nodes and edges after removing the node carrying `id`, if there is one: the last node
/// takes its index and every edge touching it disappears.
pub open spec fn state_without_id(
    st: (Seq<SymbolNode>, Seq<(usize, usize, DependencyEdge)>),
    id: SymbolId,
) -> (Seq<SymbolNode>, Seq<(usize, usize, DependencyEdge)>) {
    if nodes_contain(st.0, id) {
        let i = index_in(st.0, id);
        (swap_removed(st.0, i), edges_without_node(st.1, i as usize, (st.0.len() - 1) as usize))
    } else {
        st
    }
}

/// The nodes and edges after removing, in order, the nodes carrying each of `ids`.
pub open spec fn state_without_ids(
    st: (Seq<SymbolNode>, Seq<(usize, usize, DependencyEdge)>),
    ids: Seq<SymbolId>,
) -> (Seq<SymbolNode>, Seq<(usize, usize, DependencyEdge)>)
    decreases ids.len(),
{
    if ids.len() == 0 {
        st
    } else {
        state_without_id(state_without_ids(st, ids.drop_last()), ids.last())
    }
}

/// The nodes removed, in order, when removing the nodes carrying each of `ids`.
pub open spec fn removed_by_ids(
    st: (Seq<SymbolNode>, Seq<(usize, usize, DependencyEdge)>),
    ids: Seq<SymbolId>,
) -> Seq<SymbolNode>
    decreases ids.len(),
{
    if ids.len() == 0 {
        Seq::empty()
    } else {
        let before = state_without_ids(st, ids.drop_last());
        let rest = removed_by_ids(st, ids.drop_last());
        if nodes_contain(before.0, ids.last()) {
            rest.push(before.0[index_in(before.0, ids.last())])
        } else {
            rest
        }
    }
}

/// `s` without the occurrences of `id`, order kept.
pub open spec fn ids_without(s: Seq<SymbolId>, id: SymbolId) -> Seq<SymbolId>
    decreases s.len(),
{
    if s.len() == 0 {
        Seq::empty()
    } else {
        let rest = ids_without(s.drop_last(), id);
        if s.last() == id { rest } else { rest.push(s.last()) }
    }
}

/// The file index after forgetting `id` under path `p`; an entry left empty disappears.
pub open spec fn index_without_symbol(m: Map<Seq<char>, Seq<SymbolId>>, p: Seq<char>, id: SymbolId)
    -> Map<Seq<char>, Seq<SymbolId>>
{
    if m.contains_key(p) {
        let rest = ids_without(m[p], id);
        if rest.len() == 0 { m.remove(p) } else { m.insert(p, rest) }
    } else {
        m
    }
}

/// The graph as nodes, edges and file index.
pub open spec fn model(g: CodeGraph) -> (Seq<SymbolNode>, Seq<(usize, usize, DependencyEdge)>, Map<Seq<char>, Seq<SymbolId>>) {
    (g.nodes(), g.edges(), g.file_index())
}

/// The model after invalidating the file at `path`: its recorded symbols and their edges are
/// removed, and so is its entry.
pub open spec fn invalidated(
    m: (Seq<SymbolNode>, Seq<(usize, usize, DependencyEdge)>, Map<Seq<char>, Seq<SymbolId>>),
    path: Seq<char>,
) -> (Seq<SymbolNode>, Seq<(usize, usize, DependencyEdge)>, Map<Seq<char>, Seq<SymbolId>>) {
    if m.2.contains_key(path) {
        let st = state_without_ids((m.0, m.1), m.2[path]);
        (st.0, st.1, m.2.remove(path))
    } else {
        m
    }
}

/// The model after upserting `node`: it replaces the node carrying its identifier, or is
/// appended and recorded under its file.
pub open spec fn upserted(
    m: (Seq<SymbolNode>, Seq<(usize, usize, DependencyEdge)>, Map<Seq<char>, Seq<SymbolId>>),
    node: SymbolNode,
) -> (Seq<SymbolNode>, Seq<(usize, usize, DependencyEdge)>, Map<Seq<char>, Seq<SymbolId>>) {
    if nodes_contain(m.0, node.id) {
        (m.0.update(index_in(m.0, node.id), node), m.1, m.2)
    } else {
        (m.0.push(node), m.1, index_with_symbol(m.2, node.file_path@, node.id))
    }
}

/// Endpoints stay in range once a node is removed.
proof fn lemma_edges_without_node_bounds(es: Seq<(usize, usize, DependencyEdge)>, a: usize, n: usize)
    requires
        a < n,
        forall|e: int| 0 <= e < es.len() ==> (#[trigger] es[e]).0 < n && es[e].1 < n,
    ensures
        edges_without_node(es, a, (n - 1) as usize).len() <= es.len(),
        forall|e: int| 0 <= e < edges_without_node(es, a, (n - 1) as usize).len() ==>
            (#[trigger] edges_without_node(es, a, (n - 1) as usize)[e]).0 < n - 1
            && edges_without_node(es, a, (n - 1) as usize)[e].1 < n - 1,
    decreases es.len(),
{
    if es.len() > 0 {
        let init = es.drop_last();
        assert forall|e: int| 0 <= e < init.len() implies (#[trigger] init[e]).0 < n && init[e].1 < n by {
            assert(init[e] == es[e]);
        }
        lemma_edges_without_node_bounds(init, a, n);
        let e = es.last();
        assert(es[es.len() - 1] == e);
        let r = edges_without_node(es, a, (n - 1) as usize);
        let r0 = edges_without_node(init, a, (n - 1) as usize);
        if !(e.0 == a || e.1 == a) {
            assert(r == r0.push((relabel(e.0, a, (n - 1) as usize), relabel(e.1, a, (n - 1) as usize), e.2)));
            assert forall|k: int| 0 <= k < r.len() implies (#[trigger] r[k]).0 < n - 1 && r[k].1 < n - 1 by {
                if k < r0.len() {
                    assert(r[k] == r0[k]);
                }
            }
        }
    }
}

/// Endpoints stay in range once a node is removed.
pub proof fn lemma_edges_without_node_bounds_pub(es: Seq<(usize, usize, DependencyEdge)>, a: usize, n: usize)
    requires
        a < n,
        forall|e: int| 0 <= e < es.len() ==> (#[trigger] es[e]).0 < n && es[e].1 < n,
    ensures
        forall|e: int| 0 <= e < edges_without_node(es, a, (n - 1) as usize).len() ==>
            (#[trigger] edges_without_node(es, a, (n - 1) as usize)[e]).0 < n - 1
            && edges_without_node(es, a, (n - 1) as usize)[e].1 < n - 1,
{
    lemma_edges_without_node_bounds(es, a, n);
}

/// Removes the entry `f` of `fs`: the index loses that path.
proof fn lemma_remove_entry(fs: Seq<FileSymbols>, f: int)
    requires
        file_entries_wf(fs),
        0 <= f < fs.len(),
    ensures
        file_entries_wf(fs.remove(f)),
        file_index_of(fs.remove(f)) == file_index_of(fs).remove(fs[f].file_path@),
{
    let nfs = fs.remove(f);
    let p = fs[f].file_path@;
    assert forall|a: int, b: int| 0 <= a < nfs.len() && 0 <= b < nfs.len() && a != b
        implies #[trigger] nfs[a].file_path@ != #[trigger] nfs[b].file_path@ by {
        let a0 = if a < f { a } else { a + 1 };
        let b0 = if b < f { b } else { b + 1 };
        assert(nfs[a] == fs[a0]);
        assert(nfs[b] == fs[b0]);
    }
    assert forall|a: int| 0 <= a < nfs.len() implies #[trigger] nfs[a].symbols@.len() > 0 by {
        let a0 = if a < f { a } else { a + 1 };
        assert(nfs[a] == fs[a0]);
    }
    let m0 = file_index_of(fs);
    let m1 = file_index_of(nfs);
    let want = m0.remove(p);
    lemma_entry_unique(fs, f);
    assert forall|q: Seq<char>| #[trigger] m1.contains_key(q) == want.contains_key(q) by {
        if has_entry(nfs, q) {
            let a = choose|a: int| 0 <= a < nfs.len() && #[trigger] nfs[a].file_path@ == q;
            let a0 = if a < f { a } else { a + 1 };
            assert(nfs[a] == fs[a0]);
            assert(fs[a0].file_path@ == q);
        }
        if has_entry(fs, q) && q != p {
            let a0 = choose|a: int| 0 <= a < fs.len() && #[trigger] fs[a].file_path@ == q;
            let a = if a0 < f { a0 } else { a0 - 1 };
            assert(nfs[a] == fs[a0]);
        }
    }
    assert forall|q: Seq<char>| #[trigger] m1.contains_key(q) implies m1[q] == want[q] by {
        let a = choose|a: int| 0 <= a < nfs.len() && #[trigger] nfs[a].file_path@ == q;
        let a0 = if a < f { a } else { a + 1 };
        assert(nfs[a] == fs[a0]);
        lemma_entry_unique(nfs, a);
        lemma_entry_unique(fs, a0);
    }
    assert(m1 =~= want);
}

/// Dropping the occurrences of `id` keeps every other identifier.
proof fn lemma_ids_without_keeps(s: Seq<SymbolId>, id: SymbolId, y: SymbolId)
    requires
        s.contains(y),
        y != id,
    ensures
        ids_without(s, id).contains(y),
    decreases s.len(),
{
    let init = s.drop_last();
    let r = ids_without(s, id);
    if s.last() == y {
        assert(r[r.len() - 1] == y);
    } else {
        let q = choose|q: int| 0 <= q < s.len() && s[q] == y;
        assert(q < s.len() - 1);
        assert(init[q] == y);
        lemma_ids_without_keeps(init, id, y);
        let r0 = ids_without(init, id);
        let q0 = choose|q0: int| 0 <= q0 < r0.len() && r0[q0] == y;
        assert(r[q0] == y);
    }
}

/// Forgets `id` under `path`; an entry left empty is dropped.
fn forget_file_symbol(fs: &mut Vec<FileSymbols>, path: &str, id: SymbolId)
    requires
        file_entries_wf(old(fs)@),
    ensures
        file_entries_wf(final(fs)@),
        file_index_of(final(fs)@) == index_without_symbol(file_index_of(old(fs)@), path@, id),
        forall|y: SymbolId| y != id && recorded(old(fs)@, y) ==> #[trigger] recorded(final(fs)@, y),
{
    let ghost old_fs = fs@;
    let f = match find_file_entry(fs, path) {
        Some(f) => f,
        None => {
            return;
        },
    };
    proof { lemma_entry_unique(old_fs, f as int); }
    let mut kept: Vec<SymbolId> = Vec::new();
    let n = fs[f].symbols.len();
    for k in 0..n
        invariant
            fs@ == old_fs,
            f < fs@.len(),
            n == fs@[f as int].symbols@.len(),
            kept@ == ids_without(fs@[f as int].symbols@.take(k as int), id),
    {
        assert(fs@[f as int].symbols@.take(k + 1).drop_last() =~= fs@[f as int].symbols@.take(k as int));
        let s = fs[f].symbols[k];
        if s != id {
            kept.push(s);
        }
    }
    assert(fs@[f as int].symbols@.take(n as int) =~= fs@[f as int].symbols@);
    if kept.len() == 0 {
        fs.remove(f);
        proof {
            lemma_remove_entry(old_fs, f as int);
            assert forall|y: SymbolId| y != id && recorded(old_fs, y) implies #[trigger] recorded(fs@, y) by {
                let g = choose|g: int| 0 <= g < old_fs.len() && #[trigger] old_fs[g].symbols@.contains(y);
                if g == f {
                    lemma_ids_without_keeps(old_fs[g].symbols@, id, y);
                    assert(false);
                } else if g < f {
                    assert(fs@[g] == old_fs[g]);
                } else {
                    assert(fs@[g - 1] == old_fs[g]);
                }
            }
        }
    } else {
        let ghost kv = kept@;
        fs[f].symbols = kept;
        proof {
            let nfs = fs@;
            assert forall|y: SymbolId| y != id && recorded(old_fs, y) implies #[trigger] recorded(nfs, y) by {
                let g = choose|g: int| 0 <= g < old_fs.len() && #[trigger] old_fs[g].symbols@.contains(y);
                if g == f {
                    lemma_ids_without_keeps(old_fs[g].symbols@, id, y);
                    assert(nfs[g].symbols@ == kv);
                } else {
                    assert(nfs[g] == old_fs[g]);
                }
            }
            assert forall|g: int| 0 <= g < nfs.len() implies #[trigger] nfs[g].file_path@ == old_fs[g].file_path@ by {}
            assert(file_entries_wf(nfs));
            lemma_entry_unique(nfs, f as int);
            let m0 = file_index_of(old_fs);
            let m1 = file_index_of(nfs);
            let want = index_without_symbol(m0, path@, id);
            assert(want == m0.insert(path@, kv));
            assert forall|p: Seq<char>| #[trigger] m1.contains_key(p) == want.contains_key(p) by {
                if has_entry(old_fs, p) {
                    let g = choose|g: int| 0 <= g < old_fs.len() && #[trigger] old_fs[g].file_path@ == p;
                    assert(nfs[g].file_path@ == p);
                }
                if has_entry(nfs, p) {
                    let g = choose|g: int| 0 <= g < nfs.len() && #[trigger] nfs[g].file_path@ == p;
                    assert(old_fs[g].file_path@ == p);
                }
            }
            assert forall|p: Seq<char>| #[trigger] m1.contains_key(p) implies m1[p] == want[p] by {
                let g = choose|g: int| 0 <= g < nfs.len() && #[trigger] nfs[g].file_path@ == p;
                lemma_entry_unique(nfs, g);
                lemma_entry_unique(old_fs, g);
            }
            assert(m1 =~= want);
        }
    }
}

impl CodeGraph {
    /// Removes the node at index `i`, keeping the identifier table in step with the node that
    /// moves into the freed index.
    fn remove_node_at(&mut self, i: usize) -> (removed: SymbolNode)
        requires
            old(self).wf(),
            i < old(self).nodes().len(),
        ensures
            final(self).wf(),
            removed == old(self).nodes()[i as int],
            (final(self).nodes(), final(self).edges())
                == state_without_id((old(self).nodes(), old(self).edges()), removed.id),
            final(self).file_to_symbols@ == old(self).file_to_symbols@,
    {
        let ghost g0 = *self;
        let ghost id = g0.nodes()[i as int].id;
        proof { g0.lemma_index_of(id, i as int); }
        let n = graph_node_count(&self.graph);
        let ghost moved = g0.nodes()[n - 1];
        let removed_key = graph_node(&self.graph, i).id.key();
        self.symbol_to_node.remove(&removed_key);
        let removed = graph_remove_node(&mut self.graph, i).unwrap();
        self.edge_log = Ghost(edges_without_node(g0.edges(), i, (n - 1) as usize));
        proof {
            let es = self.edges();
            let last = (n - 1) as usize;
            crate::digraph::lemma_len_without_node(g0.edges(), i, last);
            assert(graph_out_list(g0.graph, i) == out_adjacency(g0.edges(), i));
            assert(graph_in_list(g0.graph, i) == in_adjacency(g0.edges(), i));
            assert forall|a: usize| a < self.nodes().len() implies
                #[trigger] graph_out_list(self.graph, a) == out_adjacency(es, a) by {
                crate::digraph::lemma_adjacency_without_node(g0.edges(), i, last, a);
                let oa = crate::digraph::moved_from(a, i, last);
                assert(graph_out_list(g0.graph, oa) == out_adjacency(g0.edges(), oa));
            }
            assert forall|a: usize| a < self.nodes().len() implies
                #[trigger] graph_in_list(self.graph, a) == in_adjacency(es, a) by {
                crate::digraph::lemma_adjacency_without_node(g0.edges(), i, last, a);
                let oa = crate::digraph::moved_from(a, i, last);
                assert(graph_in_list(g0.graph, oa) == in_adjacency(g0.edges(), oa));
            }
        }
        if i != n - 1 {
            let moved_key = graph_node(&self.graph, i).id.key();
            self.symbol_to_node.insert(moved_key, i);
        }
        proof {
            lemma_edges_without_node_bounds(g0.edges(), i, n as usize);
            let ns = self.nodes();
            assert(ns == swap_removed(g0.nodes(), i as int));
            assert forall|k: u128| #[trigger] self.symbol_to_node@.contains_key(k) implies
                self.symbol_to_node@[k] < ns.len() && ns[self.symbol_to_node@[k] as int].id.spec_key() == k by {
                if i != n - 1 && k == moved.id.spec_key() {
                } else {
                    assert(g0.symbol_to_node@.contains_key(k));
                    let v = g0.symbol_to_node@[k];
                    assert(k != id.spec_key());
                    assert(v != i);
                    if v == n - 1 {
                        assert(g0.nodes()[n - 1].id.spec_key() == k);
                        assert(i == n - 1);
                        assert(false);
                    }
                    assert(ns[v as int] == g0.nodes()[v as int]);
                }
            }
            assert forall|j: int| 0 <= j < ns.len() implies
                self.symbol_to_node@.contains_key(#[trigger] ns[j].id.spec_key())
                && self.symbol_to_node@[ns[j].id.spec_key()] == j by {
                if j == i {
                    assert(ns[j] == moved);
                } else {
                    assert(ns[j] == g0.nodes()[j]);
                    assert(g0.symbol_to_node@[g0.nodes()[j].id.spec_key()] == j);
                    if g0.nodes()[j].id.spec_key() == id.spec_key() {
                        assert(j == i);
                    }
                    if i != n - 1 && g0.nodes()[j].id.spec_key() == moved.id.spec_key() {
                        assert(g0.symbol_to_node@[moved.id.spec_key()] == n - 1);
                    }
                }
            }
        }
        removed
    }
}

} // verus!

verus! {

impl CodeGraph {
    /// Removes the symbol carrying `id` and every edge touching it.
    ///
    /// The last node moves into the freed index and the identifier table follows it; the
    /// identifier is dropped from the file entry of the removed node's path, and an entry left
    /// empty disappears.
    pub fn remove_symbol(&mut self, id: SymbolId) -> (r: Option<SymbolNode>)
        requires
            old(self).wf(),
        ensures
            final(self).wf(),
            r is Some == old(self).spec_contains(id),
            r is None ==> *final(self) == *old(self),
            r matches Some(node) ==> {
                &&& node == old(self).nodes()[old(self).spec_index_of(id)]
                &&& (final(self).nodes(), final(self).edges()) == state_without_id((old(self).nodes(), old(self).edges()), id)
                &&& final(self).file_index() == index_without_symbol(old(self).file_index(), node.file_path@, id)
            },
    {
        let i = match self.lookup(&id) {
            Some(i) => i,
            None => return None,
        };
        proof { self.lemma_index_of(id, i as int); }
        let removed = self.remove_node_at(i);
        forget_file_symbol(&mut self.file_to_symbols, removed.file_path.as_str(), id);
        Some(removed)
    }

    /// Removes every symbol recorded for `file_path`, together with their edges, and drops the
    /// file's entry. Returns the removed nodes in the order their identifiers were recorded.
    pub fn invalidate_file(&mut self, file_path: &str) -> (removed: Vec<SymbolNode>)
        requires
            old(self).wf(),
        ensures
            final(self).wf(),
            model(*final(self)) == invalidated(model(*old(self)), file_path@),
            !old(self).file_index().contains_key(file_path@) ==> removed@.len() == 0 && *final(self) == *old(self),
            old(self).file_index().contains_key(file_path@) ==> {
                let ids = old(self).file_index()[file_path@];
                let st = (old(self).nodes(), old(self).edges());
                &&& (final(self).nodes(), final(self).edges()) == state_without_ids(st, ids)
                &&& removed@ == removed_by_ids(st, ids)
                &&& final(self).file_index() == old(self).file_index().remove(file_path@)
            },
    {
        let f = match find_file_entry(&self.file_to_symbols, file_path) {
            Some(f) => f,
            None => return Vec::new(),
        };
        let ghost st0 = (self.nodes(), self.edges());
        let ghost idx0 = self.file_index();
        let ghost fs0 = self.file_to_symbols@;
        proof {
            lemma_entry_unique(self.file_to_symbols@, f as int);
        }
        let ids = self.file_to_symbols[f].symbols.clone();
        assert(ids@ =~= fs0[f as int].symbols@);
        let mut removed: Vec<SymbolNode> = Vec::with_capacity(ids.len());
        for k in 0..ids.len()
            invariant
                self.wf(),
                f < fs0.len(),
                ids@ == idx0[file_path@],
                ids@ == fs0[f as int].symbols@,
                idx0.contains_key(file_path@),
                self.file_to_symbols@ == fs0,
                (self.nodes(), self.edges()) == state_without_ids(st0, ids@.take(k as int)),
                removed@ == removed_by_ids(st0, ids@.take(k as int)),
        {
            let ghost before = (self.nodes(), self.edges());
            assert(ids@.take(k + 1).drop_last() =~= ids@.take(k as int));
            assert(ids@.take(k + 1).last() == ids@[k as int]);
            match self.lookup(&ids[k]) {
                Some(i) => {
                    proof { self.lemma_index_of(ids@[k as int], i as int); }
                    let node = self.remove_node_at(i);
                    removed.push(node);
                },
                None => {},
            }
        }
        assert(ids@.take(ids@.len() as int) =~= ids@);
        proof {
            crate::laws::lemma_graph_state_wf(*old(self));
            crate::laws::lemma_without_ids_effect(st0, ids@);
            lemma_remove_entry(fs0, f as int);
        }
        self.file_to_symbols.remove(f);
        proof {
            let ns = self.nodes();
            let nfs = self.file_to_symbols@;
            assert forall|i: int| 0 <= i < ns.len() implies recorded(nfs, #[trigger] ns[i].id) by {
                let y = ns[i].id;
                assert(recorded(fs0, y));
                let g = choose|g: int| 0 <= g < fs0.len() && #[trigger] fs0[g].symbols@.contains(y);
                if g == f {
                    let q = choose|q: int| 0 <= q < ids@.len() && ids@[q] == y;
                    assert(!nodes_contain(ns, ids@[q]));
                    assert(nodes_contain(ns, y));
                    assert(false);
                } else if g < f {
                    assert(nfs[g] == fs0[g]);
                } else {
                    assert(nfs[g - 1] == fs0[g]);
                }
            }
        }
        assert(ids@.take(ids@.len() as int) =~= ids@);
        removed
    }
}

} // verus!

verus! {

/// Direction in which edges are followed from a node.
#[derive(Clone, Copy, PartialEq, Eq, Structural, Debug)]
pub enum Direction {
    /// From a node to the nodes it depends on (its callees).
    Outgoing,
    /// From a node to the nodes that depend on it (its callers).
    Incoming,
}

/// The edges at node `a` in direction `dir`, as `(other endpoint, weight)`, most recent first.
pub open spec fn adjacency(es: Seq<(usize, usize, DependencyEdge)>, a: usize, dir: Direction) -> Seq<(usize, DependencyEdge)> {
    match dir {
        Direction::Outgoing => out_adjacency(es, a),
        Direction::Incoming => in_adjacency(es, a),
    }
}

/// Whether an edge passes the optional kind filter.
pub open spec fn kind_matches(e: DependencyEdge, filter: Option<EdgeKind>) -> bool {
    match filter {
        Some(k) => e.kind == k,
        None => true,
    }
}

/// The entries of `s` whose edge passes the kind filter, order kept.
pub open spec fn filter_kind(s: Seq<(usize, DependencyEdge)>, filter: Option<EdgeKind>) -> Seq<(usize, DependencyEdge)>
    decreases s.len(),
{
    if s.len() == 0 {
        Seq::empty()
    } else {
        let rest = filter_kind(s.drop_last(), filter);
        if kind_matches(s.last().1, filter) { rest.push(s.last()) } else { rest }
    }
}

/// Other endpoints listed by the adjacency of a node are nodes of the graph.
pub proof fn lemma_adjacency_bounds(es: Seq<(usize, usize, DependencyEdge)>, a: usize, dir: Direction, n: nat)
    requires
        forall|e: int| 0 <= e < es.len() ==> (#[trigger] es[e]).0 < n && es[e].1 < n,
    ensures
        forall|j: int| 0 <= j < adjacency(es, a, dir).len() ==> (#[trigger] adjacency(es, a, dir)[j]).0 < n,
    decreases es.len(),
{
    if es.len() > 0 {
        let init = es.drop_last();
        assert forall|e: int| 0 <= e < init.len() implies (#[trigger] init[e]).0 < n && init[e].1 < n by {
            assert(init[e] == es[e]);
        }
        lemma_adjacency_bounds(init, a, dir, n);
        let e = es[es.len() - 1];
        let r = adjacency(es, a, dir);
        let r0 = adjacency(init, a, dir);
        match dir {
            Direction::Outgoing => {
                if e.0 == a {
                    assert forall|j: int| 0 <= j < r.len() implies (#[trigger] r[j]).0 < n by {
                        if j > 0 { assert(r[j] == r0[j - 1]); }
                    }
                }
            },
            Direction::Incoming => {
                if e.1 == a {
                    assert forall|j: int| 0 <= j < r.len() implies (#[trigger] r[j]).0 < n by {
                        if j > 0 { assert(r[j] == r0[j - 1]); }
                    }
                }
            },
        }
    }
}

impl CodeGraph {
    /// Direct neighbours of the symbol in direction `direction`, optionally restricted to one
    /// edge kind, as `(neighbour node, edge)` with the most recently added edge first.
    /// An unknown symbol has none.
    pub fn get_neighbors_by_direction(&self, id: &SymbolId, direction: Direction, kind_filter: Option<EdgeKind>)
        -> (r: Vec<(&SymbolNode, &DependencyEdge)>)
        requires
            self.wf(),
        ensures
            !self.spec_contains(*id) ==> r@.len() == 0,
            self.spec_contains(*id) ==> {
                let expect = filter_kind(adjacency(self.edges(), self.spec_index_of(*id) as usize, direction), kind_filter);
                &&& r@.len() == expect.len()
                &&& forall|j: int| 0 <= j < r@.len() ==>
                    *(#[trigger] r@[j]).0 == self.nodes()[expect[j].0 as int] && *r@[j].1 == expect[j].1
            },
    {
        let mut out: Vec<(&SymbolNode, &DependencyEdge)> = Vec::new();
        let node_idx = match self.lookup(id) {
            Some(i) => i,
            None => return out,
        };
        proof {
            self.lemma_index_of(*id, node_idx as int);
            lemma_adjacency_bounds(self.edges(), node_idx, direction, self.nodes().len());
        }
        let ghost adj = adjacency(self.edges(), node_idx, direction);
        let edges = match direction {
            Direction::Outgoing => graph_out_edges(&self.graph, node_idx),
            Direction::Incoming => graph_in_edges(&self.graph, node_idx),
        };
        for j in 0..edges.len()
            invariant
                self.wf(),
                edges@.len() == adj.len(),
                forall|m: int| 0 <= m < edges@.len() ==> (#[trigger] edges@[m]).0 == adj[m].0 && *edges@[m].1 == adj[m].1,
                forall|m: int| 0 <= m < adj.len() ==> (#[trigger] adj[m]).0 < self.nodes().len(),
                out@.len() == filter_kind(adj.take(j as int), kind_filter).len(),
                forall|m: int| 0 <= m < out@.len() ==>
                    *(#[trigger] out@[m]).0 == self.nodes()[filter_kind(adj.take(j as int), kind_filter)[m].0 as int]
                    && *out@[m].1 == filter_kind(adj.take(j as int), kind_filter)[m].1,
        {
            assert(adj.take(j + 1).drop_last() =~= adj.take(j as int));
            assert(adj.take(j + 1).last() == adj[j as int]);
            let (other, edge) = edges[j];
            let keep = match kind_filter {
                Some(k) => edge.kind == k,
                None => true,
            };
            if keep {
                assert(edges@[j as int].0 == adj[j as int].0);
                let node = graph_node(&self.graph, other);
                out.push((node, edge));
            }
        }
        assert(adj.take(edges@.len() as int) =~= adj);
        out
    }

    /// Direct callers: the sources of `Calls` edges entering the symbol.
    pub fn get_callers(&self, id: &SymbolId) -> (r: Vec<(&SymbolNode, &DependencyEdge)>)
        requires
            self.wf(),
        ensures
            !self.spec_contains(*id) ==> r@.len() == 0,
            self.spec_contains(*id) ==> {
                let expect = filter_kind(adjacency(self.edges(), self.spec_index_of(*id) as usize, Direction::Incoming), Some(EdgeKind::Calls));
                &&& r@.len() == expect.len()
                &&& forall|j: int| 0 <= j < r@.len() ==>
                    *(#[trigger] r@[j]).0 == self.nodes()[expect[j].0 as int] && *r@[j].1 == expect[j].1
            },
    {
        self.get_neighbors_by_direction(id, Direction::Incoming, Some(EdgeKind::Calls))
    }

    /// Direct callees: the targets of `Calls` edges leaving the symbol.
    pub fn get_callees(&self, id: &SymbolId) -> (r: Vec<(&SymbolNode, &DependencyEdge)>)
        requires
            self.wf(),
        ensures
            !self.spec_contains(*id) ==> r@.len() == 0,
            self.spec_contains(*id) ==> {
                let expect = filter_kind(adjacency(self.edges(), self.spec_index_of(*id) as usize, Direction::Outgoing), Some(EdgeKind::Calls));
                &&& r@.len() == expect.len()
                &&& forall|j: int| 0 <= j < r@.len() ==>
                    *(#[trigger] r@[j]).0 == self.nodes()[expect[j].0 as int] && *r@[j].1 == expect[j].1
            },
    {
        self.get_neighbors_by_direction(id, Direction::Outgoing, Some(EdgeKind::Calls))
    }
}

} // verus!

verus! {

/// Filtering by kind keeps at most every entry.
pub proof fn lemma_filter_kind_len(s: Seq<(usize, DependencyEdge)>, filter: Option<EdgeKind>)
    ensures
        filter_kind(s, filter).len() <= s.len(),
    decreases s.len(),
{
    if s.len() > 0 {
        lemma_filter_kind_len(s.drop_last(), filter);
    }
}

/// A node's adjacency lists at most every edge.
pub proof fn lemma_adjacency_len(es: Seq<(usize, usize, DependencyEdge)>, a: usize, dir: Direction)
    ensures
        adjacency(es, a, dir).len() <= es.len(),
    decreases es.len(),
{
    if es.len() > 0 {
        lemma_adjacency_len(es.drop_last(), a, dir);
    }
}

} // verus!
