//! Impact analysis: which symbols are affected when a symbol changes.
use vstd::prelude::*;
use crate::edge::{DependencyEdge, EdgeKind};
use crate::graph::{adjacency, filter_kind, CodeGraph, Direction};
use crate::id::SymbolId;
use crate::symbol::SymbolNode;
use crate::text::{decimal, format_count, chars_of, contains, ends_with, lowercased, seq_contains, seq_ends_with, seq_starts_with, starts_with, to_lowercase};

verus! {

/// Test-suite markers of an already lowercased symbol name and file path.
pub open spec fn spec_test_markers(name: Seq<char>, path: Seq<char>) -> bool {
    ||| seq_starts_with(name, "test_"@)
    ||| seq_ends_with(name, "_test"@)
    ||| seq_starts_with(name, "test"@)
    ||| seq_contains(path, "test"@)
    ||| seq_contains(path, "tests"@)
    ||| seq_contains(path, "__tests__"@)
}

/// A symbol belongs to a test suite when its lowercased name or path carries a test marker.
pub open spec fn spec_is_test_symbol(symbol: SymbolNode) -> bool {
    spec_test_markers(lowercased(symbol.name@), lowercased(symbol.file_path@))
}

/// Whether a lowercased name and a lowercased path carry a test marker: the name starts with
/// `test_` or `test`, or ends with `_test`; or the path contains `test`, `tests` or `__tests__`.
pub fn test_markers(name_lower: &str, path_lower: &str) -> (b: bool)
    ensures
        b == spec_test_markers(name_lower@, path_lower@),
{
    let name = chars_of(name_lower);
    let path = chars_of(path_lower);
    starts_with(&name, &chars_of("test_"))
        || ends_with(&name, &chars_of("_test"))
        || starts_with(&name, &chars_of("test"))
        || contains(&path, &chars_of("test"))
        || contains(&path, &chars_of("tests"))
        || contains(&path, &chars_of("__tests__"))
}

/// Detects whether a symbol belongs to a test suite, from its lowercased name and file path.
pub fn is_test_symbol(symbol: &SymbolNode) -> (b: bool)
    ensures
        b == spec_is_test_symbol(*symbol),
{
    let name_lower = to_lowercase(symbol.name.as_str());
    let path_lower = to_lowercase(symbol.file_path.as_str());
    test_markers(name_lower.as_str(), path_lower.as_str())
}

} // verus!

verus! {

/// Risk category of modifying a symbol.
#[derive(Clone, Copy, PartialEq, Eq, Structural, Hash, Debug)]
pub enum RiskLevel {
    /// Safe, localized change.
    Low,
    /// Moderate impact, few internal callers.
    Medium,
    /// Significant impact across modules or on public APIs.
    High,
    /// Extreme impact: public APIs with a wide surface.
    Critical,
}

/// A direct caller of the analysed symbol.
#[derive(Debug, PartialEq, Eq, Clone)]
pub struct DirectCallerDetail {
    /// Identifier of the caller.
    pub id: SymbolId,
    /// Name of the caller.
    pub name: String,
    /// File that defines the caller.
    pub file_path: String,
    /// Line of the call site.
    pub call_site_line: u32,
    /// Whether the caller is exported.
    pub is_exported: bool,
}

/// A caller two or more steps upstream of the analysed symbol.
#[derive(Debug, PartialEq, Eq, Clone)]
pub struct TransitiveCallerDetail {
    /// Identifier of the caller.
    pub id: SymbolId,
    /// Name of the caller.
    pub name: String,
    /// File that defines the caller.
    pub file_path: String,
    /// Distance in calls from the analysed symbol.
    pub depth: usize,
    /// Whether the caller is exported.
    pub is_exported: bool,
}

/// A test that reaches the analysed symbol through calls.
#[derive(Debug, PartialEq, Eq, Clone)]
pub struct AssociatedTestDetail {
    /// Identifier of the test.
    pub id: SymbolId,
    /// Name of the test.
    pub name: String,
    /// File that defines the test.
    pub file_path: String,
    /// First line of the test's declaration.
    pub call_site_line: u32,
}

/// Everything the impact of changing a symbol is made of, apart from the numeric risk score.
#[derive(Debug, PartialEq, Eq, Clone)]
pub struct ImpactSummary {
    /// The analysed symbol.
    pub target_symbol: SymbolNode,
    /// Its direct callers, one per incoming call edge.
    pub direct_callers: Vec<DirectCallerDetail>,
    /// Upstream callers at depth two or more that are not tests.
    pub transitive_callers: Vec<TransitiveCallerDetail>,
    /// Upstream callers, at any depth, that are tests.
    pub associated_tests: Vec<AssociatedTestDetail>,
    /// Number of distinct affected upstream symbols: distinct direct callers plus transitive
    /// callers.
    pub total_affected_symbols: usize,
    /// Whether the symbol or any upstream caller is exported.
    pub public_api_impacted: bool,
    /// `(depth, is_exported)` of every upstream caller, in traversal order: the terms of the
    /// risk score.
    pub caller_weights: Vec<(usize, bool)>,
}

/// The direct-caller record of a caller and the call edge.
pub open spec fn direct_detail(node: SymbolNode, edge: DependencyEdge) -> DirectCallerDetail {
    DirectCallerDetail {
        id: node.id,
        name: node.name,
        file_path: node.file_path,
        call_site_line: edge.call_site_line,
        is_exported: node.is_exported,
    }
}

/// The test records of a traversal, in order.
pub open spec fn tests_of(t: Seq<(SymbolNode, usize)>) -> Seq<AssociatedTestDetail>
    decreases t.len(),
{
    if t.len() == 0 {
        Seq::empty()
    } else {
        let rest = tests_of(t.drop_last());
        let n = t.last().0;
        if spec_is_test_symbol(n) {
            rest.push(AssociatedTestDetail { id: n.id, name: n.name, file_path: n.file_path, call_site_line: n.line_range.0 })
        } else {
            rest
        }
    }
}

/// The non-test callers of a traversal at depth two or more, in order.
pub open spec fn transitive_of(t: Seq<(SymbolNode, usize)>) -> Seq<TransitiveCallerDetail>
    decreases t.len(),
{
    if t.len() == 0 {
        Seq::empty()
    } else {
        let rest = transitive_of(t.drop_last());
        let (n, d) = t.last();
        if !spec_is_test_symbol(n) && d > 1 {
            rest.push(TransitiveCallerDetail { id: n.id, name: n.name, file_path: n.file_path, depth: d, is_exported: n.is_exported })
        } else {
            rest
        }
    }
}

/// The `(depth, is_exported)` terms of a traversal, in order.
pub open spec fn weights_of(t: Seq<(SymbolNode, usize)>) -> Seq<(usize, bool)> {
    t.map_values(|e: (SymbolNode, usize)| (e.1, e.0.is_exported))
}

/// Whether some node of a traversal is exported.
pub open spec fn any_exported(t: Seq<(SymbolNode, usize)>) -> bool {
    exists|j: int| 0 <= j < t.len() && (#[trigger] t[j]).0.is_exported
}

/// Whether some entry of `d` names the caller `id`.
pub open spec fn has_caller(d: Seq<DirectCallerDetail>, id: SymbolId) -> bool {
    exists|j: int| 0 <= j < d.len() && (#[trigger] d[j]).id == id
}

/// The number of distinct callers among the direct-caller entries.
pub open spec fn distinct_callers(d: Seq<DirectCallerDetail>) -> nat
    decreases d.len(),
{
    if d.len() == 0 {
        0
    } else if has_caller(d.drop_last(), d.last().id) {
        distinct_callers(d.drop_last())
    } else {
        distinct_callers(d.drop_last()) + 1
    }
}

proof fn lemma_distinct_callers_len(d: Seq<DirectCallerDetail>)
    ensures
        distinct_callers(d) <= d.len(),
    decreases d.len(),
{
    if d.len() > 0 {
        lemma_distinct_callers_len(d.drop_last());
    }
}

/// The number of distinct callers among the direct-caller entries.
fn count_distinct_callers(d: &Vec<DirectCallerDetail>) -> (n: usize)
    ensures
        n == distinct_callers(d@),
{
    let mut n: usize = 0;
    for i in 0..d.len()
        invariant
            n == distinct_callers(d@.take(i as int)),
            n <= i,
    {
        let mut seen = false;
        for j in 0..i
            invariant
                i < d@.len(),
                seen == has_caller(d@.take(j as int), d@[i as int].id),
        {
            if d[j].id == d[i].id {
                seen = true;
            }
            proof {
                let t0 = d@.take(j as int);
                let t1 = d@.take(j + 1);
                let x = d@[i as int].id;
                assert(t1[j as int] == d@[j as int]);
                if has_caller(t1, x) && !has_caller(t0, x) {
                    let k = choose|k: int| 0 <= k < t1.len() && (#[trigger] t1[k]).id == x;
                    if k < j {
                        assert(t0[k] == t1[k]);
                    }
                }
                if has_caller(t0, x) {
                    let k = choose|k: int| 0 <= k < t0.len() && (#[trigger] t0[k]).id == x;
                    assert(t1[k] == t0[k]);
                }
            }
        }
        proof {
            assert(d@.take(i + 1).drop_last() =~= d@.take(i as int));
            assert(d@.take(i + 1).last() == d@[i as int]);
        }
        if !seen {
            n = n + 1;
        }
    }
    assert(d@.take(d@.len() as int) =~= d@);
    n
}

/// The impact summary of `target`, given its direct callers (with their call edges) and an
/// upstream traversal.
pub open spec fn summary_of(
    target: SymbolNode,
    direct: Seq<DirectCallerDetail>,
    t: Seq<(SymbolNode, usize)>,
) -> (Seq<DirectCallerDetail>, Seq<TransitiveCallerDetail>, Seq<AssociatedTestDetail>, int, bool, Seq<(usize, bool)>) {
    (
        direct,
        transitive_of(t),
        tests_of(t),
        (distinct_callers(direct) + transitive_of(t).len()) as int,
        target.is_exported || any_exported(t),
        weights_of(t),
    )
}

/// The summary's fields as a tuple, in the order of `summary_of`.
pub open spec fn summary_fields(s: ImpactSummary) -> (Seq<DirectCallerDetail>, Seq<TransitiveCallerDetail>, Seq<AssociatedTestDetail>, int, bool, Seq<(usize, bool)>) {
    (
        s.direct_callers@,
        s.transitive_callers@,
        s.associated_tests@,
        s.total_affected_symbols as int,
        s.public_api_impacted,
        s.caller_weights@,
    )
}

proof fn lemma_traversal_parts_len(t: Seq<(SymbolNode, usize)>)
    ensures
        transitive_of(t).len() <= t.len(),
        tests_of(t).len() <= t.len(),
    decreases t.len(),
{
    if t.len() > 0 {
        lemma_traversal_parts_len(t.drop_last());
    }
}

/// Builds the impact summary of `target` from its direct callers and an upstream traversal:
/// tests at any depth become associated tests, other callers at depth two or more become
/// transitive callers, and every traversed caller contributes a risk term.
pub fn summarize_impact(
    target: SymbolNode,
    direct: &Vec<(&SymbolNode, &DependencyEdge)>,
    transitive: Vec<(SymbolNode, usize)>,
) -> (s: ImpactSummary)
    requires
        direct@.len() + transitive@.len() <= usize::MAX,
    ensures
        s.target_symbol == target,
        summary_fields(s) == summary_of(
            target,
            direct@.map_values(|e: (&SymbolNode, &DependencyEdge)| direct_detail(*e.0, *e.1)),
            transitive@,
        ),
{
    let ghost dmap = direct@.map_values(|e: (&SymbolNode, &DependencyEdge)| direct_detail(*e.0, *e.1));
    let mut direct_callers: Vec<DirectCallerDetail> = Vec::new();
    for i in 0..direct.len()
        invariant
            direct_callers@ == dmap.take(i as int),
            dmap.len() == direct@.len(),
            forall|j: int| 0 <= j < direct@.len() ==> dmap[j] == direct_detail(*direct@[j].0, *direct@[j].1),
    {
        let (node, edge) = direct[i];
        direct_callers.push(DirectCallerDetail {
            id: node.id,
            name: node.name.clone(),
            file_path: node.file_path.clone(),
            call_site_line: edge.call_site_line,
            is_exported: node.is_exported,
        });
        assert(dmap.take(i + 1) =~= dmap.take(i as int).push(dmap[i as int]));
    }
    assert(dmap.take(direct@.len() as int) =~= dmap);
    let ghost t = transitive@;
    let mut transitive_callers: Vec<TransitiveCallerDetail> = Vec::new();
    let mut associated_tests: Vec<AssociatedTestDetail> = Vec::new();
    let mut caller_weights: Vec<(usize, bool)> = Vec::new();
    let mut public_api_impacted = target.is_exported;
    let n = transitive.len();
    for k in 0..n
        invariant
            n == t.len(),
            t == transitive@,
            transitive_callers@ == transitive_of(t.take(k as int)),
            associated_tests@ == tests_of(t.take(k as int)),
            caller_weights@ == weights_of(t.take(k as int)),
            public_api_impacted == (target.is_exported || any_exported(t.take(k as int))),
    {
        let (node, depth) = &transitive[k];
        let ghost tk = t.take(k + 1);
        proof {
            assert(tk.drop_last() =~= t.take(k as int));
            assert(tk.last() == t[k as int]);
        }
        if is_test_symbol(node) {
            associated_tests.push(AssociatedTestDetail {
                id: node.id,
                name: node.name.clone(),
                file_path: node.file_path.clone(),
                call_site_line: node.line_range.0,
            });
        } else if *depth > 1 {
            transitive_callers.push(TransitiveCallerDetail {
                id: node.id,
                name: node.name.clone(),
                file_path: node.file_path.clone(),
                depth: *depth,
                is_exported: node.is_exported,
            });
        }
        if node.is_exported {
            public_api_impacted = true;
        }
        caller_weights.push((*depth, node.is_exported));
        proof {
            assert(weights_of(tk) =~= weights_of(t.take(k as int)).push((t[k as int].1, t[k as int].0.is_exported)));
            if any_exported(tk) && !any_exported(t.take(k as int)) {
                let j = choose|j: int| 0 <= j < tk.len() && (#[trigger] tk[j]).0.is_exported;
                if j < k {
                    assert(t.take(k as int)[j] == tk[j]);
                }
            }
            if any_exported(t.take(k as int)) {
                let j = choose|j: int| 0 <= j < t.take(k as int).len() && (#[trigger] t.take(k as int)[j]).0.is_exported;
                assert(tk[j] == t.take(k as int)[j]);
            }
            if node.is_exported {
                assert(tk[k as int].0.is_exported);
            }
        }
    }
    proof {
        assert(t.take(n as int) =~= t);
        lemma_traversal_parts_len(t);
    }
    proof {
        lemma_distinct_callers_len(direct_callers@);
    }
    let total_affected_symbols = count_distinct_callers(&direct_callers) + transitive_callers.len();
    ImpactSummary {
        target_symbol: target,
        direct_callers,
        transitive_callers,
        associated_tests,
        total_affected_symbols,
        public_api_impacted,
        caller_weights,
    }
}

} // verus!

verus! {

/// Impact analysis over a graph.
pub struct BlastRadiusCalculator<'a> {
    graph: &'a CodeGraph,
}

impl<'a> BlastRadiusCalculator<'a> {
    /// The graph under analysis.
    pub closed spec fn view_graph(&self) -> CodeGraph {
        *self.graph
    }

    /// Creates a calculator over `graph`.
    pub fn new(graph: &'a CodeGraph) -> (c: Self)
        ensures
            c.view_graph() == *graph,
    {
        BlastRadiusCalculator { graph }
    }

    /// The impact of changing `target_id`: its direct callers (incoming `Calls` edges) and
    /// the upstream callers found, in breadth-first order, by a `Calls`-only traversal up to
    /// `max_depth`, split into tests and deeper non-test callers. `None` when the symbol is
    /// not in the graph.
    pub fn calculate_impact(&self, target_id: &SymbolId, max_depth: usize) -> (r: Option<ImpactSummary>)
        requires
            self.view_graph().wf(),
            self.view_graph().nodes().len() + self.view_graph().edges().len() <= usize::MAX,
        ensures
            r is Some <==> self.view_graph().spec_contains(*target_id),
            r matches Some(s) ==> {
                let g = self.view_graph();
                let ri = g.spec_index_of(*target_id);
                let callers = filter_kind(adjacency(g.edges(), ri as usize, Direction::Incoming), Some(EdgeKind::Calls));
                let direct = callers.map_values(|e: (usize, DependencyEdge)| direct_detail(g.nodes()[e.0 as int], e.1));
                let t = g.traversal_order(ri, Direction::Incoming, Some(EdgeKind::Calls), max_depth);
                &&& s.target_symbol == g.nodes()[ri]
                &&& g.is_traversal(t, ri, Direction::Incoming, Some(EdgeKind::Calls), max_depth as nat)
                &&& summary_of(s.target_symbol, direct, t) == summary_fields(s)
            },
    {
        let graph = self.graph;
        let target = match graph.get_symbol(target_id) {
            Some(n) => n.clone(),
            None => return None,
        };
        let direct = graph.get_callers(target_id);
        let transitive = graph.find_transitive_callers(target_id, max_depth);
        let ghost g = *graph;
        let ghost ri = g.spec_index_of(*target_id);
        let ghost callers = filter_kind(adjacency(g.edges(), ri as usize, Direction::Incoming), Some(EdgeKind::Calls));
        let ghost t = transitive@;
        proof {
            crate::graph::lemma_adjacency_len(g.edges(), ri as usize, Direction::Incoming);
            crate::graph::lemma_filter_kind_len(adjacency(g.edges(), ri as usize, Direction::Incoming), Some(EdgeKind::Calls));
        }
        let s = summarize_impact(target, &direct, transitive);
        proof {
            let direct_map = direct@.map_values(|e: (&SymbolNode, &DependencyEdge)| direct_detail(*e.0, *e.1));
            let want = callers.map_values(|e: (usize, DependencyEdge)| direct_detail(g.nodes()[e.0 as int], e.1));
            assert(direct_map =~= want);
            assert(summary_of(s.target_symbol, want, t) == summary_fields(s));
        }
        Some(s)
    }
}

} // verus!

verus! {

/// The risk level for an impact: whether a public API is impacted, how many of the score
/// thresholds 3, 8, 15 and 20 the risk score reaches, and how many symbols are affected.
pub open spec fn spec_risk_level(public_api_impacted: bool, score_band: nat, total_affected: nat) -> RiskLevel {
    if public_api_impacted {
        if score_band >= 4 || total_affected >= 5 {
            RiskLevel::Critical
        } else if score_band >= 2 || total_affected >= 2 {
            RiskLevel::High
        } else {
            RiskLevel::Medium
        }
    } else if score_band >= 3 || total_affected >= 6 {
        RiskLevel::High
    } else if score_band >= 1 || total_affected >= 1 {
        RiskLevel::Medium
    } else {
        RiskLevel::Low
    }
}

/// The explanation given for a risk level.
pub open spec fn spec_risk_rationale(public_api_impacted: bool, level: RiskLevel, total_affected: nat) -> Seq<char> {
    let n = decimal(total_affected);
    match level {
        RiskLevel::Critical => "CRITICAL: Modifying exported interface impacting "@ + n
            + " total symbols across public boundary"@,
        RiskLevel::High => if public_api_impacted {
            "HIGH: Significant impact on public API surface ("@ + n + " callers)"@
        } else {
            "HIGH: Wide internal blast radius across modules ("@ + n + " affected symbols)"@
        },
        RiskLevel::Medium => if public_api_impacted {
            "MEDIUM: Public API symbol with localized callers ("@ + n + " callers)"@
        } else {
            "MEDIUM: Moderate internal impact ("@ + n + " callers in repository)"@
        },
        RiskLevel::Low => "LOW: Localized internal symbol with 0 upstream callers"@,
    }
}

/// Classifies the risk of an impact and explains it. `score_band` counts the thresholds
/// 3, 8, 15 and 20 that the numeric risk score reaches.
pub fn assess_risk(public_api_impacted: bool, score_band: u8, total_affected: usize) -> (r: (RiskLevel, String))
    ensures
        r.0 == spec_risk_level(public_api_impacted, score_band as nat, total_affected as nat),
        r.1@ == spec_risk_rationale(public_api_impacted, r.0, total_affected as nat),
{
    if public_api_impacted {
        if score_band >= 4 || total_affected >= 5 {
            (RiskLevel::Critical, format_count(
                "CRITICAL: Modifying exported interface impacting ",
                total_affected,
                " total symbols across public boundary",
            ))
        } else if score_band >= 2 || total_affected >= 2 {
            (RiskLevel::High, format_count("HIGH: Significant impact on public API surface (", total_affected, " callers)"))
        } else {
            (RiskLevel::Medium, format_count("MEDIUM: Public API symbol with localized callers (", total_affected, " callers)"))
        }
    } else if score_band >= 3 || total_affected >= 6 {
        (RiskLevel::High, format_count(
            "HIGH: Wide internal blast radius across modules (",
            total_affected,
            " affected symbols)",
        ))
    } else if score_band >= 1 || total_affected >= 1 {
        (RiskLevel::Medium, format_count("MEDIUM: Moderate internal impact (", total_affected, " callers in repository)"))
    } else {
        let text = "LOW: Localized internal symbol with 0 upstream callers";
        (RiskLevel::Low, text.to_owned())
    }
}

} // verus!
