use loom_topo::dead_code::DeadCodeDetector;
use loom_topo::edge::{DependencyEdge, EdgeKind};
use loom_topo::graph::CodeGraph;
use loom_topo::id::SymbolId;
use loom_topo::parser::AstEngine;
use loom_topo::pipeline::index_source;
use loom_topo::symbol::{SymbolKind, SymbolNode};

fn node(file: &str, name: &str) -> SymbolNode {
    let id = SymbolId::derive(file, &[], name, &format!("fn {name}()"));
    SymbolNode::new(id, name, SymbolKind::Function, file, (0, 10), (1, 2), None, &format!("fn {name}()"), false, 1)
}

fn edges_of(graph: &CodeGraph, id: &SymbolId) -> Vec<(SymbolId, u32)> {
    let mut v: Vec<(SymbolId, u32)> = graph.get_callees(id).iter().map(|(n, e)| (n.id, e.call_site_line)).collect();
    v.sort();
    v
}

#[test]
fn upsert_twice_equals_upsert_once() {
    let mut once = CodeGraph::new();
    let mut twice = CodeGraph::new();
    let a = node("src/a.rs", "a");
    once.upsert_symbol(a.clone());
    twice.upsert_symbol(a.clone());
    twice.upsert_symbol(a.clone());
    assert_eq!(once.node_count(), twice.node_count());
    assert_eq!(once.file_count(), twice.file_count());
    assert_eq!(twice.get_symbol(&a.id), Some(&a));
}

#[test]
fn removing_a_symbol_keeps_the_rest() {
    let mut graph = CodeGraph::new();
    let (a, b, c) = (node("src/a.rs", "a"), node("src/b.rs", "b"), node("src/c.rs", "c"));
    let (ia, ib, ic) = (a.id, b.id, c.id);
    graph.upsert_symbol(a);
    graph.upsert_symbol(b.clone());
    graph.upsert_symbol(c.clone());
    graph.add_edge(ia, ib, DependencyEdge::new(EdgeKind::Calls, 1, false)).expect("a->b");
    graph.add_edge(ib, ic, DependencyEdge::new(EdgeKind::Calls, 2, false)).expect("b->c");
    graph.add_edge(ic, ia, DependencyEdge::new(EdgeKind::Calls, 3, false)).expect("c->a");

    graph.remove_symbol(ia).expect("removed");
    assert!(!graph.contains_symbol(&ia));
    assert_eq!(graph.get_symbol(&ib), Some(&b));
    assert_eq!(graph.get_symbol(&ic), Some(&c));
    assert_eq!(edges_of(&graph, &ib), vec![(ic, 2)]);
    assert!(edges_of(&graph, &ic).is_empty());
    assert_eq!(graph.edge_count(), 1);
}

#[test]
fn invalidating_a_file_keeps_other_files() {
    let mut graph = CodeGraph::new();
    let (a, b, c) = (node("src/one.rs", "a"), node("src/one.rs", "b"), node("src/two.rs", "c"));
    let (ia, ib, ic) = (a.id, b.id, c.id);
    graph.upsert_symbol(a);
    graph.upsert_symbol(b);
    graph.upsert_symbol(c.clone());
    let d = node("src/two.rs", "d");
    let id_d = d.id;
    graph.upsert_symbol(d);
    graph.add_edge(ic, id_d, DependencyEdge::new(EdgeKind::Calls, 4, false)).expect("c->d");
    graph.add_edge(ia, ic, DependencyEdge::new(EdgeKind::Calls, 5, false)).expect("a->c");

    let removed = graph.invalidate_file("src/one.rs");
    assert_eq!(removed.len(), 2);
    assert!(!graph.contains_symbol(&ia) && !graph.contains_symbol(&ib));
    assert_eq!(graph.get_symbol(&ic), Some(&c));
    assert_eq!(edges_of(&graph, &ic), vec![(id_d, 4)]);
    assert_eq!(graph.get_callers(&ic).len(), 0);
    assert!(graph.invalidate_file("src/one.rs").is_empty());
}

#[test]
fn reindexing_one_file_keeps_other_files() {
    let mut engine = AstEngine::new();
    let mut graph = CodeGraph::new();
    index_source(&mut engine, &mut graph, "keep.rs", "pub fn keep_a() { keep_b(); }\npub fn keep_b() {}\n").expect("keep");
    index_source(&mut engine, &mut graph, "edit.rs", "pub fn old_fn() {}\n").expect("edit");
    let keep_a = graph.get_symbols_by_name("keep_a")[0].clone();
    let keep_b = graph.get_symbols_by_name("keep_b")[0].id;

    index_source(&mut engine, &mut graph, "edit.rs", "pub fn new_fn() {}\n").expect("re-edit");
    assert!(graph.get_symbols_by_name("old_fn").is_empty());
    assert_eq!(graph.get_symbols_by_name("new_fn").len(), 1);
    assert_eq!(graph.get_symbol(&keep_a.id), Some(&keep_a));
    assert_eq!(edges_of(&graph, &keep_a.id).iter().map(|e| e.0).collect::<Vec<_>>(), vec![keep_b]);
}

#[test]
fn caller_and_callee_traversals_mirror_each_other() {
    let mut graph = CodeGraph::new();
    let names = ["n0", "n1", "n2", "n3", "n4"];
    let ids: Vec<SymbolId> = names.iter().map(|n| {
        let s = node("src/g.rs", n);
        let id = s.id;
        graph.upsert_symbol(s);
        id
    }).collect();
    for (s, t) in [(0, 1), (1, 2), (0, 3), (3, 2), (2, 4)] {
        graph.add_edge(ids[s], ids[t], DependencyEdge::new(EdgeKind::Calls, 1, false)).expect("edge");
    }
    for &v in &ids {
        for (u, d) in graph.find_transitive_callees(&v, 10) {
            let back = graph.find_transitive_callers(&u.id, 10);
            assert!(back.iter().any(|(w, dd)| w.id == v && *dd == d));
        }
    }
}

#[test]
fn newest_call_edge_is_listed_first_among_callers() {
    let mut graph = CodeGraph::new();
    let (a, b, t) = (node("src/a.rs", "a"), node("src/b.rs", "b"), node("src/t.rs", "t"));
    let (ia, ib, it) = (a.id, b.id, t.id);
    graph.upsert_symbol(a);
    graph.upsert_symbol(b);
    graph.upsert_symbol(t);
    graph.add_edge(ia, it, DependencyEdge::new(EdgeKind::Calls, 1, false)).expect("a->t");
    graph.add_edge(ib, it, DependencyEdge::new(EdgeKind::Calls, 2, false)).expect("b->t");
    let callers = graph.get_callers(&it);
    assert_eq!(callers[0].0.id, ib);
    assert_eq!(callers[1].0.id, ia);
}

#[test]
fn transitive_callers_and_callees_are_dual() {
    let mut graph = CodeGraph::new();
    let (a, b, c) = (node("src/a.rs", "a"), node("src/b.rs", "b"), node("src/c.rs", "c"));
    let (ia, ib, ic) = (a.id, b.id, c.id);
    graph.upsert_symbol(a.clone());
    graph.upsert_symbol(b.clone());
    graph.upsert_symbol(c.clone());
    graph.add_edge(ia, ib, DependencyEdge::new(EdgeKind::Calls, 1, false)).expect("a->b");
    graph.add_edge(ib, ic, DependencyEdge::new(EdgeKind::Calls, 2, false)).expect("b->c");
    graph.add_edge(ia, ic, DependencyEdge::new(EdgeKind::Imports, 3, false)).expect("a->c");

    let callers = graph.find_transitive_callers(&ic, 3);
    let callees = graph.find_transitive_callees(&ia, 3);
    assert!(callers.contains(&(a.clone(), 2)));
    assert!(callees.contains(&(c.clone(), 2)));
    assert!(!callers.contains(&(a.clone(), 1)));
    assert!(!callees.contains(&(c.clone(), 1)));
    assert!(graph.find_transitive_callers(&ic, 1).iter().all(|(n, _)| n.id != ia));
    assert!(graph.find_transitive_callees(&ia, 1).iter().all(|(n, _)| n.id != ic));
}

#[test]
fn adding_an_edge_only_shrinks_the_dead_report() {
    let mut graph = CodeGraph::new();
    let main_id = SymbolId::derive("src/main.rs", &[], "main", "fn main()");
    let main = SymbolNode::new(main_id, "main", SymbolKind::Function, "src/main.rs", (0, 10), (1, 2), None, "fn main()", false, 1);
    let (f, g) = (node("src/f.rs", "feature"), node("src/g.rs", "helper"));
    let (i_f, i_g) = (f.id, g.id);
    graph.upsert_symbol(main);
    graph.upsert_symbol(f);
    graph.upsert_symbol(g);
    graph.add_edge(i_f, i_g, DependencyEdge::new(EdgeKind::Calls, 1, false)).expect("f->g");
    let before: Vec<SymbolId> = DeadCodeDetector::new(&graph).find_dead_symbols().dead_symbols.iter().map(|d| d.symbol.id).collect();
    assert_eq!(before.len(), 2);
    graph.add_edge(main_id, i_f, DependencyEdge::new(EdgeKind::Calls, 2, false)).expect("main->f");
    let after = DeadCodeDetector::new(&graph).find_dead_symbols();
    assert!(after.dead_symbols.iter().all(|d| before.contains(&d.symbol.id)));
    assert_eq!(after.total_dead_count, 0);
}

#[test]
fn raising_the_depth_bound_keeps_the_shallower_entries() {
    let mut graph = CodeGraph::new();
    let (a, b, c, d) = (node("src/a.rs", "a"), node("src/b.rs", "b"), node("src/c.rs", "c"), node("src/d.rs", "d"));
    let (ia, ib, ic, id) = (a.id, b.id, c.id, d.id);
    for n in [a, b, c, d] {
        graph.upsert_symbol(n);
    }
    graph.add_edge(ia, ib, DependencyEdge::new(EdgeKind::Calls, 1, false)).expect("a->b");
    graph.add_edge(ib, ic, DependencyEdge::new(EdgeKind::Calls, 2, false)).expect("b->c");
    graph.add_edge(ia, id, DependencyEdge::new(EdgeKind::Calls, 3, false)).expect("a->d");
    let shallow = graph.find_transitive_callees(&ia, 1);
    let deep = graph.find_transitive_callees(&ia, 2);
    let kept: Vec<(SymbolNode, usize)> = deep.iter().filter(|(_, depth)| *depth <= 1).cloned().collect();
    assert_eq!(shallow.len(), 2);
    assert_eq!(deep.len(), 3);
    assert_eq!(shallow, kept);
    assert!(deep.iter().any(|(n, depth)| n.id == ic && *depth == 2));
}

#[test]
fn each_unreachable_symbol_is_reported_once() {
    let mut graph = CodeGraph::new();
    let main_id = SymbolId::derive("src/main.rs", &[], "main", "fn main()");
    let main = SymbolNode::new(main_id, "main", SymbolKind::Function, "src/main.rs", (0, 10), (1, 2), None, "fn main()", false, 1);
    let (a, b, c) = (node("src/a.rs", "a"), node("src/b.rs", "b"), node("src/c.rs", "c"));
    let (ia, ib, ic) = (a.id, b.id, c.id);
    for n in [main, a, b, c] {
        graph.upsert_symbol(n);
    }
    graph.add_edge(main_id, ia, DependencyEdge::new(EdgeKind::Calls, 1, false)).expect("main->a");
    graph.add_edge(ib, ic, DependencyEdge::new(EdgeKind::Calls, 2, false)).expect("b->c");
    graph.add_edge(ic, ib, DependencyEdge::new(EdgeKind::Calls, 3, false)).expect("c->b");
    let report = DeadCodeDetector::new(&graph).find_dead_symbols();
    let mut ids: Vec<SymbolId> = report.dead_symbols.iter().map(|d| d.symbol.id).collect();
    assert_eq!(report.total_dead_count, 2);
    ids.sort();
    ids.dedup();
    assert_eq!(ids.len(), 2);
    assert!(ids.contains(&ib) && ids.contains(&ic));
}
