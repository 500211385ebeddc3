use loom_topo::edge::{DependencyEdge, EdgeKind};
use loom_topo::graph::{CodeGraph, Direction};
use loom_topo::id::SymbolId;
use loom_topo::symbol::{SymbolKind, SymbolNode};

fn create_dummy_node(name: &str, file: &str, line: u32) -> SymbolNode {
    let id = SymbolId::derive(file, &[], name, &format!("fn {name}()"));
    SymbolNode::new(
        id,
        name,
        SymbolKind::Function,
        file,
        (0, 100),
        (line, line + 10),
        None,
        &format!("fn {name}()"),
        true,
        1,
    )
}

fn make_symbol(file: &str, name: &str, line: u32) -> SymbolNode {
    let id = SymbolId::derive(file, &[], name, &format!("fn {name}()"));
    SymbolNode::new(
        id,
        name,
        SymbolKind::Function,
        file,
        (0, 50),
        (line, line + 5),
        None,
        &format!("fn {name}()"),
        true,
        1,
    )
}

fn make_node(file: &str, name: &str, is_exported: bool) -> SymbolNode {
    let id = SymbolId::derive(file, &[], name, &format!("fn {name}()"));
    SymbolNode::new(
        id,
        name,
        SymbolKind::Function,
        file,
        (0, 50),
        (1, 10),
        None,
        &format!("fn {name}()"),
        is_exported,
        1,
    )
}

#[test]
fn test_upsert_and_retrieve_symbol() {
    let mut graph = CodeGraph::new();
    let node = create_dummy_node("authenticate", "src/auth.rs", 10);
    let id = node.id;

    let idx = graph.upsert_symbol(node.clone());
    assert_eq!(graph.node_count(), 1);
    assert_eq!(graph.file_count(), 1);

    let retrieved = graph.get_symbol(&id).expect("symbol exists");
    assert_eq!(retrieved.name, "authenticate");
    assert_eq!(retrieved.id, id);
    assert_eq!(graph.symbol_to_node[&id.key()], idx);

    let file_symbols = graph.get_symbols_for_file("src/auth.rs");
    assert_eq!(file_symbols.len(), 1);
    assert_eq!(file_symbols[0].id, id);
}

#[test]
fn test_add_edge_and_neighbor_queries() {
    let mut graph = CodeGraph::new();
    let origin = create_dummy_node("login_handler", "src/api.rs", 20);
    let target = create_dummy_node("authenticate", "src/auth.rs", 10);

    let origin_id = origin.id;
    let target_id = target.id;

    graph.upsert_symbol(origin);
    graph.upsert_symbol(target);

    let edge = DependencyEdge::new(EdgeKind::Calls, 25, false);
    graph.add_edge(origin_id, target_id, edge).expect("add edge");

    assert_eq!(graph.edge_count(), 1);

    let callers = graph.get_callers(&target_id);
    assert_eq!(callers.len(), 1);
    assert_eq!(callers[0].0.id, origin_id);
    assert_eq!(callers[0].1.call_site_line, 25);

    let outbound = graph.get_callees(&origin_id);
    assert_eq!(outbound.len(), 1);
    assert_eq!(outbound[0].0.id, target_id);
}

#[test]
fn test_petgraph_node_swap_removal_consistency() {
    let mut graph = CodeGraph::new();
    let node_a = create_dummy_node("a", "src/a.rs", 1);
    let node_b = create_dummy_node("b", "src/b.rs", 1);
    let node_c = create_dummy_node("c", "src/c.rs", 1);

    let id_a = node_a.id;
    let id_b = node_b.id;
    let id_c = node_c.id;

    graph.upsert_symbol(node_a);
    graph.upsert_symbol(node_b);
    graph.upsert_symbol(node_c);

    assert_eq!(graph.node_count(), 3);

    // Removing the node at index 0 moves the last node into its slot.
    let removed = graph.remove_symbol(id_a);
    assert!(removed.is_some());
    assert_eq!(graph.node_count(), 2);

    let c_node = graph.get_symbol(&id_c).expect("c must be found");
    assert_eq!(c_node.name, "c");
    assert_eq!(graph.symbol_to_node[&id_c.key()], 0);

    let b_node = graph.get_symbol(&id_b).expect("b must be found");
    assert_eq!(b_node.name, "b");
}

#[test]
fn test_invalidate_file() {
    let mut graph = CodeGraph::new();
    let s1 = create_dummy_node("func1", "src/service.rs", 1);
    let s2 = create_dummy_node("func2", "src/service.rs", 20);
    let s3 = create_dummy_node("other", "src/other.rs", 1);

    let id1 = s1.id;
    let id2 = s2.id;
    let id3 = s3.id;

    graph.upsert_symbol(s1);
    graph.upsert_symbol(s2);
    graph.upsert_symbol(s3);

    assert_eq!(graph.node_count(), 3);
    assert_eq!(graph.file_count(), 2);

    let removed = graph.invalidate_file("src/service.rs");
    assert_eq!(removed.len(), 2);
    assert_eq!(graph.node_count(), 1);
    assert_eq!(graph.file_count(), 1);

    assert!(!graph.contains_symbol(&id1));
    assert!(!graph.contains_symbol(&id2));
    assert!(graph.contains_symbol(&id3));
    assert_eq!(graph.get_symbols_for_file("src/service.rs").len(), 0);
}

#[test]
fn test_transitive_callers_and_callees() {
    let mut graph = CodeGraph::new();
    let node_alpha = create_dummy_node("alpha", "src/alpha.rs", 1);
    let node_beta = create_dummy_node("beta", "src/beta.rs", 1);
    let node_gamma = create_dummy_node("gamma", "src/gamma.rs", 1);
    let node_delta = create_dummy_node("delta", "src/delta.rs", 1);

    let id_alpha = node_alpha.id;
    let id_beta = node_beta.id;
    let id_gamma = node_gamma.id;
    let id_delta = node_delta.id;

    graph.upsert_symbol(node_alpha);
    graph.upsert_symbol(node_beta);
    graph.upsert_symbol(node_gamma);
    graph.upsert_symbol(node_delta);

    let edge = DependencyEdge::new(EdgeKind::Calls, 10, false);
    graph.add_edge(id_alpha, id_beta, edge.clone()).expect("add alpha->beta");
    graph.add_edge(id_beta, id_gamma, edge.clone()).expect("add beta->gamma");
    graph.add_edge(id_gamma, id_delta, edge.clone()).expect("add gamma->delta");

    let callers = graph.find_transitive_callers(&id_delta, 5);
    assert_eq!(callers.len(), 3);
    assert_eq!(callers[0].0.id, id_gamma);
    assert_eq!(callers[0].1, 1);
    assert_eq!(callers[1].0.id, id_beta);
    assert_eq!(callers[1].1, 2);
    assert_eq!(callers[2].0.id, id_alpha);
    assert_eq!(callers[2].1, 3);

    let shallow_callers = graph.find_transitive_callers(&id_delta, 1);
    assert_eq!(shallow_callers.len(), 1);
    assert_eq!(shallow_callers[0].0.id, id_gamma);

    let outbound = graph.find_transitive_callees(&id_alpha, 2);
    assert_eq!(outbound.len(), 2);
    assert_eq!(outbound[0].0.id, id_beta);
    assert_eq!(outbound[0].1, 1);
    assert_eq!(outbound[1].0.id, id_gamma);
    assert_eq!(outbound[1].1, 2);
}

#[test]
fn test_find_shortest_path() {
    let mut graph = CodeGraph::new();
    let node_start = create_dummy_node("start", "src/start.rs", 1);
    let node_mid1 = create_dummy_node("mid1", "src/mid1.rs", 1);
    let node_mid2 = create_dummy_node("mid2", "src/mid2.rs", 1);
    let node_dest = create_dummy_node("dest", "src/dest.rs", 1);
    let node_isolated = create_dummy_node("isolated", "src/isolated.rs", 1);

    let id_start = node_start.id;
    let id_mid1 = node_mid1.id;
    let id_mid2 = node_mid2.id;
    let id_dest = node_dest.id;
    let id_isolated = node_isolated.id;

    graph.upsert_symbol(node_start);
    graph.upsert_symbol(node_mid1);
    graph.upsert_symbol(node_mid2);
    graph.upsert_symbol(node_dest);
    graph.upsert_symbol(node_isolated);

    let edge = DependencyEdge::new(EdgeKind::Calls, 10, false);
    graph.add_edge(id_start, id_mid1, edge.clone()).expect("add start->mid1");
    graph.add_edge(id_mid1, id_mid2, edge.clone()).expect("add mid1->mid2");
    graph.add_edge(id_mid2, id_dest, edge.clone()).expect("add mid2->dest");
    graph.add_edge(id_start, id_dest, edge).expect("add start->dest shortcut");

    let path = graph.find_shortest_path(&id_start, &id_dest).expect("path exists");
    assert_eq!(path.len(), 2);
    assert_eq!(path[0].id, id_start);
    assert_eq!(path[1].id, id_dest);

    assert!(graph.find_shortest_path(&id_start, &id_isolated).is_none());
}

#[test]
fn test_large_graph_scaling_and_consistency() {
    let mut graph = CodeGraph::new();
    let num_files: usize = 20;
    let symbols_per_file: usize = 25;

    let mut all_ids = Vec::new();

    for f in 0..num_files {
        let file_path = format!("src/module_{f}.rs");
        for s in 0..symbols_per_file {
            let symbol_name = format!("func_{f}_{s}");
            let node = make_symbol(&file_path, &symbol_name, (s * 10) as u32);
            let id = node.id;
            all_ids.push(id);
            graph.upsert_symbol(node);
        }
    }

    assert_eq!(graph.node_count(), num_files * symbols_per_file);
    assert_eq!(graph.file_count(), num_files);

    for i in 0..(all_ids.len() - 1) {
        let edge = DependencyEdge::new(EdgeKind::Calls, 42, false);
        graph.add_edge(all_ids[i], all_ids[i + 1], edge).expect("add edge");
    }

    assert_eq!(graph.edge_count(), all_ids.len() - 1);

    let mid_id = all_ids[10];
    let callers = graph.get_callers(&mid_id);
    let callees = graph.get_callees(&mid_id);

    assert_eq!(callers.len(), 1);
    assert_eq!(callers[0].0.id, all_ids[9]);

    assert_eq!(callees.len(), 1);
    assert_eq!(callees[0].0.id, all_ids[11]);
}

#[test]
fn test_incremental_invalidation_stress() {
    let mut graph = CodeGraph::new();

    for f in 0..10 {
        let file_path = format!("src/file_{f}.rs");
        for s in 0..5 {
            let node = make_symbol(&file_path, &format!("sym_{f}_{s}"), s * 10);
            graph.upsert_symbol(node);
        }
    }

    assert_eq!(graph.node_count(), 50);
    assert_eq!(graph.file_count(), 10);

    for f in 0..10 {
        let file_path = format!("src/file_{f}.rs");

        let removed = graph.invalidate_file(&file_path);
        assert_eq!(removed.len(), 5);
        assert_eq!(graph.file_count(), 9);

        for old_node in &removed {
            assert!(!graph.contains_symbol(&old_node.id));
            assert!(graph.get_symbol(&old_node.id).is_none());
        }

        for s in 0..3 {
            let new_node = make_symbol(&file_path, &format!("new_sym_{f}_{s}"), s * 20);
            graph.upsert_symbol(new_node);
        }

        assert_eq!(graph.file_count(), 10);
    }

    assert_eq!(graph.node_count(), 30);
    assert_eq!(graph.file_count(), 10);

    for &node_idx in graph.symbol_to_node.values() {
        assert!(graph.graph.node_weight(petgraph::graph::NodeIndex::new(node_idx)).is_some());
    }
}

#[test]
fn test_cyclic_dependencies_and_multiple_edge_kinds() {
    let mut graph = CodeGraph::new();
    let node_a = make_symbol("src/a.rs", "node_a", 10);
    let node_b = make_symbol("src/b.rs", "node_b", 20);

    let id_a = node_a.id;
    let id_b = node_b.id;

    graph.upsert_symbol(node_a);
    graph.upsert_symbol(node_b);

    graph.add_edge(id_a, id_b, DependencyEdge::new(EdgeKind::Calls, 15, false)).expect("add A->B edge");
    graph.add_edge(id_b, id_a, DependencyEdge::new(EdgeKind::Calls, 25, false)).expect("add B->A edge");
    graph
        .add_edge(id_a, id_b, DependencyEdge::new(EdgeKind::Instantiates, 16, true))
        .expect("add A instantiates B edge");

    assert_eq!(graph.edge_count(), 3);

    let callers_of_a = graph.get_callers(&id_a);
    assert_eq!(callers_of_a.len(), 1);
    assert_eq!(callers_of_a[0].0.id, id_b);

    let callers_of_b = graph.get_callers(&id_b);
    assert_eq!(callers_of_b.len(), 1);
    assert_eq!(callers_of_b[0].0.id, id_a);
}

#[test]
fn test_shortest_path_optimality_across_unequal_multipaths() {
    let mut graph = CodeGraph::new();
    let a = make_node("src/a.rs", "node_a", true);
    let b = make_node("src/b.rs", "node_b", false);
    let c = make_node("src/c.rs", "node_c", false);
    let d = make_node("src/d.rs", "node_d", false);
    let e = make_node("src/e.rs", "node_e", false);

    let id_a = a.id;
    let id_b = b.id;
    let id_c = c.id;
    let id_d = d.id;
    let id_e = e.id;

    graph.upsert_symbol(a);
    graph.upsert_symbol(b);
    graph.upsert_symbol(c);
    graph.upsert_symbol(d);
    graph.upsert_symbol(e);

    let edge = DependencyEdge::new(EdgeKind::Calls, 10, false);
    graph.add_edge(id_a, id_b, edge.clone()).expect("a->b");
    graph.add_edge(id_b, id_c, edge.clone()).expect("b->c");
    graph.add_edge(id_c, id_d, edge.clone()).expect("c->d");
    graph.add_edge(id_a, id_e, edge.clone()).expect("a->e");
    graph.add_edge(id_e, id_d, edge).expect("e->d");

    let path = graph.find_shortest_path(&id_a, &id_d).expect("path must exist");
    assert_eq!(path.len(), 3, "Shortest path must take 3 nodes (A -> E -> D)");
    assert_eq!(path[0].id, id_a);
    assert_eq!(path[1].id, id_e);
    assert_eq!(path[2].id, id_d);
}

#[test]
fn test_self_referencing_recursive_function() {
    let mut graph = CodeGraph::new();

    let rec = make_node("src/rec.rs", "factorial_recursive", false);
    let id_rec = rec.id;
    graph.upsert_symbol(rec);

    graph.add_edge(id_rec, id_rec, DependencyEdge::new(EdgeKind::Calls, 5, false)).expect("self edge");

    assert_eq!(graph.get_callers(&id_rec).len(), 1);
    assert_eq!(graph.get_callees(&id_rec).len(), 1);

    let callees = graph.find_transitive_callees(&id_rec, 5);
    assert!(callees.is_empty());

    let callers = graph.find_transitive_callers(&id_rec, 5);
    assert!(callers.is_empty());

    let path = graph.find_shortest_path(&id_rec, &id_rec).expect("path to self");
    assert_eq!(path.len(), 1);
    assert_eq!(path[0].id, id_rec);
}

#[test]
fn test_multi_node_cycle_with_entry_and_exit() {
    let mut graph = CodeGraph::new();
    let x = make_node("src/entry.rs", "entry_x", true);
    let a = make_node("src/cycle.rs", "cycle_a", false);
    let b = make_node("src/cycle.rs", "cycle_b", false);
    let c = make_node("src/cycle.rs", "cycle_c", false);
    let d = make_node("src/cycle.rs", "cycle_d", false);
    let y = make_node("src/exit.rs", "exit_y", true);

    let id_x = x.id;
    let id_a = a.id;
    let id_b = b.id;
    let id_c = c.id;
    let id_d = d.id;
    let id_y = y.id;

    graph.upsert_symbol(x);
    graph.upsert_symbol(a);
    graph.upsert_symbol(b);
    graph.upsert_symbol(c);
    graph.upsert_symbol(d);
    graph.upsert_symbol(y);

    let edge = DependencyEdge::new(EdgeKind::Calls, 1, false);
    graph.add_edge(id_x, id_a, edge.clone()).expect("x->a");
    graph.add_edge(id_a, id_b, edge.clone()).expect("a->b");
    graph.add_edge(id_b, id_c, edge.clone()).expect("b->c");
    graph.add_edge(id_c, id_d, edge.clone()).expect("c->d");
    graph.add_edge(id_d, id_a, edge.clone()).expect("d->a (closing cycle)");
    graph.add_edge(id_a, id_y, edge).expect("a->y");

    let callees = graph.find_transitive_callees(&id_x, 10);
    assert_eq!(callees.len(), 5);

    let path_x_y = graph.find_shortest_path(&id_x, &id_y).expect("x->y path");
    assert_eq!(path_x_y.len(), 3);
    assert_eq!(path_x_y[0].id, id_x);
    assert_eq!(path_x_y[1].id, id_a);
    assert_eq!(path_x_y[2].id, id_y);

    let path_c_y = graph.find_shortest_path(&id_c, &id_y).expect("c->y path");
    assert_eq!(path_c_y.len(), 4);
    assert_eq!(path_c_y[0].id, id_c);
    assert_eq!(path_c_y[1].id, id_d);
    assert_eq!(path_c_y[2].id, id_a);
    assert_eq!(path_c_y[3].id, id_y);
}

#[test]
fn test_depth_zero_and_depth_one_boundary_conditions() {
    let mut graph = CodeGraph::new();
    let a = make_node("src/lib.rs", "root_a", true);
    let b = make_node("src/lib.rs", "child_b", false);
    let c = make_node("src/lib.rs", "grandchild_c", false);

    let id_a = a.id;
    let id_b = b.id;
    let id_c = c.id;

    graph.upsert_symbol(a);
    graph.upsert_symbol(b);
    graph.upsert_symbol(c);

    let edge = DependencyEdge::new(EdgeKind::Calls, 1, false);
    graph.add_edge(id_a, id_b, edge.clone()).expect("a->b");
    graph.add_edge(id_b, id_c, edge).expect("b->c");

    assert!(graph.find_transitive_callees(&id_a, 0).is_empty());
    assert!(graph.find_transitive_callers(&id_c, 0).is_empty());

    let callees_d1 = graph.find_transitive_callees(&id_a, 1);
    assert_eq!(callees_d1.len(), 1);
    assert_eq!(callees_d1[0].0.id, id_b);

    let callers_d1 = graph.find_transitive_callers(&id_c, 1);
    assert_eq!(callers_d1.len(), 1);
    assert_eq!(callers_d1[0].0.id, id_b);
}

#[test]
fn test_non_existent_source_or_target_pathfinding() {
    let mut graph = CodeGraph::new();
    let a = make_node("src/lib.rs", "exists_a", true);
    let id_a = a.id;
    graph.upsert_symbol(a);

    let fake_id_1 = SymbolId::derive("src/fake.rs", &[], "fake_1", "fn fake_1()");
    let fake_id_2 = SymbolId::derive("src/fake.rs", &[], "fake_2", "fn fake_2()");

    assert!(graph.find_shortest_path(&fake_id_1, &id_a).is_none());
    assert!(graph.find_shortest_path(&id_a, &fake_id_2).is_none());
    assert!(graph.find_shortest_path(&fake_id_1, &fake_id_2).is_none());
}

#[test]
fn test_dynamic_invalidation_breaks_path() {
    let mut graph = CodeGraph::new();
    let a = make_node("src/module_a.rs", "fn_a", true);
    let b = make_node("src/module_b.rs", "fn_b", false);
    let c = make_node("src/module_c.rs", "fn_c", true);

    let id_a = a.id;
    let id_b = b.id;
    let id_c = c.id;

    graph.upsert_symbol(a);
    graph.upsert_symbol(b);
    graph.upsert_symbol(c);

    let edge = DependencyEdge::new(EdgeKind::Calls, 10, false);
    graph.add_edge(id_a, id_b, edge.clone()).expect("a->b");
    graph.add_edge(id_b, id_c, edge).expect("b->c");

    assert!(graph.find_shortest_path(&id_a, &id_c).is_some());

    graph.invalidate_file("src/module_b.rs");

    assert!(graph.find_shortest_path(&id_a, &id_c).is_none());
    assert!(graph.find_transitive_callers(&id_c, 5).is_empty());
}

#[test]
fn test_deterministic_ordering_stability() {
    let mut graph = CodeGraph::new();
    let root = make_node("src/root.rs", "root", true);
    let id_root = root.id;
    graph.upsert_symbol(root);

    let mut child_ids = Vec::new();
    for i in 0..10 {
        let child = make_node("src/children.rs", &format!("child_{i}"), false);
        let id_child = child.id;
        child_ids.push(id_child);
        graph.upsert_symbol(child);
        graph
            .add_edge(id_root, id_child, DependencyEdge::new(EdgeKind::Calls, i as u32, false))
            .expect("root->child");
    }

    let baseline = graph.find_transitive_callees(&id_root, 5);
    for _ in 0..50 {
        let current = graph.find_transitive_callees(&id_root, 5);
        assert_eq!(
            baseline.iter().map(|(n, d)| (n.id, *d)).collect::<Vec<_>>(),
            current.iter().map(|(n, d)| (n.id, *d)).collect::<Vec<_>>(),
            "Transitive traversal results must be 100% deterministic across repeated runs"
        );
    }
}

#[test]
fn neighbors_by_direction_filters_by_kind() {
    let mut graph = CodeGraph::new();
    let a = make_node("src/a.rs", "a", true);
    let b = make_node("src/b.rs", "b", false);
    let (id_a, id_b) = (a.id, b.id);
    graph.upsert_symbol(a);
    graph.upsert_symbol(b);
    graph.add_edge(id_a, id_b, DependencyEdge::new(EdgeKind::Calls, 3, false)).expect("calls");
    graph.add_edge(id_a, id_b, DependencyEdge::new(EdgeKind::Imports, 1, false)).expect("imports");

    let all_out = graph.get_neighbors_by_direction(&id_a, Direction::Outgoing, None);
    assert_eq!(all_out.len(), 2);
    // Most recently added edge first.
    assert_eq!(all_out[0].1.kind, EdgeKind::Imports);
    assert_eq!(all_out[1].1.kind, EdgeKind::Calls);

    let imports_in = graph.get_neighbors_by_direction(&id_b, Direction::Incoming, Some(EdgeKind::Imports));
    assert_eq!(imports_in.len(), 1);
    assert_eq!(imports_in[0].0.id, id_a);

    let unknown = SymbolId::from_bytes([7u8; 16]);
    assert!(graph.get_neighbors_by_direction(&unknown, Direction::Outgoing, None).is_empty());
}

#[test]
fn add_edge_to_unknown_symbol_fails_and_leaves_graph_unchanged() {
    let mut graph = CodeGraph::new();
    let a = make_node("src/a.rs", "a", true);
    let id_a = a.id;
    graph.upsert_symbol(a);
    let missing = SymbolId::from_bytes([9u8; 16]);
    let r = graph.add_edge(id_a, missing, DependencyEdge::new(EdgeKind::Calls, 1, false));
    assert!(matches!(r, Err(loom_topo::GraphError::EndpointNotFound)));
    assert_eq!(graph.edge_count(), 0);
}

#[test]
fn upsert_replaces_in_place_and_remove_reports_node() {
    let mut graph = CodeGraph::new();
    let a = make_node("src/a.rs", "a", true);
    let id_a = a.id;
    let first = graph.upsert_symbol(a.clone());
    let mut updated = a.clone();
    updated.epoch = 7;
    let second = graph.upsert_symbol(updated);
    assert_eq!(first, second);
    assert_eq!(graph.node_count(), 1);
    assert_eq!(graph.get_symbol(&id_a).expect("present").epoch, 7);
    assert_eq!(graph.get_symbols_by_name("a").len(), 1);

    let removed = graph.remove_symbol(id_a).expect("removed");
    assert_eq!(removed.epoch, 7);
    assert!(graph.remove_symbol(id_a).is_none());
    assert_eq!(graph.file_count(), 0);
}

#[test]
fn symbol_mut_edits_in_place() {
    let mut graph = CodeGraph::new();
    let a = make_node("src/a.rs", "a", false);
    let id_a = a.id;
    graph.upsert_symbol(a);
    {
        let n = graph.get_symbol_mut(&id_a).expect("present");
        n.docstring = Some("doc".to_string());
        n.epoch = 3;
    }
    let n = graph.get_symbol(&id_a).expect("present");
    assert_eq!(n.docstring.as_deref(), Some("doc"));
    assert_eq!(n.epoch, 3);
    assert!(graph.get_symbol_mut(&SymbolId::from_bytes([5u8; 16])).is_none());
    let g2 = CodeGraph::with_capacity(10, 10);
    assert_eq!(g2.node_count(), 0);
    assert_eq!(CodeGraph::default().edge_count(), 0);
}

#[test]
fn neighbour_lists_survive_node_removal() {
    let mut graph = CodeGraph::new();
    let ids: Vec<SymbolId> = ["n0", "n1", "n2", "n3"]
        .iter()
        .map(|n| {
            let s = make_node("src/g.rs", n, false);
            let id = s.id;
            graph.upsert_symbol(s);
            id
        })
        .collect();
    // Edge 0 touches n0 and will be removed; the last edge then moves into its slot.
    graph.add_edge(ids[0], ids[1], DependencyEdge::new(EdgeKind::Calls, 1, false)).expect("e0");
    graph.add_edge(ids[2], ids[1], DependencyEdge::new(EdgeKind::Calls, 2, false)).expect("e1");
    graph.add_edge(ids[3], ids[1], DependencyEdge::new(EdgeKind::Calls, 3, false)).expect("e2");
    graph.add_edge(ids[2], ids[3], DependencyEdge::new(EdgeKind::Calls, 4, false)).expect("e3");
    graph.remove_symbol(ids[0]).expect("removed");
    let lines: Vec<u32> = graph.get_callers(&ids[1]).iter().map(|(_, e)| e.call_site_line).collect();
    assert_eq!(lines, vec![3, 2]);
    let out: Vec<u32> = graph.get_callees(&ids[2]).iter().map(|(_, e)| e.call_site_line).collect();
    assert_eq!(out, vec![4, 2]);
    assert_eq!(graph.edge_count(), 3);
}
