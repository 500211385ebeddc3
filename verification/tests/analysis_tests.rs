use loom_topo::blast_radius::{assess_risk, is_test_symbol, test_markers, BlastRadiusCalculator, ImpactSummary, RiskLevel};
use loom_topo::dead_code::{is_entrypoint_or_exported, DeadCodeDetector, DeadSymbolReason};
use loom_topo::edge::{DependencyEdge, EdgeKind};
use loom_topo::graph::CodeGraph;
use loom_topo::id::SymbolId;
use loom_topo::symbol::{SymbolKind, SymbolNode};

fn make_node(file: &str, name: &str, is_exported: bool) -> SymbolNode {
    let id = SymbolId::derive(file, &[], name, &format!("fn {name}()"));
    SymbolNode::new(id, name, SymbolKind::Function, file, (0, 50), (1, 10), None, &format!("fn {name}()"), is_exported, 1)
}

fn helper_create_symbol(graph: &mut CodeGraph, file: &str, name: &str, is_exported: bool) -> SymbolId {
    let node = make_node(file, name, is_exported);
    let id = node.id;
    graph.upsert_symbol(node);
    id
}

/// The depth-decayed risk score of an impact: 15 for an exported target, plus
/// `0.75^depth * (3 if exported else 1) * 2` for every upstream caller.
fn risk_score(s: &ImpactSummary) -> f64 {
    let mut score = if s.target_symbol.is_exported { 15.0 } else { 0.0 };
    for &(depth, exported) in &s.caller_weights {
        score += 0.75_f64.powi(depth as i32) * if exported { 3.0 } else { 1.0 } * 2.0;
    }
    score
}

/// How many of the thresholds 3, 8, 15 and 20 a score reaches.
fn score_band(score: f64) -> u8 {
    [3.0, 8.0, 15.0, 20.0].iter().filter(|t| score >= **t).count() as u8
}

fn risk_of(s: &ImpactSummary) -> (RiskLevel, String) {
    assess_risk(s.public_api_impacted, score_band(risk_score(s)), s.total_affected_symbols)
}

#[test]
fn test_blast_radius_calculation_and_risk_scoring() {
    let mut graph = CodeGraph::new();
    let id_target = helper_create_symbol(&mut graph, "src/core/auth.rs", "validate_secret", false);
    let id_caller1 = helper_create_symbol(&mut graph, "src/api/auth.rs", "login_endpoint", true);
    let id_caller2 = helper_create_symbol(&mut graph, "src/api/routes.rs", "router", true);
    let id_test = helper_create_symbol(&mut graph, "tests/auth_tests.rs", "test_login", false);

    let edge = DependencyEdge::new(EdgeKind::Calls, 5, false);
    graph.add_edge(id_caller1, id_target, edge.clone()).expect("add edge 1");
    graph.add_edge(id_caller2, id_caller1, edge.clone()).expect("add edge 2");
    graph.add_edge(id_test, id_target, edge).expect("add test edge");

    let calculator = BlastRadiusCalculator::new(&graph);
    let report = calculator.calculate_impact(&id_target, 5).expect("report generated");

    assert_eq!(report.target_symbol.name, "validate_secret");
    assert_eq!(report.direct_callers.len(), 2);
    assert_eq!(report.associated_tests.len(), 1);
    assert_eq!(report.associated_tests[0].name, "test_login");
    assert_eq!(report.transitive_callers.len(), 1);
    assert_eq!(report.transitive_callers[0].name, "router");
    assert!(matches!(risk_of(&report).0, RiskLevel::High | RiskLevel::Critical));
}

#[test]
fn test_blast_radius_exact_risk_scoring_formula() {
    let mut graph = CodeGraph::new();
    let t = helper_create_symbol(&mut graph, "src/lib.rs", "target", false);
    let c1 = helper_create_symbol(&mut graph, "src/internal.rs", "caller1", false);
    let c2 = helper_create_symbol(&mut graph, "src/api.rs", "caller2_public", true);
    let c3 = helper_create_symbol(&mut graph, "src/api.rs", "caller3_public", true);

    let edge = DependencyEdge::new(EdgeKind::Calls, 10, false);
    graph.add_edge(c1, t, edge.clone()).expect("c1->t");
    graph.add_edge(c2, t, edge.clone()).expect("c2->t");
    graph.add_edge(c3, c1, edge).expect("c3->c1");

    let calculator = BlastRadiusCalculator::new(&graph);
    let report = calculator.calculate_impact(&t, 5).expect("report should generate");
    assert_eq!(report.target_symbol.id, t);
    assert_eq!(report.total_affected_symbols, 3);
    assert_eq!(report.direct_callers.len(), 2);
    assert_eq!(report.transitive_callers.len(), 1);

    let mut weights = report.caller_weights.clone();
    weights.sort();
    assert_eq!(weights, vec![(1, false), (1, true), (2, true)]);
    let expected_score = 9.375_f64;
    let score = risk_score(&report);
    assert!((score - expected_score).abs() < 1e-6, "Expected risk score {}, got {}", expected_score, score);
    assert_eq!(risk_of(&report).0, RiskLevel::High);
}

#[test]
fn test_blast_radius_high_risk_and_critical_boundaries() {
    let mut graph = CodeGraph::new();
    let t = helper_create_symbol(&mut graph, "src/db.rs", "query_exec", false);
    for i in 0..3 {
        let api_fn = helper_create_symbol(&mut graph, "src/api.rs", &format!("endpoint_{i}"), true);
        graph.add_edge(api_fn, t, DependencyEdge::new(EdgeKind::Calls, 10, false)).expect("api->t");
    }
    let calculator = BlastRadiusCalculator::new(&graph);
    let report = calculator.calculate_impact(&t, 5).expect("report should generate");
    assert!((risk_score(&report) - 13.5).abs() < 1e-9);
    assert_eq!(risk_of(&report).0, RiskLevel::High);
    assert_eq!(report.direct_callers.len(), 3);
}

#[test]
fn test_blast_radius_associated_tests_mapping() {
    let mut graph = CodeGraph::new();
    let target = helper_create_symbol(&mut graph, "src/math.rs", "add", true);
    let test_direct = helper_create_symbol(&mut graph, "tests/math_test.rs", "test_add_direct", false);
    let helper_fn = helper_create_symbol(&mut graph, "src/helpers.rs", "math_helper", false);
    let test_indirect = helper_create_symbol(&mut graph, "tests/math_test.rs", "test_add_indirect", false);

    let edge = DependencyEdge::new(EdgeKind::Calls, 5, false);
    graph.add_edge(test_direct, target, edge.clone()).expect("test_direct->target");
    graph.add_edge(helper_fn, target, edge.clone()).expect("helper_fn->target");
    graph.add_edge(test_indirect, helper_fn, edge).expect("test_indirect->helper");

    let calculator = BlastRadiusCalculator::new(&graph);
    let report = calculator.calculate_impact(&target, 5).expect("report should generate");
    assert_eq!(report.associated_tests.len(), 2);
    let test_ids: Vec<SymbolId> = report.associated_tests.iter().map(|s| s.id).collect();
    assert!(test_ids.contains(&test_direct));
    assert!(test_ids.contains(&test_indirect));
}

#[test]
fn test_isolated_symbol_with_zero_callers() {
    let mut graph = CodeGraph::new();
    let id = helper_create_symbol(&mut graph, "src/utils.rs", "standalone_helper", false);
    let calc = BlastRadiusCalculator::new(&graph);
    let report = calc.calculate_impact(&id, 5).expect("report exists");
    let (level, rationale) = risk_of(&report);
    assert_eq!(level, RiskLevel::Low);
    assert_eq!(report.total_affected_symbols, 0);
    assert!(report.direct_callers.is_empty());
    assert!(report.transitive_callers.is_empty());
    assert!(report.associated_tests.is_empty());
    assert!(rationale.contains("LOW"));
}

#[test]
fn test_isolated_public_api_with_zero_callers() {
    let mut graph = CodeGraph::new();
    let id = helper_create_symbol(&mut graph, "src/lib.rs", "public_api_endpoint", true);
    let calc = BlastRadiusCalculator::new(&graph);
    let report = calc.calculate_impact(&id, 5).expect("report exists");
    let (level, rationale) = risk_of(&report);
    assert_eq!(level, RiskLevel::High);
    assert_eq!(report.total_affected_symbols, 0);
    assert!(rationale.contains("HIGH"));
}

#[test]
fn test_mixed_visibility_chain_blast_radius() {
    let mut graph = CodeGraph::new();
    let id_leaf = helper_create_symbol(&mut graph, "src/db/raw.rs", "execute_sql_raw", false);
    let id_helper = helper_create_symbol(&mut graph, "src/db/repo.rs", "fetch_user_record", false);
    let id_service = helper_create_symbol(&mut graph, "src/services/user.rs", "get_user_profile", true);
    let id_controller = helper_create_symbol(&mut graph, "src/api/v1.rs", "handle_get_user", true);

    let edge = DependencyEdge::new(EdgeKind::Calls, 10, false);
    graph.add_edge(id_helper, id_leaf, edge.clone()).expect("helper->leaf");
    graph.add_edge(id_service, id_helper, edge.clone()).expect("service->helper");
    graph.add_edge(id_controller, id_service, edge).expect("controller->service");

    let calc = BlastRadiusCalculator::new(&graph);
    let report = calc.calculate_impact(&id_leaf, 5).expect("report exists");
    assert_eq!(report.total_affected_symbols, 3);
    assert_eq!(report.direct_callers.len(), 1);
    assert_eq!(report.transitive_callers.len(), 2);
    assert_eq!(report.caller_weights, vec![(1, false), (2, true), (3, true)]);

    let expected_score = 7.40625_f64;
    let score = risk_score(&report);
    assert!((score - expected_score).abs() < 1e-5, "Expected score {}, got {}", expected_score, score);
    assert_eq!(risk_of(&report).0, RiskLevel::High);
}

#[test]
fn test_dynamic_mutation_blast_radius_recomputation() {
    let mut graph = CodeGraph::new();
    let id_target = helper_create_symbol(&mut graph, "src/core.rs", "compute_hash", false);

    let rep1 = BlastRadiusCalculator::new(&graph).calculate_impact(&id_target, 5).expect("rep1");
    assert_eq!(risk_of(&rep1).0, RiskLevel::Low);

    for i in 0..5 {
        let id_caller = helper_create_symbol(&mut graph, "src/api.rs", &format!("endpoint_{i}"), true);
        graph
            .add_edge(id_caller, id_target, DependencyEdge::new(EdgeKind::Calls, 10, false))
            .expect("caller->target");
    }

    let rep2 = BlastRadiusCalculator::new(&graph).calculate_impact(&id_target, 5).expect("rep2");
    assert_eq!(risk_of(&rep2).0, RiskLevel::Critical);
    assert_eq!(rep2.total_affected_symbols, 5);
    assert_eq!(rep2.direct_callers.len(), 5);
}

#[test]
fn test_multi_test_suite_association_with_shared_helpers() {
    let mut graph = CodeGraph::new();
    let id_target = helper_create_symbol(&mut graph, "src/auth.rs", "validate_signature", true);
    let id_helper = helper_create_symbol(&mut graph, "src/factories.rs", "create_signature_factory", false);
    let id_t1 = helper_create_symbol(&mut graph, "tests/unit_auth_test.rs", "test_sig_direct", false);
    let id_t2 = helper_create_symbol(&mut graph, "tests/integration_test.rs", "test_auth_flow", false);
    let id_t3 = helper_create_symbol(&mut graph, "tests/e2e_test.rs", "test_full_system", false);

    let edge = DependencyEdge::new(EdgeKind::Calls, 5, false);
    graph.add_edge(id_t1, id_target, edge.clone()).expect("t1->target");
    graph.add_edge(id_helper, id_target, edge.clone()).expect("helper->target");
    graph.add_edge(id_t2, id_helper, edge.clone()).expect("t2->helper");
    graph.add_edge(id_t3, id_helper, edge).expect("t3->helper");

    let report = BlastRadiusCalculator::new(&graph).calculate_impact(&id_target, 5).expect("report");
    assert_eq!(report.associated_tests.len(), 3);
    let test_ids: Vec<SymbolId> = report.associated_tests.iter().map(|t| t.id).collect();
    assert!(test_ids.contains(&id_t1));
    assert!(test_ids.contains(&id_t2));
    assert!(test_ids.contains(&id_t3));
}

#[test]
fn test_complex_blast_radius_hierarchy_and_risk_heuristics() {
    let mut graph = CodeGraph::new();
    let mk = |g: &mut CodeGraph, file: &str, name: &str, exported: bool| {
        let id = SymbolId::derive(file, &[], name, &format!("fn {name}()"));
        g.upsert_symbol(SymbolNode::new(id, name, SymbolKind::Function, file, (0, 50), (1, 15), None, &format!("fn {name}()"), exported, 1));
        id
    };
    let id_target = mk(&mut graph, "src/payment/processor.rs", "charge_card_internal", false);
    let id_service = mk(&mut graph, "src/payment/service.rs", "process_checkout", false);
    let id_refund = mk(&mut graph, "src/payment/service.rs", "process_refund", false);
    let id_api_checkout = mk(&mut graph, "src/api/v1/checkout.rs", "checkout_route_handler", true);
    let id_api_refund = mk(&mut graph, "src/api/v1/refund.rs", "refund_route_handler", true);
    let id_test = mk(&mut graph, "tests/payment_tests.rs", "test_charge_card", false);

    let edge = DependencyEdge::new(EdgeKind::Calls, 10, false);
    graph.add_edge(id_service, id_target, edge.clone()).expect("service->target");
    graph.add_edge(id_refund, id_target, edge.clone()).expect("refund->target");
    graph.add_edge(id_api_checkout, id_service, edge.clone()).expect("api->service");
    graph.add_edge(id_api_refund, id_refund, edge.clone()).expect("api->refund");
    graph.add_edge(id_test, id_target, edge).expect("test->target");

    let report = BlastRadiusCalculator::new(&graph).calculate_impact(&id_target, 5).expect("report generated");
    assert_eq!(report.target_symbol.name, "charge_card_internal");
    assert_eq!(report.direct_callers.len(), 3);
    assert_eq!(report.associated_tests.len(), 1);
    assert_eq!(report.associated_tests[0].name, "test_charge_card");
    assert_eq!(report.transitive_callers.len(), 2);
    assert!(matches!(risk_of(&report).0, RiskLevel::High | RiskLevel::Critical));
    assert!(risk_score(&report) > 10.0);
}

#[test]
fn impact_of_unknown_symbol_is_none() {
    let graph = CodeGraph::new();
    let missing = SymbolId::from_bytes([3u8; 16]);
    assert!(BlastRadiusCalculator::new(&graph).calculate_impact(&missing, 5).is_none());
}

#[test]
fn impact_depth_bound_limits_upstream_callers() {
    let mut graph = CodeGraph::new();
    let a = helper_create_symbol(&mut graph, "src/a.rs", "a", false);
    let b = helper_create_symbol(&mut graph, "src/b.rs", "b", false);
    let c = helper_create_symbol(&mut graph, "src/c.rs", "c", false);
    graph.add_edge(b, a, DependencyEdge::new(EdgeKind::Calls, 3, false)).expect("b->a");
    graph.add_edge(c, b, DependencyEdge::new(EdgeKind::Calls, 4, false)).expect("c->b");
    // A non-call edge is no caller.
    graph.add_edge(c, a, DependencyEdge::new(EdgeKind::Imports, 1, false)).expect("c imports a");

    let shallow = BlastRadiusCalculator::new(&graph).calculate_impact(&a, 1).expect("report");
    assert_eq!(shallow.direct_callers.len(), 1);
    assert_eq!(shallow.direct_callers[0].call_site_line, 3);
    assert!(shallow.transitive_callers.is_empty());
    assert_eq!(shallow.caller_weights, vec![(1, false)]);

    let deep = BlastRadiusCalculator::new(&graph).calculate_impact(&a, 5).expect("report");
    assert_eq!(deep.transitive_callers.len(), 1);
    assert_eq!(deep.transitive_callers[0].depth, 2);
    assert_eq!(deep.total_affected_symbols, 2);
    assert!(!deep.public_api_impacted);
}

#[test]
fn assess_risk_levels_and_rationales() {
    assert_eq!(
        assess_risk(true, 4, 0),
        (RiskLevel::Critical, "CRITICAL: Modifying exported interface impacting 0 total symbols across public boundary".to_string())
    );
    assert_eq!(
        assess_risk(true, 0, 5).1,
        "CRITICAL: Modifying exported interface impacting 5 total symbols across public boundary"
    );
    assert_eq!(assess_risk(true, 2, 1), (RiskLevel::High, "HIGH: Significant impact on public API surface (1 callers)".to_string()));
    assert_eq!(assess_risk(true, 1, 1), (RiskLevel::Medium, "MEDIUM: Public API symbol with localized callers (1 callers)".to_string()));
    assert_eq!(
        assess_risk(false, 3, 0),
        (RiskLevel::High, "HIGH: Wide internal blast radius across modules (0 affected symbols)".to_string())
    );
    assert_eq!(assess_risk(false, 0, 12).0, RiskLevel::High);
    assert_eq!(assess_risk(false, 1, 0), (RiskLevel::Medium, "MEDIUM: Moderate internal impact (0 callers in repository)".to_string()));
    assert_eq!(assess_risk(false, 0, 0), (RiskLevel::Low, "LOW: Localized internal symbol with 0 upstream callers".to_string()));
}

#[test]
fn risk_never_decreases_with_more_impact() {
    let order = |l: RiskLevel| match l {
        RiskLevel::Low => 0,
        RiskLevel::Medium => 1,
        RiskLevel::High => 2,
        RiskLevel::Critical => 3,
    };
    for public in [false, true] {
        for band in 0u8..5 {
            for total in 0usize..8 {
                let base = order(assess_risk(public, band, total).0);
                if band < 4 {
                    assert!(order(assess_risk(public, band + 1, total).0) >= base);
                }
                assert!(order(assess_risk(public, band, total + 1).0) >= base);
                assert!(order(assess_risk(true, band, total).0) >= 1);
            }
        }
    }
}

#[test]
fn test_symbol_markers() {
    assert!(test_markers("test_login", "src/a.rs"));
    assert!(test_markers("login_test", "src/a.rs"));
    assert!(test_markers("testing", "src/a.rs"));
    assert!(test_markers("login", "src/__tests__/a.ts"));
    assert!(!test_markers("login", "src/auth.rs"));
    assert!(is_test_symbol(&make_node("SRC/Tests/A.rs", "Login", false)));
    assert!(is_test_symbol(&make_node("src/a.rs", "TestLogin", false)));
    assert!(!is_test_symbol(&make_node("src/a.rs", "attest", false)));
}

#[test]
fn entrypoint_classification() {
    assert!(is_entrypoint_or_exported(&make_node("src/a.rs", "anything", true)));
    assert!(is_entrypoint_or_exported(&make_node("src/a.rs", "main", false)));
    assert!(is_entrypoint_or_exported(&make_node("src/a.rs", "init", false)));
    assert!(is_entrypoint_or_exported(&make_node("src/a.rs", "run", false)));
    assert!(is_entrypoint_or_exported(&make_node("src/a.rs", "handler", false)));
    assert!(is_entrypoint_or_exported(&make_node("tests/a.rs", "check", false)));
    assert!(!is_entrypoint_or_exported(&make_node("src/a.rs", "helper", false)));
}

#[test]
fn test_orphan_and_dead_cycle_detection() {
    let mut graph = CodeGraph::new();
    let id_main = helper_create_symbol(&mut graph, "src/main.rs", "main", false);
    let id_live = helper_create_symbol(&mut graph, "src/util.rs", "live_helper", false);
    helper_create_symbol(&mut graph, "src/dead.rs", "dead_util", false);
    let id_ca = helper_create_symbol(&mut graph, "src/cycle.rs", "cycle_a", false);
    let id_cb = helper_create_symbol(&mut graph, "src/cycle.rs", "cycle_b", false);

    let edge = DependencyEdge::new(EdgeKind::Calls, 5, false);
    graph.add_edge(id_main, id_live, edge.clone()).expect("add main->live");
    graph.add_edge(id_ca, id_cb, edge.clone()).expect("add ca->cb");
    graph.add_edge(id_cb, id_ca, edge).expect("add cb->ca");

    let report = DeadCodeDetector::new(&graph).find_dead_symbols();
    assert_eq!(report.total_dead_count, 3);
    let dead_names: Vec<&str> = report.dead_symbols.iter().map(|d| d.symbol.name.as_str()).collect();
    assert!(dead_names.contains(&"dead_util"));
    assert!(dead_names.contains(&"cycle_a"));
    assert!(dead_names.contains(&"cycle_b"));
    assert!(!dead_names.contains(&"main"));
    assert!(!dead_names.contains(&"live_helper"));

    let dead_util_detail = report.dead_symbols.iter().find(|d| d.symbol.name == "dead_util").unwrap();
    assert_eq!(dead_util_detail.reason, DeadSymbolReason::UnreferencedInternalSymbol);
    let cycle_a_detail = report.dead_symbols.iter().find(|d| d.symbol.name == "cycle_a").unwrap();
    assert_eq!(cycle_a_detail.reason, DeadSymbolReason::IsolatedDeadCycle);
}

#[test]
fn test_dead_code_under_isolated_dense_cycles() {
    let mut graph = CodeGraph::new();
    let main_fn = helper_create_symbol(&mut graph, "src/main.rs", "main", true);
    let used_fn = helper_create_symbol(&mut graph, "src/lib.rs", "used_work", false);
    graph.add_edge(main_fn, used_fn, DependencyEdge::new(EdgeKind::Calls, 10, false)).expect("main->used");

    let c1 = helper_create_symbol(&mut graph, "src/dead.rs", "cycle_1", false);
    let c2 = helper_create_symbol(&mut graph, "src/dead.rs", "cycle_2", false);
    let c3 = helper_create_symbol(&mut graph, "src/dead.rs", "cycle_3", false);
    let edge = DependencyEdge::new(EdgeKind::Calls, 5, false);
    graph.add_edge(c1, c2, edge.clone()).expect("c1->c2");
    graph.add_edge(c2, c1, edge.clone()).expect("c2->c1");
    graph.add_edge(c2, c3, edge.clone()).expect("c2->c3");
    graph.add_edge(c3, c2, edge.clone()).expect("c3->c2");
    graph.add_edge(c3, c1, edge.clone()).expect("c3->c1");
    graph.add_edge(c1, c3, edge).expect("c1->c3");

    let report = DeadCodeDetector::new(&graph).find_dead_symbols();
    assert!(!report.dead_symbols.iter().any(|d| d.symbol.id == main_fn));
    assert!(!report.dead_symbols.iter().any(|d| d.symbol.id == used_fn));
    assert_eq!(report.dead_symbols.len(), 3);
    for item in &report.dead_symbols {
        assert_eq!(item.reason, DeadSymbolReason::IsolatedDeadCycle);
    }
}

#[test]
fn test_multiple_distinct_entrypoints_reachability() {
    let mut graph = CodeGraph::new();
    let id_main = helper_create_symbol(&mut graph, "src/main.rs", "main", true);
    let id_worker = helper_create_symbol(&mut graph, "src/worker.rs", "process_queue", false);
    let id_cli = helper_create_symbol(&mut graph, "src/cli.rs", "run", true);
    let id_parser = helper_create_symbol(&mut graph, "src/parser.rs", "parse_flags", false);
    let id_route = helper_create_symbol(&mut graph, "src/routes.rs", "handler", true);
    let id_auth = helper_create_symbol(&mut graph, "src/auth.rs", "verify_token", false);
    let id_dead = helper_create_symbol(&mut graph, "src/unused.rs", "unused_calculator", false);

    let edge = DependencyEdge::new(EdgeKind::Calls, 10, false);
    graph.add_edge(id_main, id_worker, edge.clone()).expect("main->worker");
    graph.add_edge(id_cli, id_parser, edge.clone()).expect("cli->parser");
    graph.add_edge(id_route, id_auth, edge).expect("route->auth");

    let report = DeadCodeDetector::new(&graph).find_dead_symbols();
    assert_eq!(report.total_dead_count, 1);
    assert_eq!(report.dead_symbols[0].symbol.id, id_dead);
    assert_eq!(report.dead_symbols[0].reason, DeadSymbolReason::UnreferencedInternalSymbol);
}

#[test]
fn test_dead_function_calling_live_function() {
    let mut graph = CodeGraph::new();
    let id_main = helper_create_symbol(&mut graph, "src/main.rs", "main", true);
    let id_shared = helper_create_symbol(&mut graph, "src/util.rs", "format_string", false);
    let id_dead = helper_create_symbol(&mut graph, "src/dead.rs", "deprecated_printer", false);

    let edge = DependencyEdge::new(EdgeKind::Calls, 5, false);
    graph.add_edge(id_main, id_shared, edge.clone()).expect("main->shared");
    graph.add_edge(id_dead, id_shared, edge).expect("dead->shared");

    let report = DeadCodeDetector::new(&graph).find_dead_symbols();
    assert!(!report.dead_symbols.iter().any(|d| d.symbol.id == id_shared));
    assert_eq!(report.total_dead_count, 1);
    assert_eq!(report.dead_symbols[0].symbol.id, id_dead);
}

#[test]
fn test_dead_tree_with_nested_branches() {
    let mut graph = CodeGraph::new();
    helper_create_symbol(&mut graph, "src/main.rs", "main", true);
    let id_d0 = helper_create_symbol(&mut graph, "src/old.rs", "dead_root", false);
    let id_d1 = helper_create_symbol(&mut graph, "src/old.rs", "dead_child_1", false);
    let id_d2 = helper_create_symbol(&mut graph, "src/old.rs", "dead_child_2", false);
    let id_d3 = helper_create_symbol(&mut graph, "src/old.rs", "dead_grandchild", false);

    let edge = DependencyEdge::new(EdgeKind::Calls, 5, false);
    graph.add_edge(id_d0, id_d1, edge.clone()).expect("d0->d1");
    graph.add_edge(id_d0, id_d2, edge.clone()).expect("d0->d2");
    graph.add_edge(id_d1, id_d3, edge).expect("d1->d3");

    let report = DeadCodeDetector::new(&graph).find_dead_symbols();
    assert_eq!(report.total_dead_count, 4);
    let dead_ids: Vec<SymbolId> = report.dead_symbols.iter().map(|d| d.symbol.id).collect();
    assert!(dead_ids.contains(&id_d0));
    assert!(dead_ids.contains(&id_d1));
    assert!(dead_ids.contains(&id_d2));
    assert!(dead_ids.contains(&id_d3));
}

#[test]
fn test_zero_dead_code_in_fully_reachable_repository() {
    let mut graph = CodeGraph::new();
    let id_entry = helper_create_symbol(&mut graph, "src/main.rs", "main", true);
    let mut prev_id = id_entry;
    for i in 0..10 {
        let id_node = helper_create_symbol(&mut graph, "src/pipeline.rs", &format!("step_{i}"), false);
        graph.add_edge(prev_id, id_node, DependencyEdge::new(EdgeKind::Calls, 10, false)).expect("step edge");
        prev_id = id_node;
    }
    let report = DeadCodeDetector::new(&graph).find_dead_symbols();
    assert_eq!(report.total_dead_count, 0);
    assert!(report.dead_symbols.is_empty());
}

#[test]
fn test_dynamic_reanalysis_after_wiring_dead_symbol_to_entrypoint() {
    let mut graph = CodeGraph::new();
    let id_main = helper_create_symbol(&mut graph, "src/main.rs", "main", true);
    let id_orphan = helper_create_symbol(&mut graph, "src/feature.rs", "new_feature_engine", false);

    let rep1 = DeadCodeDetector::new(&graph).find_dead_symbols();
    assert_eq!(rep1.total_dead_count, 1);
    assert_eq!(rep1.dead_symbols[0].symbol.id, id_orphan);

    graph.add_edge(id_main, id_orphan, DependencyEdge::new(EdgeKind::Calls, 1, false)).expect("wire edge");

    let rep2 = DeadCodeDetector::new(&graph).find_dead_symbols();
    assert_eq!(rep2.total_dead_count, 0);
}

#[test]
fn test_complex_multi_module_dead_code_analysis() {
    let mut graph = CodeGraph::new();
    let id_api = helper_create_symbol(&mut graph, "src/api/auth.rs", "handle_auth", true);
    let id_crypto = helper_create_symbol(&mut graph, "src/crypto/jwt.rs", "verify_jwt_token", false);
    helper_create_symbol(&mut graph, "src/crypto/legacy.rs", "verify_md5_hash", false);
    let id_da = helper_create_symbol(&mut graph, "src/old/a.rs", "deprecated_parser_a", false);
    let id_db = helper_create_symbol(&mut graph, "src/old/b.rs", "deprecated_parser_b", false);
    let id_dc = helper_create_symbol(&mut graph, "src/old/c.rs", "deprecated_parser_c", false);
    let id_test = helper_create_symbol(&mut graph, "tests/auth_test.rs", "test_auth_flow", false);

    let edge = DependencyEdge::new(EdgeKind::Calls, 10, false);
    graph.add_edge(id_api, id_crypto, edge.clone()).expect("api->crypto");
    graph.add_edge(id_test, id_api, edge.clone()).expect("test->api");
    graph.add_edge(id_da, id_db, edge.clone()).expect("da->db");
    graph.add_edge(id_db, id_dc, edge.clone()).expect("db->dc");
    graph.add_edge(id_dc, id_da, edge).expect("dc->da");

    let report = DeadCodeDetector::new(&graph).find_dead_symbols();
    assert_eq!(report.total_dead_count, 4);
    let dead_names: Vec<&str> = report.dead_symbols.iter().map(|d| d.symbol.name.as_str()).collect();
    assert!(dead_names.contains(&"verify_md5_hash"));
    assert!(dead_names.contains(&"deprecated_parser_a"));
    assert!(dead_names.contains(&"deprecated_parser_b"));
    assert!(dead_names.contains(&"deprecated_parser_c"));

    let md5_detail = report.dead_symbols.iter().find(|d| d.symbol.name == "verify_md5_hash").unwrap();
    assert_eq!(md5_detail.reason, DeadSymbolReason::UnreferencedInternalSymbol);
    let da_detail = report.dead_symbols.iter().find(|d| d.symbol.name == "deprecated_parser_a").unwrap();
    assert_eq!(da_detail.reason, DeadSymbolReason::IsolatedDeadCycle);
}

#[test]
fn dead_symbols_come_out_sorted_by_path() {
    let mut graph = CodeGraph::new();
    helper_create_symbol(&mut graph, "src/z.rs", "zeta", false);
    helper_create_symbol(&mut graph, "src/a.rs", "alpha", false);
    helper_create_symbol(&mut graph, "src/m.rs", "mu", false);
    let report = DeadCodeDetector::new(&graph).find_dead_symbols();
    let paths: Vec<&str> = report.dead_symbols.iter().map(|d| d.symbol.file_path.as_str()).collect();
    assert_eq!(paths, vec!["src/a.rs", "src/m.rs", "src/z.rs"]);
}

#[test]
fn repeated_calls_from_one_caller_count_once() {
    let mut graph = CodeGraph::new();
    let t = helper_create_symbol(&mut graph, "src/core.rs", "t", false);
    let c = helper_create_symbol(&mut graph, "src/api.rs", "c", false);
    graph.add_edge(c, t, DependencyEdge::new(EdgeKind::Calls, 3, false)).expect("first call");
    graph.add_edge(c, t, DependencyEdge::new(EdgeKind::Calls, 7, false)).expect("second call");
    let report = BlastRadiusCalculator::new(&graph).calculate_impact(&t, 5).expect("report");
    assert_eq!(report.direct_callers.len(), 2);
    assert_eq!(report.total_affected_symbols, 1);
}
