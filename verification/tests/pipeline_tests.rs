use std::time::Instant;

use loom_topo::blast_radius::BlastRadiusCalculator;
use loom_topo::dead_code::DeadCodeDetector;
use loom_topo::error::AstError;
use loom_topo::graph::CodeGraph;
use loom_topo::id::SymbolId;
use loom_topo::parser::{AstEngine, ParsedFile, RawCallReference};
use loom_topo::pipeline::{
    index_source, resolve_caller_symbol, skips_directory, try_reconcile_batch, try_reconcile_parsed_file, watch_action,
    WatchAction,
};
use loom_topo::symbol::{SymbolKind, SymbolNode};

fn parse_batch(engine: &mut AstEngine, files: &[(&str, &str)]) -> Vec<(String, ParsedFile)> {
    files
        .iter()
        .map(|(path, src)| (path.to_string(), engine.parse_source(path, src).expect("parse")))
        .collect()
}

#[test]
fn test_single_file_incremental_indexing_latency() {
    let mut engine = AstEngine::new();
    let mut graph = CodeGraph::new();
    let source = "pub fn helper() {}\npub fn entrypoint() {\n    helper();\n}\n";

    let start = Instant::now();
    let done = index_source(&mut engine, &mut graph, "service.rs", source).expect("index successful");
    let duration = start.elapsed();
    assert!(done);
    assert!(duration.as_millis() < 50, "Indexing must be fast (took {duration:?})");

    assert_eq!(graph.node_count(), 2);
    assert_eq!(graph.edge_count(), 1);

    let helpers = graph.get_symbols_by_name("helper");
    assert_eq!(helpers.len(), 1);
    let callers = graph.get_callers(&helpers[0].id);
    assert_eq!(callers.len(), 1);
    assert_eq!(callers[0].0.name, "entrypoint");
}

#[test]
fn test_batch_indexing_and_file_removal() {
    let mut engine = AstEngine::new();
    let mut graph = CodeGraph::new();
    let batch = parse_batch(&mut engine, &[("mod1.rs", "pub fn alpha() {}"), ("mod2.rs", "pub fn beta() { alpha(); }")]);
    assert!(try_reconcile_batch(&mut graph, &batch));

    assert_eq!(graph.node_count(), 2);
    assert_eq!(graph.file_count(), 2);
    assert_eq!(graph.edge_count(), 1);

    graph.invalidate_file("mod1.rs");

    assert_eq!(graph.node_count(), 1);
    assert_eq!(graph.file_count(), 1);
    assert_eq!(graph.edge_count(), 0);
}

#[test]
fn test_end_to_end_polyglot_workspace_indexing() {
    let mut engine = AstEngine::new();
    let mut graph = CodeGraph::new();
    let batch = parse_batch(
        &mut engine,
        &[
            ("auth.rs", "pub fn verify_token() -> bool { true }\npub fn handle_login() { verify_token(); }"),
            ("client.ts", "class ApiClient { login() { callApi(); } }\nfunction callApi() {}"),
            ("worker.py", "def process_job():\n    fetch_task()\ndef fetch_task():\n    pass"),
        ],
    );
    let start = Instant::now();
    assert!(try_reconcile_batch(&mut graph, &batch));
    let total_elapsed = start.elapsed();
    assert!(total_elapsed.as_millis() < 500, "Batch indexing took {total_elapsed:?}");

    assert_eq!(graph.file_count(), 3);
    assert_eq!(graph.node_count(), 7);
    assert_eq!(graph.edge_count(), 3);

    let verify_syms = graph.get_symbols_by_name("verify_token");
    assert_eq!(verify_syms.len(), 1);
    let callers = graph.get_callers(&verify_syms[0].id);
    assert_eq!(callers.len(), 1);
    assert_eq!(callers[0].0.name, "handle_login");

    let call_api_syms = graph.get_symbols_by_name("callApi");
    assert_eq!(call_api_syms.len(), 1);
    let ts_callers = graph.get_callers(&call_api_syms[0].id);
    assert_eq!(ts_callers.len(), 1);
    assert_eq!(ts_callers[0].0.name, "login");

    let fetch_task_syms = graph.get_symbols_by_name("fetch_task");
    assert_eq!(fetch_task_syms.len(), 1);
    let py_callers = graph.get_callers(&fetch_task_syms[0].id);
    assert_eq!(py_callers.len(), 1);
    assert_eq!(py_callers[0].0.name, "process_job");

    let modified = "pub fn verify_token() -> bool { true }\npub fn refresh_token() { verify_token(); }";
    let _ = index_source(&mut engine, &mut graph, "auth.rs", modified);
    let start = Instant::now();
    assert_eq!(index_source(&mut engine, &mut graph, "auth.rs", modified).expect("re-index"), true);
    let reindex_duration = start.elapsed();
    assert!(
        reindex_duration.as_millis() < 5,
        "Single file incremental index must be < 5ms (took {reindex_duration:?})"
    );

    assert_eq!(graph.file_count(), 3);
    assert_eq!(graph.node_count(), 7);
    assert!(graph.get_symbols_by_name("handle_login").is_empty());
    let refresh_syms = graph.get_symbols_by_name("refresh_token");
    assert_eq!(refresh_syms.len(), 1);
    let verify_syms = graph.get_symbols_by_name("verify_token");
    let callers = graph.get_callers(&verify_syms[0].id);
    assert_eq!(callers.len(), 1);
    assert_eq!(callers[0].0.name, "refresh_token");
}

#[test]
fn test_end_to_end_ast_graph_blast_radius_and_dead_code_pipeline() {
    let mut engine = AstEngine::new();
    let mut graph = CodeGraph::new();
    let batch = parse_batch(
        &mut engine,
        &[
            ("src/main.rs", "\nfn main() {\n    handle_request();\n}\n"),
            ("src/api.rs", "\npub fn handle_request() {\n    helper_calc();\n}\n\nfn helper_calc() {\n    db_query();\n}\n"),
            ("src/db.rs", "\npub fn db_query() {\n    // executes query\n}\n\nfn dead_backup_routine() {\n    // old unused routine\n}\n"),
            ("tests/api_test.rs", "\nfn test_handle_request() {\n    handle_request();\n}\n"),
        ],
    );
    let start = Instant::now();
    assert!(try_reconcile_batch(&mut graph, &batch));
    assert!(start.elapsed().as_millis() < 500);

    {
        let db_symbols = graph.get_symbols_for_file("src/db.rs");
        let db_query_sym = db_symbols.iter().find(|s| s.name == "db_query").expect("db_query symbol must exist");
        let report = BlastRadiusCalculator::new(&graph).calculate_impact(&db_query_sym.id, 5).expect("report must be generated");
        assert_eq!(report.target_symbol.name, "db_query");
        assert_eq!(report.direct_callers.len(), 1);
        assert_eq!(report.direct_callers[0].name, "helper_calc");
        assert!(report.transitive_callers.iter().any(|c| c.name == "handle_request"));
        assert_eq!(report.associated_tests.len(), 1);
        assert_eq!(report.associated_tests[0].name, "test_handle_request");

        let dead_report = DeadCodeDetector::new(&graph).find_dead_symbols();
        assert!(
            dead_report.dead_symbols.iter().any(|d| d.symbol.name == "dead_backup_routine"),
            "dead_backup_routine must be flagged as dead code"
        );
    }

    let updated = "\npub fn db_query() {\n    dead_backup_routine();\n}\n\nfn dead_backup_routine() {\n    // now actively called!\n}\n";
    let updated_result = index_source(&mut engine, &mut graph, "src/db.rs", updated);
    assert!(updated_result.is_ok());

    let dead_report = DeadCodeDetector::new(&graph).find_dead_symbols();
    assert!(
        !dead_report.dead_symbols.iter().any(|d| d.symbol.name == "dead_backup_routine"),
        "dead_backup_routine is now wired into the live call tree and must NOT be dead code"
    );
}

#[test]
fn index_source_refuses_unknown_language_and_leaves_graph() {
    let mut engine = AstEngine::new();
    let mut graph = CodeGraph::new();
    index_source(&mut engine, &mut graph, "a.rs", "pub fn a() {}").expect("index");
    let r = index_source(&mut engine, &mut graph, "notes.md", "# notes");
    assert!(matches!(r, Err(AstError::UnsupportedLanguage(_))));
    assert_eq!(graph.node_count(), 1);
    assert_eq!(graph.file_count(), 1);
}

#[test]
fn reindexing_a_file_is_idempotent() {
    let mut engine = AstEngine::new();
    let mut graph = CodeGraph::new();
    let src = "pub fn a() { b(); }\npub fn b() {}\n";
    index_source(&mut engine, &mut graph, "x.rs", src).expect("index");
    let (n, e) = (graph.node_count(), graph.edge_count());
    index_source(&mut engine, &mut graph, "x.rs", src).expect("index again");
    assert_eq!((graph.node_count(), graph.edge_count()), (n, e));
    assert_eq!((n, e), (2, 1));
}

fn node(name: &str, lines: (u32, u32), kind: SymbolKind) -> SymbolNode {
    let id = SymbolId::derive("src/x.rs", &[], name, name);
    SymbolNode::new(id, name, kind, "src/x.rs", (0, 1), lines, None, name, true, 1)
}

#[test]
fn caller_is_the_innermost_enclosing_callable() {
    let syms = vec![
        node("Outer", (1, 20), SymbolKind::Struct),
        node("outer_fn", (2, 19), SymbolKind::Function),
        node("inner_fn", (5, 8), SymbolKind::Method),
        node("twin_fn", (5, 8), SymbolKind::Function),
    ];
    assert_eq!(resolve_caller_symbol(&syms, 6), Some(2));
    assert_eq!(resolve_caller_symbol(&syms, 10), Some(1));
    assert_eq!(resolve_caller_symbol(&syms, 1), Some(0));
    assert_eq!(resolve_caller_symbol(&syms, 30), None);
}

#[test]
fn calls_outside_any_symbol_add_no_edge() {
    let mut engine = AstEngine::new();
    let mut graph = CodeGraph::new();
    let mut parsed = engine.parse_source("m.rs", "pub fn target() {}\n").expect("parse");
    parsed.raw_calls.push(RawCallReference { callee_name: "target".to_string(), line: 40, byte_range: (0, 0), is_conditional: false });
    assert!(try_reconcile_parsed_file(&mut graph, "m.rs", parsed));
    assert_eq!(graph.node_count(), 1);
    assert_eq!(graph.edge_count(), 0);
}

#[test]
fn watcher_decisions_and_skipped_directories() {
    assert_eq!(watch_action(true, true), WatchAction::Index);
    assert_eq!(watch_action(true, false), WatchAction::Ignore);
    assert_eq!(watch_action(false, false), WatchAction::Remove);
    assert_eq!(watch_action(false, true), WatchAction::Remove);
    assert!(skips_directory(".git"));
    assert!(skips_directory("target"));
    assert!(skips_directory("node_modules"));
    assert!(!skips_directory("src"));
    assert!(!skips_directory(""));
}

#[test]
fn reindexing_a_file_keeps_calls_from_other_files() {
    let mut engine = AstEngine::new();
    let mut graph = CodeGraph::new();
    let batch = parse_batch(&mut engine, &[("a.rs", "pub fn helper() {}"), ("b.rs", "pub fn caller() { helper(); }")]);
    assert!(try_reconcile_batch(&mut graph, &batch));
    assert_eq!(graph.edge_count(), 1);

    assert!(index_source(&mut engine, &mut graph, "a.rs", "pub fn helper() {}").expect("re-index"));
    let helper = graph.get_symbols_by_name("helper")[0].id;
    let callers: Vec<String> = graph.get_callers(&helper).iter().map(|(n, _)| n.name.clone()).collect();
    assert_eq!(callers, vec!["caller".to_string()]);
    assert_eq!(graph.edge_count(), 1);
    assert_eq!(graph.node_count(), 2);

    // A symbol that disappears takes its callers' edges with it.
    assert!(index_source(&mut engine, &mut graph, "a.rs", "pub fn renamed() {}").expect("re-index"));
    assert_eq!(graph.edge_count(), 0);
    assert_eq!(graph.node_count(), 2);
}

#[test]
fn batch_reindex_keeps_calls_from_files_outside_the_batch() {
    let mut engine = AstEngine::new();
    let mut graph = CodeGraph::new();
    let first = parse_batch(&mut engine, &[("a.rs", "pub fn helper() {}"), ("b.rs", "pub fn caller() { helper(); }")]);
    assert!(try_reconcile_batch(&mut graph, &first));
    let again = parse_batch(&mut engine, &[("a.rs", "pub fn helper() {}\npub fn extra() {}")]);
    assert!(try_reconcile_batch(&mut graph, &again));
    assert_eq!(graph.node_count(), 3);
    assert_eq!(graph.edge_count(), 1);
    let helper = graph.get_symbols_by_name("helper")[0].id;
    assert_eq!(graph.get_callers(&helper)[0].0.name, "caller");
}
