use std::time::Instant;

use loom_topo::error::AstError;
use loom_topo::id::SymbolId;
use loom_topo::parser::{
    calls_from_matches, calls_of_run, symbols_from_matches, symbols_of_run, AstEngine, CaptureRecord, Language, QueryRun,
};
use loom_topo::symbol::SymbolKind;

#[test]
fn test_rust_ast_extraction() {
    let mut engine = AstEngine::new();
    let source = r"
        pub struct User {
            pub id: u64,
            pub name: String,
        }

        pub enum Role {
            Admin,
            User,
        }

        pub fn process_order(user_id: u64) -> bool {
            validate_user(user_id);
            true
        }
        ";

    let parsed = engine.parse_source("src/order.rs", source).expect("parse rust source");

    assert_eq!(parsed.symbols.len(), 3);
    assert_eq!(parsed.symbols[0].name, "User");
    assert_eq!(parsed.symbols[0].kind, SymbolKind::Struct);

    assert_eq!(parsed.symbols[1].name, "Role");
    assert_eq!(parsed.symbols[1].kind, SymbolKind::Enum);

    assert_eq!(parsed.symbols[2].name, "process_order");
    assert_eq!(parsed.symbols[2].kind, SymbolKind::Function);

    assert_eq!(parsed.raw_calls.len(), 1);
    assert_eq!(parsed.raw_calls[0].callee_name, "validate_user");
    assert_eq!(parsed.raw_calls[0].line, 13);
}

#[test]
fn test_typescript_ast_extraction() {
    let mut engine = AstEngine::new();
    let source = r"
        interface AuthConfig {
            secret: string;
        }

        class AuthService {
            login(username: string): boolean {
                return checkPassword(username);
            }
        }
        ";

    let parsed = engine.parse_source("src/auth.ts", source).expect("parse typescript source");

    assert_eq!(parsed.symbols.len(), 3);
    assert_eq!(parsed.symbols[0].name, "AuthConfig");
    assert_eq!(parsed.symbols[0].kind, SymbolKind::Interface);

    assert_eq!(parsed.symbols[1].name, "AuthService");
    assert_eq!(parsed.symbols[1].kind, SymbolKind::Struct);

    assert_eq!(parsed.symbols[2].name, "login");
    assert_eq!(parsed.symbols[2].kind, SymbolKind::Method);

    assert_eq!(parsed.raw_calls.len(), 1);
    assert_eq!(parsed.raw_calls[0].callee_name, "checkPassword");
}

#[test]
fn test_python_ast_extraction() {
    let mut engine = AstEngine::new();
    let source = r"
class PaymentProcessor:
    def process(self, amount):
        verify_funds(amount)
        ";

    let parsed = engine.parse_source("payment.py", source).expect("parse python source");

    assert_eq!(parsed.symbols.len(), 2);
    assert_eq!(parsed.symbols[0].name, "PaymentProcessor");
    assert_eq!(parsed.symbols[0].kind, SymbolKind::Struct);

    assert_eq!(parsed.symbols[1].name, "process");
    assert_eq!(parsed.symbols[1].kind, SymbolKind::Function);

    assert_eq!(parsed.raw_calls.len(), 1);
    assert_eq!(parsed.raw_calls[0].callee_name, "verify_funds");
}

#[test]
fn test_complex_rust_parsing() {
    let mut engine = AstEngine::new();
    let source = r#"
    pub mod network {
        pub const DEFAULT_TIMEOUT_SECS: u64 = 30;

        pub trait Transport {
            fn send(&self, payload: &[u8]) -> Result<(), Error>;
        }

        pub struct TcpTransport<C> {
            config: C,
        }

        pub enum ConnectionState {
            Disconnected,
            Connected(u64),
        }

        pub type TransportResult<T> = Result<T, Error>;

        pub async fn establish_connection() -> TransportResult<TcpTransport<()>> {
            init_socket();
            Ok(TcpTransport { config: () })
        }
    }
    "#;

    let parsed = engine.parse_source("src/network/mod.rs", source).expect("parse complex rust source");
    let symbol_names: Vec<&str> = parsed.symbols.iter().map(|s| s.name.as_str()).collect();

    assert!(symbol_names.contains(&"network"));
    assert!(symbol_names.contains(&"DEFAULT_TIMEOUT_SECS"));
    assert!(symbol_names.contains(&"Transport"));
    assert!(symbol_names.contains(&"TcpTransport"));
    assert!(symbol_names.contains(&"ConnectionState"));
    assert!(symbol_names.contains(&"TransportResult"));
    assert!(symbol_names.contains(&"establish_connection"));

    let calls: Vec<&str> = parsed.raw_calls.iter().map(|c| c.callee_name.as_str()).collect();
    assert!(calls.contains(&"init_socket"));
}

#[test]
fn test_complex_typescript_tsx_parsing() {
    let mut engine = AstEngine::new();
    let tsx_source = r#"
    export type ThemeMode = "light" | "dark";

    export interface ButtonProps {
        label: string;
        onClick: () => void;
    }

    export class ComponentRenderer {
        renderButton(props: ButtonProps) {
            trackAnalytics("button_rendered");
            return formatButton(props.label);
        }
    }
    "#;

    let parsed = engine.parse_source("src/ui/Button.tsx", tsx_source).expect("parse tsx source");

    assert_eq!(parsed.symbols.len(), 4);
    assert_eq!(parsed.symbols[0].name, "ThemeMode");
    assert_eq!(parsed.symbols[0].kind, SymbolKind::TypeAlias);

    assert_eq!(parsed.symbols[1].name, "ButtonProps");
    assert_eq!(parsed.symbols[1].kind, SymbolKind::Interface);

    assert_eq!(parsed.symbols[2].name, "ComponentRenderer");
    assert_eq!(parsed.symbols[2].kind, SymbolKind::Struct);

    assert_eq!(parsed.symbols[3].name, "renderButton");
    assert_eq!(parsed.symbols[3].kind, SymbolKind::Method);

    let calls: Vec<&str> = parsed.raw_calls.iter().map(|c| c.callee_name.as_str()).collect();
    assert!(calls.contains(&"trackAnalytics"));
    assert!(calls.contains(&"formatButton"));
}

#[test]
fn test_python_parsing_and_performance_latency() {
    let mut engine = AstEngine::new();
    let py_source = r#"
class DataAggregator:
    def __init__(self, endpoint):
        self.endpoint = endpoint

    def fetch_records(self, limit):
        raw = http_get(self.endpoint, limit)
        return parse_records(raw)

def run_pipeline():
    aggregator = DataAggregator("https://api.example.com")
    aggregator.fetch_records(100)
    "#;

    let start = Instant::now();
    let parsed = engine.parse_source("etl/aggregator.py", py_source).expect("parse python source");
    let duration = start.elapsed();

    assert!(duration.as_millis() < 5, "Tree-sitter parse took {duration:?}, expected < 5ms");

    assert_eq!(parsed.symbols.len(), 4);
    assert_eq!(parsed.symbols[0].name, "DataAggregator");
    assert_eq!(parsed.symbols[1].name, "__init__");
    assert_eq!(parsed.symbols[2].name, "fetch_records");
    assert_eq!(parsed.symbols[3].name, "run_pipeline");

    assert_eq!(parsed.raw_calls.len(), 4);
}

#[test]
fn test_malformed_syntax_graceful_degradation() {
    let mut engine = AstEngine::new();
    let broken_rust = "pub fn broken( { let x = ;";
    let res = engine.parse_source("broken.rs", broken_rust);
    assert!(res.is_ok());
}

#[test]
fn unsupported_extension_is_refused_with_the_path() {
    let mut engine = AstEngine::new();
    match engine.parse_source("README.md", "# title") {
        Err(AstError::UnsupportedLanguage(p)) => assert_eq!(p, "README.md"),
        other => panic!("unexpected {:?}", other.map(|p| p.symbols.len())),
    }
    assert!(matches!(engine.parse_source("Makefile", "all:"), Err(AstError::UnsupportedLanguage(_))));
}

#[test]
fn extracted_symbols_carry_ids_signatures_and_visibility() {
    let mut engine = AstEngine::new();
    let source = "pub fn visible(a: u32) -> u32 {\n    a\n}\nfn hidden() {}\n";
    let parsed = engine.parse_source("src/lib.rs", source).expect("parse");
    assert_eq!(parsed.symbols.len(), 2);
    let visible = &parsed.symbols[0];
    assert_eq!(visible.signature, "pub fn visible(a: u32) -> u32 {");
    assert_eq!(visible.line_range, (1, 3));
    assert_eq!(visible.file_path, "src/lib.rs");
    assert_eq!(visible.id, SymbolId::derive("src/lib.rs", &[], "visible", "pub fn visible(a: u32) -> u32 {"));
    assert!(visible.is_exported);
    assert!(!parsed.symbols[1].is_exported);

    let ts = engine
        .parse_source("src/a.ts", "export function shown() {}\nfunction kept() {}\n")
        .expect("parse ts");
    assert_eq!(ts.symbols.len(), 2);
    assert!(ts.symbols[0].is_exported);
    assert!(!ts.symbols[1].is_exported);

    let py = engine.parse_source("a.py", "def public():\n    pass\ndef _private():\n    pass\n").expect("parse py");
    assert!(py.symbols[0].is_exported);
    assert!(!py.symbols[1].is_exported);
}

#[test]
fn language_detection_and_names() {
    assert_eq!(Language::from_path("src/lib.rs"), Some(Language::Rust));
    assert_eq!(Language::from_path("web/app.ts"), Some(Language::TypeScript));
    assert_eq!(Language::from_path("web/App.tsx"), Some(Language::Tsx));
    assert_eq!(Language::from_path("etl/job.py"), Some(Language::Python));
    assert_eq!(Language::from_path("notes.txt"), None);
    assert_eq!(Language::from_path("noext"), None);
    assert_eq!(Language::from_extension("py"), Some(Language::Python));
    assert_eq!(Language::from_extension("RS"), None);
    assert_eq!("Rust".parse::<Language>(), Ok(Language::Rust));
    assert_eq!("TS".parse::<Language>(), Ok(Language::TypeScript));
    assert_eq!("tsx".parse::<Language>(), Ok(Language::Tsx));
    assert_eq!("PY".parse::<Language>(), Ok(Language::Python));
    assert_eq!("go".parse::<Language>(), Err(()));
    assert!(Language::Python.symbols_query().contains("(class_definition name: (identifier) @name) @def.struct"));
    assert!(Language::Rust.calls_query().contains("(scoped_identifier name: (identifier) @call.name)"));
    assert_eq!(Language::Tsx.symbols_query(), Language::TypeScript.symbols_query());
}

fn record(index: u32, text: &str, row: usize, parent: Option<&str>) -> CaptureRecord {
    CaptureRecord {
        index,
        text: Some(text.to_string()),
        start_row: row,
        end_row: row + 2,
        start_byte: 10,
        end_byte: 40,
        parent_kind: parent.map(|p| p.to_string()),
    }
}

#[test]
fn symbols_and_calls_from_capture_records() {
    let names = vec!["name".to_string(), "def.struct".to_string()];
    let matches = vec![
        vec![record(0, "Point", 4, None), record(1, "pub struct Point {\n    x: i32,\n}", 4, None)],
        // A match without a name yields nothing.
        vec![record(1, "struct Nameless;", 9, None)],
    ];
    let symbols = symbols_from_matches(&matches, &names, "src/geo.rs", Language::Rust);
    assert_eq!(symbols.len(), 1);
    assert_eq!(symbols[0].name, "Point");
    assert_eq!(symbols[0].kind, SymbolKind::Struct);
    assert_eq!(symbols[0].line_range, (5, 7));
    assert_eq!(symbols[0].byte_range, (10, 40));
    assert_eq!(symbols[0].signature, "pub struct Point {");
    assert!(symbols[0].is_exported);

    let call_names = vec!["call.name".to_string(), "call.site".to_string()];
    let calls = calls_from_matches(
        &vec![
            vec![record(0, "helper", 2, None), record(1, "helper()", 2, None)],
            vec![record(0, "", 3, None), record(1, "()", 3, None)],
        ],
        &call_names,
    );
    assert_eq!(calls.len(), 1);
    assert_eq!(calls[0].callee_name, "helper");
    assert_eq!(calls[0].line, 3);
    assert_eq!(calls[0].byte_range, (10, 40));
    assert!(!calls[0].is_conditional);
}

#[test]
fn query_runs_map_to_symbols_calls_and_errors() {
    let names = vec!["name".to_string(), "def.function".to_string()];
    let run = QueryRun::Matches(names, vec![vec![record(0, "main", 0, None), record(1, "fn main() {}", 0, None)]]);
    let symbols = symbols_of_run(&run, Language::Rust, "src/main.rs").expect("symbols");
    assert_eq!(symbols.len(), 1);
    assert_eq!(symbols[0].name, "main");
    assert_eq!(symbols[0].kind, SymbolKind::Function);
    assert!(!symbols[0].is_exported);

    let invalid = QueryRun::Invalid("bad pattern".to_string());
    match symbols_of_run(&invalid, Language::Tsx, "a.tsx") {
        Err(AstError::QueryCompilationError { language, message }) => {
            assert_eq!(language, "typescript");
            assert_eq!(message, "bad pattern");
        },
        other => panic!("unexpected {other:?}"),
    }
    match calls_of_run(&QueryRun::Invalid("Invalid node type".to_string()), Language::Python, "a.py") {
        Err(AstError::QueryCompilationError { language, message }) => {
            assert_eq!(language, "python");
            assert_eq!(message, "Invalid node type");
        },
        other => panic!("unexpected {other:?}"),
    }
    let call_names = vec!["call.name".to_string(), "call.site".to_string()];
    let calls = calls_of_run(
        &QueryRun::Matches(call_names, vec![vec![record(0, "run", 6, None), record(1, "run()", 6, None)]]),
        Language::Python,
        "a.py",
    )
    .expect("calls");
    assert_eq!(calls.len(), 1);
    assert_eq!(calls[0].callee_name, "run");
    assert_eq!(calls[0].line, 7);
}

#[test]
fn parsing_reads_the_source_not_the_query_text() {
    let mut engine = AstEngine::new();
    let parsed = engine.parse_source("lib.py", "def first():\n    pass\n\ndef second():\n    first()\n").expect("parse");
    assert_eq!(parsed.symbols.len(), 2);
    assert_eq!(parsed.symbols[0].name, "first");
    assert_eq!(parsed.symbols[1].name, "second");
    assert_eq!(parsed.symbols[1].line_range, (4, 5));
    assert_eq!(parsed.raw_calls.len(), 1);
    assert_eq!(parsed.raw_calls[0].callee_name, "first");
    assert_eq!(parsed.raw_calls[0].line, 5);
}
