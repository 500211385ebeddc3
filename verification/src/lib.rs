//! Deterministic code-topography library: symbol identity, the dependency graph,
//! reachability queries and impact analysis.
pub mod blast_radius;
pub mod dead_code;
pub mod digraph;
pub mod edge;
pub mod error;
pub mod graph;
pub mod id;
pub mod laws;
pub mod parser;
pub mod pipeline;
pub mod reach;
pub mod symbol;
pub mod syntax;
pub mod text;
pub mod traversal;

pub use edge::{DependencyEdge, EdgeKind};
pub use error::{AnalysisError, GraphError, LoomError};
pub use graph::CodeGraph;
pub use id::SymbolId;
pub use symbol::{SymbolKind, SymbolNode};
