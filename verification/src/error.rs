//! Error types of the library.
use vstd::prelude::*;
use crate::id::SymbolId;

verus! {

/// Errors of identifier parsing and conversion.
#[derive(Debug, PartialEq, Eq, Clone)]
pub enum LoomError {
    /// The text is not the 32-digit hexadecimal form of a `SymbolId`.
    InvalidSymbolIdHex(String),
    /// A byte slice of the wrong length was given for a `SymbolId`.
    InvalidSymbolIdLength(usize),
    /// Serialization or deserialization failure.
    SerializationError(String),
}

/// Errors of graph manipulation and queries.
#[derive(Debug, PartialEq, Eq, Clone)]
pub enum GraphError {
    /// The referenced symbol is not in the graph.
    SymbolNotFound(SymbolId),
    /// The source or the target of a new edge is not in the graph.
    EndpointNotFound,
    /// Graph serialization or deserialization failure.
    SerializationError(String),
}

#[verifier::external_type_specification]
#[verifier::external_body]
pub struct ExIoError(std::io::Error);

/// Errors of source parsing and symbol extraction.
#[derive(Debug)]
pub enum AstError {
    /// No language is configured for the file's extension.
    UnsupportedLanguage(String),
    /// The parser produced no syntax tree for the file.
    ParseFailed(String),
    /// A symbol or call query failed to compile for the language.
    QueryCompilationError {
        /// Language name.
        language: &'static str,
        /// Description of the failure.
        message: String,
    },
    /// The source file could not be read.
    IoError {
        /// Path of the file.
        path: String,
        /// The underlying error.
        source: std::io::Error,
    },
}

/// Errors of graph analysis.
#[derive(Debug, PartialEq, Eq, Clone)]
pub enum AnalysisError {
    /// The named symbol is not in the graph.
    SymbolNotFound(String),
}

} // verus!
