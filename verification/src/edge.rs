//! Dependency edges connecting symbols in the dependency graph.
use vstd::prelude::*;

verus! {

/// Category of the structural or behavioral relationship between two symbols.
#[derive(Clone, Copy, PartialEq, Eq, Structural, Hash, Debug)]
pub enum EdgeKind {
    /// Function or method invocation.
    Calls,
    /// Instantiation of a struct, class, or type instance.
    Instantiates,
    /// Type implementing an interface or trait contract.
    Implements,
    /// Parameter, field, or return type reference.
    ReferencesType,
    /// Subclassing or structural inheritance.
    Inherits,
    /// File or module import statement.
    Imports,
}

impl EdgeKind {
    /// The snake_case identifier of the edge kind.
    pub open spec fn spec_name(self) -> Seq<char> {
        match self {
            EdgeKind::Calls => "calls"@,
            EdgeKind::Instantiates => "instantiates"@,
            EdgeKind::Implements => "implements"@,
            EdgeKind::ReferencesType => "references_type"@,
            EdgeKind::Inherits => "inherits"@,
            EdgeKind::Imports => "imports"@,
        }
    }

    /// Returns a human-readable identifier for the edge kind.
    pub fn as_str(&self) -> (s: &'static str)
        ensures
            s@ == self.spec_name(),
    {
        match self {
            EdgeKind::Calls => "calls",
            EdgeKind::Instantiates => "instantiates",
            EdgeKind::Implements => "implements",
            EdgeKind::ReferencesType => "references_type",
            EdgeKind::Inherits => "inherits",
            EdgeKind::Imports => "imports",
        }
    }
}

/// A directed edge from a dependant (source, the caller) to a dependency (target, the callee).
#[derive(Clone, Copy, PartialEq, Eq, Structural, Debug)]
pub struct DependencyEdge {
    /// The category of dependency.
    pub kind: EdgeKind,
    /// 1-indexed line in the source file where the dependency originates.
    pub call_site_line: u32,
    /// Whether the dependency occurs inside a branching context.
    pub is_conditional: bool,
}

impl DependencyEdge {
    /// Constructs a new `DependencyEdge`.
    pub fn new(kind: EdgeKind, call_site_line: u32, is_conditional: bool) -> (e: Self)
        ensures
            e.kind == kind,
            e.call_site_line == call_site_line,
            e.is_conditional == is_conditional,
    {
        DependencyEdge { kind, call_site_line, is_conditional }
    }
}

} // verus!
