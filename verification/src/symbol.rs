//! Symbol nodes and their categories.
use vstd::prelude::*;
use crate::id::SymbolId;

verus! {

/// Classification of a semantic unit within the codebase.
#[derive(Clone, Copy, PartialEq, Eq, Structural, Hash, Debug)]
pub enum SymbolKind {
    /// Standalone function definition.
    Function,
    /// Associated method within a struct, class, or impl block.
    Method,
    /// Data structure or class declaration.
    Struct,
    /// Enumeration type.
    Enum,
    /// Trait or abstract contract.
    Trait,
    /// Interface contract.
    Interface,
    /// Type alias or typedef.
    TypeAlias,
    /// Constant or static value.
    Constant,
    /// Module or namespace boundary.
    Module,
}

impl SymbolKind {
    /// Callable kinds: functions and methods.
    pub open spec fn spec_is_callable(self) -> bool {
        self is Function || self is Method
    }

    /// Type-defining kinds.
    pub open spec fn spec_is_type(self) -> bool {
        self is Struct || self is Enum || self is Trait || self is Interface || self is TypeAlias
    }

    /// The snake_case identifier of the kind.
    pub open spec fn spec_name(self) -> Seq<char> {
        match self {
            SymbolKind::Function => "function"@,
            SymbolKind::Method => "method"@,
            SymbolKind::Struct => "struct"@,
            SymbolKind::Enum => "enum"@,
            SymbolKind::Trait => "trait"@,
            SymbolKind::Interface => "interface"@,
            SymbolKind::TypeAlias => "type_alias"@,
            SymbolKind::Constant => "constant"@,
            SymbolKind::Module => "module"@,
        }
    }

    /// Returns true if this symbol represents a callable item (function or method).
    pub fn is_callable(&self) -> (b: bool)
        ensures
            b == self.spec_is_callable(),
    {
        matches!(self, SymbolKind::Function | SymbolKind::Method)
    }

    /// Returns true if this symbol represents a type definition.
    pub fn is_type(&self) -> (b: bool)
        ensures
            b == self.spec_is_type(),
    {
        match self {
            SymbolKind::Struct | SymbolKind::Enum | SymbolKind::Trait | SymbolKind::Interface
            | SymbolKind::TypeAlias => true,
            _ => false,
        }
    }

    /// Returns a human-readable string identifier for the symbol kind.
    pub fn as_str(&self) -> (s: &'static str)
        ensures
            s@ == self.spec_name(),
    {
        match self {
            SymbolKind::Function => "function",
            SymbolKind::Method => "method",
            SymbolKind::Struct => "struct",
            SymbolKind::Enum => "enum",
            SymbolKind::Trait => "trait",
            SymbolKind::Interface => "interface",
            SymbolKind::TypeAlias => "type_alias",
            SymbolKind::Constant => "constant",
            SymbolKind::Module => "module",
        }
    }
}

/// A node of the code graph: one extracted semantic symbol.
#[derive(Debug, PartialEq, Eq)]
pub struct SymbolNode {
    /// Deterministic 128-bit identifier.
    pub id: SymbolId,
    /// Identifier name.
    pub name: String,
    /// Categorization of this symbol.
    pub kind: SymbolKind,
    /// Repository-relative path of the file that defines the symbol.
    pub file_path: String,
    /// Byte offsets `(start, end)` in the source file.
    pub byte_range: (usize, usize),
    /// 1-indexed line boundaries `(start, end)` in the source file.
    pub line_range: (u32, u32),
    /// Extracted documentation comment, if present.
    pub docstring: Option<String>,
    /// Declaration signature.
    pub signature: String,
    /// Whether the symbol is visible outside its immediate scope.
    pub is_exported: bool,
    /// Generational version counter for cache invalidation.
    pub epoch: u64,
}

impl Clone for SymbolNode {
    fn clone(&self) -> (res: Self)
        ensures
            res == *self,
    {
        let docstring = match &self.docstring {
            Some(d) => Some(d.clone()),
            None => None,
        };
        SymbolNode {
            id: self.id,
            name: self.name.clone(),
            kind: self.kind,
            file_path: self.file_path.clone(),
            byte_range: self.byte_range,
            line_range: self.line_range,
            docstring,
            signature: self.signature.clone(),
            is_exported: self.is_exported,
            epoch: self.epoch,
        }
    }
}

impl SymbolNode {
    /// Creates a new `SymbolNode`.
    #[allow(clippy::too_many_arguments)]
    pub fn new(
        id: SymbolId,
        name: &str,
        kind: SymbolKind,
        file_path: &str,
        byte_range: (usize, usize),
        line_range: (u32, u32),
        docstring: Option<String>,
        signature: &str,
        is_exported: bool,
        epoch: u64,
    ) -> (node: Self)
        ensures
            node.id == id,
            node.name@ == name@,
            node.kind == kind,
            node.file_path@ == file_path@,
            node.byte_range == byte_range,
            node.line_range == line_range,
            node.docstring == docstring,
            node.signature@ == signature@,
            node.is_exported == is_exported,
            node.epoch == epoch,
    {
        SymbolNode {
            id,
            name: name.to_owned(),
            kind,
            file_path: file_path.to_owned(),
            byte_range,
            line_range,
            docstring,
            signature: signature.to_owned(),
            is_exported,
            epoch,
        }
    }
}

} // verus!
