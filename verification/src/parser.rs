//! Multi-language source parsing and symbol extraction with tree-sitter.
use vstd::prelude::*;
use crate::error::AstError;
use crate::id::{derived_id, SymbolId};
use crate::symbol::{SymbolKind, SymbolNode};
use crate::syntax::{compile_query, parse_tree, query_matches, ts_compiled, ts_matches, CompiledQuery, SyntaxTree};
use crate::text::{lowercased, seq_starts_with, str_equal, to_lowercase};

verus! {

/// Programming languages that can be parsed.
#[derive(Clone, Copy, PartialEq, Eq, Structural, Hash, Debug)]
pub enum Language {
    /// Rust (`.rs`).
    Rust,
    /// TypeScript (`.ts`).
    TypeScript,
    /// TypeScript with JSX (`.tsx`).
    Tsx,
    /// Python (`.py`).
    Python,
}

/// The extension of a path's file name, as `std::path::Path::extension` finds it under the
/// target platform's path syntax.
pub uninterp spec fn path_extension(path: Seq<char>) -> Option<Seq<char>>;

/// Calls `Path::extension` on `path`: the part of the file name after its last `.`, if the
/// file name has a `.` other than a leading one.
#[verifier::external_body]
fn extension_of(path: &str) -> (r: Option<String>)
    ensures
        match r {
            Some(e) => path_extension(path@) == Some(e@),
            None => path_extension(path@) is None,
        },
{
    std::path::Path::new(path).extension().and_then(|e| e.to_str()).map(|e| e.to_owned())
}

/// The language of a file extension.
pub open spec fn spec_from_extension(ext: Seq<char>) -> Option<Language> {
    if ext == "rs"@ {
        Some(Language::Rust)
    } else if ext == "ts"@ {
        Some(Language::TypeScript)
    } else if ext == "tsx"@ {
        Some(Language::Tsx)
    } else if ext == "py"@ {
        Some(Language::Python)
    } else {
        None
    }
}

/// The language of a file path, by its extension.
pub open spec fn spec_from_path(path: Seq<char>) -> Option<Language> {
    match path_extension(path) {
        Some(e) => spec_from_extension(e),
        None => None,
    }
}

/// The language named by a lowercased name or extension.
pub open spec fn spec_from_lowercase_name(name: Seq<char>) -> Option<Language> {
    if name == "rust"@ || name == "rs"@ {
        Some(Language::Rust)
    } else if name == "typescript"@ || name == "ts"@ {
        Some(Language::TypeScript)
    } else if name == "tsx"@ {
        Some(Language::Tsx)
    } else if name == "python"@ || name == "py"@ {
        Some(Language::Python)
    } else {
        None
    }
}

impl Language {
    /// The language of a file extension: `rs`, `ts`, `tsx` or `py`.
    pub fn from_extension(ext: &str) -> (r: Option<Language>)
        ensures
            r == spec_from_extension(ext@),
    {
        if str_equal(ext, "rs") {
            Some(Language::Rust)
        } else if str_equal(ext, "ts") {
            Some(Language::TypeScript)
        } else if str_equal(ext, "tsx") {
            Some(Language::Tsx)
        } else if str_equal(ext, "py") {
            Some(Language::Python)
        } else {
            None
        }
    }

    /// Detects the programming language from a file path's extension.
    pub fn from_path(path: &str) -> (r: Option<Language>)
        ensures
            r == spec_from_path(path@),
    {
        match extension_of(path) {
            Some(ext) => Language::from_extension(ext.as_str()),
            None => None,
        }
    }

    /// The language named by an already lowercased name: `rust`/`rs`, `typescript`/`ts`,
    /// `tsx`, `python`/`py`.
    pub fn from_lowercase_name(name: &str) -> (r: Option<Language>)
        ensures
            r == spec_from_lowercase_name(name@),
    {
        if str_equal(name, "rust") || str_equal(name, "rs") {
            Some(Language::Rust)
        } else if str_equal(name, "typescript") || str_equal(name, "ts") {
            Some(Language::TypeScript)
        } else if str_equal(name, "tsx") {
            Some(Language::Tsx)
        } else if str_equal(name, "python") || str_equal(name, "py") {
            Some(Language::Python)
        } else {
            None
        }
    }
}

impl std::str::FromStr for Language {
    type Err = ();

    fn from_str(s: &str) -> (r: Result<Language, ()>)
        ensures
            r == match spec_from_lowercase_name(lowercased(s@)) {
                Some(l) => Ok::<Language, ()>(l),
                None => Err(()),
            },
    {
        let lower = to_lowercase(s);
        match Language::from_lowercase_name(lower.as_str()) {
            Some(l) => Ok(l),
            None => Err(()),
        }
    }
}

} // verus!

verus! {

/// The query that captures symbol definitions in a language.
pub open spec fn spec_symbols_query(l: Language) -> Seq<char> {
    match l {
        Language::Rust => r"
                (function_item name: (identifier) @name) @def.function
                (struct_item name: (type_identifier) @name) @def.struct
                (enum_item name: (type_identifier) @name) @def.enum
                (trait_item name: (type_identifier) @name) @def.trait
                (type_item name: (type_identifier) @name) @def.type_alias
                (mod_item name: (identifier) @name) @def.module
                (const_item name: (identifier) @name) @def.constant
                "@,
        Language::TypeScript | Language::Tsx => r"
                (function_declaration name: (identifier) @name) @def.function
                (method_definition name: (property_identifier) @name) @def.method
                (class_declaration name: (type_identifier) @name) @def.struct
                (interface_declaration name: (type_identifier) @name) @def.interface
                (type_alias_declaration name: (type_identifier) @name) @def.type_alias
                (enum_declaration name: (identifier) @name) @def.enum
                "@,
        Language::Python => r"
                (function_definition name: (identifier) @name) @def.function
                (class_definition name: (identifier) @name) @def.struct
                "@,
    }
}

/// The query that captures function and method calls in a language.
pub open spec fn spec_calls_query(l: Language) -> Seq<char> {
    match l {
        Language::Rust => r"
                (call_expression
                  function: [
                    (identifier) @call.name
                    (field_expression field: (field_identifier) @call.name)
                    (scoped_identifier name: (identifier) @call.name)
                  ]) @call.site
                "@,
        Language::TypeScript | Language::Tsx => r"
                (call_expression
                  function: [
                    (identifier) @call.name
                    (member_expression property: (property_identifier) @call.name)
                  ]) @call.site
                "@,
        Language::Python => r"
                (call
                  function: [
                    (identifier) @call.name
                    (attribute attribute: (identifier) @call.name)
                  ]) @call.site
                "@,
    }
}

impl Language {
    /// The tree-sitter query source that captures symbol definitions.
    pub fn symbols_query(self) -> (q: &'static str)
        ensures
            q@ == spec_symbols_query(self),
    {
        match self {
            Language::Rust => r"
                (function_item name: (identifier) @name) @def.function
                (struct_item name: (type_identifier) @name) @def.struct
                (enum_item name: (type_identifier) @name) @def.enum
                (trait_item name: (type_identifier) @name) @def.trait
                (type_item name: (type_identifier) @name) @def.type_alias
                (mod_item name: (identifier) @name) @def.module
                (const_item name: (identifier) @name) @def.constant
                ",
            Language::TypeScript | Language::Tsx => r"
                (function_declaration name: (identifier) @name) @def.function
                (method_definition name: (property_identifier) @name) @def.method
                (class_declaration name: (type_identifier) @name) @def.struct
                (interface_declaration name: (type_identifier) @name) @def.interface
                (type_alias_declaration name: (type_identifier) @name) @def.type_alias
                (enum_declaration name: (identifier) @name) @def.enum
                ",
            Language::Python => r"
                (function_definition name: (identifier) @name) @def.function
                (class_definition name: (identifier) @name) @def.struct
                ",
        }
    }

    /// The tree-sitter query source that captures function and method calls.
    pub fn calls_query(self) -> (q: &'static str)
        ensures
            q@ == spec_calls_query(self),
    {
        match self {
            Language::Rust => r"
                (call_expression
                  function: [
                    (identifier) @call.name
                    (field_expression field: (field_identifier) @call.name)
                    (scoped_identifier name: (identifier) @call.name)
                  ]) @call.site
                ",
            Language::TypeScript | Language::Tsx => r"
                (call_expression
                  function: [
                    (identifier) @call.name
                    (member_expression property: (property_identifier) @call.name)
                  ]) @call.site
                ",
            Language::Python => r"
                (call
                  function: [
                    (identifier) @call.name
                    (attribute attribute: (identifier) @call.name)
                  ]) @call.site
                ",
        }
    }
}

} // verus!

verus! {

#[verifier::external_type_specification]
#[verifier::external_body]
pub struct ExLanguageFn(tree_sitter_language::LanguageFn);

/// Reads `tree_sitter_rust::LANGUAGE`: the Rust grammar.
#[verifier::external_body]
fn rust_grammar() -> tree_sitter_language::LanguageFn {
    tree_sitter_rust::LANGUAGE
}

/// Reads `tree_sitter_typescript::LANGUAGE_TYPESCRIPT`: the TypeScript grammar.
#[verifier::external_body]
fn typescript_grammar() -> tree_sitter_language::LanguageFn {
    tree_sitter_typescript::LANGUAGE_TYPESCRIPT
}

/// Reads `tree_sitter_typescript::LANGUAGE_TSX`: the TSX grammar.
#[verifier::external_body]
fn tsx_grammar() -> tree_sitter_language::LanguageFn {
    tree_sitter_typescript::LANGUAGE_TSX
}

/// Reads `tree_sitter_python::LANGUAGE`: the Python grammar.
#[verifier::external_body]
fn python_grammar() -> tree_sitter_language::LanguageFn {
    tree_sitter_python::LANGUAGE
}

/// One captured node of a query match, as plain values.
#[derive(Debug, PartialEq, Eq, Clone)]
pub struct CaptureRecord {
    /// Index of the capture name in the query's capture names.
    pub index: u32,
    /// The node's source text, when it is valid UTF-8.
    pub text: Option<String>,
    /// Zero-based row where the node starts.
    pub start_row: usize,
    /// Zero-based row where the node ends.
    pub end_row: usize,
    /// Byte offset where the node starts.
    pub start_byte: usize,
    /// Byte offset where the node ends.
    pub end_byte: usize,
    /// Grammar kind of the node's parent, if it has one.
    pub parent_kind: Option<String>,
}

/// What running a query over a syntax tree gives.
#[derive(Debug)]
pub enum QueryRun {
    /// The query did not compile: the description of the error.
    Invalid(String),
    /// The query's capture names, indexed by capture index, and its matches in the order the
    /// query cursor yields them.
    Matches(Vec<String>, Vec<Vec<CaptureRecord>>),
}

/// A `QueryRun` with its names and matches as sequences.
pub enum QueryRunView {
    /// The query did not compile.
    Invalid(Seq<char>),
    /// Capture names and matches.
    Matches(Seq<String>, Seq<Vec<CaptureRecord>>),
}

impl View for QueryRun {
    type V = QueryRunView;

    open spec fn view(&self) -> QueryRunView {
        match self {
            QueryRun::Invalid(m) => QueryRunView::Invalid(m@),
            QueryRun::Matches(names, ms) => QueryRunView::Matches(names@, ms@),
        }
    }
}

/// What running `query` with the grammar of `language` over `source` gives: the compile
/// error, or the capture names and the matches.
pub open spec fn query_outcome(language: Language, query: Seq<char>, source: Seq<char>) -> QueryRunView {
    match ts_compiled(language, query) {
        Ok(names) => QueryRunView::Matches(names, ts_matches(language, query, source)),
        Err(m) => QueryRunView::Invalid(m),
    }
}

/// A query compiled with its capture names, or the description of why it did not compile.
pub type CompiledResult = Result<(CompiledQuery, Vec<String>), String>;

/// `c` is what compiling `text` for the grammar of `language` gave.
pub open spec fn compiled_as(c: CompiledResult, language: Language, text: Seq<char>) -> bool {
    match c {
        Ok((q, names)) => q.spec_language() == language && q.spec_text() == text
            && ts_compiled(language, text) == Ok::<Seq<String>, Seq<char>>(names@),
        Err(e) => ts_compiled(language, text) == Err::<Seq<String>, Seq<char>>(e@),
    }
}

/// Collects the matches over the tree of a query compiled for the tree's language from `text`.
fn run_compiled(tree: &SyntaxTree, compiled: &CompiledResult, Ghost(text): Ghost<Seq<char>>) -> (r: QueryRun)
    requires
        compiled_as(*compiled, tree.spec_language(), text),
    ensures
        r@ == query_outcome(tree.spec_language(), text, tree.spec_source()),
{
    match compiled {
        Ok((query, names)) => {
            let copy = names.clone();
            assert forall|i: int| 0 <= i < names@.len() implies copy@[i] == names@[i] by {
                assert(vstd::pervasive::cloned::<String>(names[i], copy[i]));
            }
            assert(copy@ =~= names@);
            QueryRun::Matches(copy, query_matches(query, tree))
        },
        Err(message) => QueryRun::Invalid(message.clone()),
    }
}

impl Language {
    /// The tree-sitter grammar of the language.
    pub fn tree_sitter_language(self) -> tree_sitter_language::LanguageFn {
        match self {
            Language::Rust => rust_grammar(),
            Language::TypeScript => typescript_grammar(),
            Language::Tsx => tsx_grammar(),
            Language::Python => python_grammar(),
        }
    }
}

} // verus!

verus! {

/// The capture name of a record (empty when its index names no capture).
pub open spec fn capture_name(names: Seq<String>, c: CaptureRecord) -> Seq<char> {
    if (c.index as int) < names.len() {
        names[c.index as int]@
    } else {
        Seq::empty()
    }
}

/// The symbol kind named by a definition capture.
pub open spec fn def_kind(cn: Seq<char>) -> SymbolKind {
    if cn == "def.method"@ {
        SymbolKind::Method
    } else if cn == "def.struct"@ {
        SymbolKind::Struct
    } else if cn == "def.enum"@ {
        SymbolKind::Enum
    } else if cn == "def.trait"@ {
        SymbolKind::Trait
    } else if cn == "def.interface"@ {
        SymbolKind::Interface
    } else if cn == "def.type_alias"@ {
        SymbolKind::TypeAlias
    } else if cn == "def.constant"@ {
        SymbolKind::Constant
    } else if cn == "def.module"@ {
        SymbolKind::Module
    } else {
        SymbolKind::Function
    }
}

/// Scans the captures of a definition match in order: a `name` capture with text sets the
/// name, a `def.*` capture sets the definition node and the kind; the last one wins.
pub open spec fn scan_definition(cs: Seq<CaptureRecord>, names: Seq<String>) -> (Seq<char>, SymbolKind, Option<CaptureRecord>)
    decreases cs.len(),
{
    if cs.len() == 0 {
        (Seq::empty(), SymbolKind::Function, None)
    } else {
        let prev = scan_definition(cs.drop_last(), names);
        let c = cs.last();
        let cn = capture_name(names, c);
        if cn == "name"@ {
            match c.text {
                Some(t) => (t@, prev.1, prev.2),
                None => prev,
            }
        } else if seq_starts_with(cn, "def."@) {
            (prev.0, def_kind(cn), Some(c))
        } else {
            prev
        }
    }
}

/// 1-based line of a zero-based row, saturated at `u32::MAX`.
pub open spec fn line_number(row: usize) -> u32 {
    if row < u32::MAX {
        (row + 1) as u32
    } else {
        u32::MAX
    }
}

/// Position of the first `\n` in `t`, or its length.
pub open spec fn newline_index(t: Seq<char>) -> int
    decreases t.len(),
{
    if t.len() == 0 {
        0
    } else if t[0] == '\n' {
        0
    } else {
        1 + newline_index(t.drop_first())
    }
}

/// The first line of `t` as `str::lines` yields it: up to the first `\n`, without a `\r`
/// just before that `\n`; none for empty text.
pub open spec fn first_line(t: Seq<char>) -> Option<Seq<char>> {
    if t.len() == 0 {
        None
    } else {
        let k = newline_index(t);
        let line = t.subrange(0, k);
        if k < t.len() && line.len() > 0 && line.last() == '\r' {
            Some(line.drop_last())
        } else {
            Some(line)
        }
    }
}

/// `t` with leading and trailing whitespace removed, as `str::trim` does.
pub uninterp spec fn trimmed(t: Seq<char>) -> Seq<char>;

/// Calls `str::trim`, whose result depends on the characters of `t` alone.
#[verifier::external_body]
fn trim_text(t: &str) -> (r: String)
    ensures
        r@ == trimmed(t@),
{
    t.trim().to_owned()
}

/// The signature of a definition: the trimmed first line of its text (the trimmed name
/// when the text is empty), or the name when the text is not valid UTF-8.
pub open spec fn signature_of(def: CaptureRecord, name: Seq<char>) -> Seq<char> {
    match def.text {
        Some(t) => match first_line(t@) {
            Some(l) => trimmed(l),
            None => trimmed(name),
        },
        None => name,
    }
}

/// Whether a definition is exported, by the language's rule: Rust definitions that start
/// with `pub`, TypeScript and TSX definitions whose parent is an `export` statement, and
/// Python names that do not start with `_`.
pub open spec fn spec_is_exported(language: Language, def: CaptureRecord, name: Seq<char>) -> bool {
    match language {
        Language::Rust => def.text matches Some(t) && seq_starts_with(t@, "pub"@),
        Language::TypeScript | Language::Tsx => def.parent_kind matches Some(k) && k@ == "export_statement"@,
        Language::Python => !seq_starts_with(name, "_"@),
    }
}

/// Whether a definition match yields a symbol: it has a definition node and a non-empty name.
pub open spec fn yields_symbol(cs: Seq<CaptureRecord>, names: Seq<String>) -> bool {
    let s = scan_definition(cs, names);
    s.2 is Some && s.0.len() > 0
}

/// `node` is the symbol extracted from a definition match of the file at `path`, written
/// in `language`.
pub open spec fn is_extracted_symbol(
    node: SymbolNode,
    cs: Seq<CaptureRecord>,
    names: Seq<String>,
    path: Seq<char>,
    language: Language,
) -> bool {
    let s = scan_definition(cs, names);
    let d = s.2->0;
    &&& node.name@ == s.0
    &&& node.kind == s.1
    &&& node.file_path@ == path
    &&& node.byte_range == (d.start_byte, d.end_byte)
    &&& node.line_range == (line_number(d.start_row), line_number(d.end_row))
    &&& node.docstring is None
    &&& node.signature@ == signature_of(d, s.0)
    &&& node.is_exported == spec_is_exported(language, d, s.0)
    &&& node.epoch == 1
    &&& node.id == derived_id(path, Seq::empty(), s.0, node.signature@)
}

/// `out` holds, in match order, the symbol of every match of `ms` that yields one.
pub open spec fn symbols_extracted(
    out: Seq<SymbolNode>,
    ms: Seq<Vec<CaptureRecord>>,
    names: Seq<String>,
    path: Seq<char>,
    language: Language,
) -> bool
    decreases ms.len(),
{
    if ms.len() == 0 {
        out.len() == 0
    } else if yields_symbol(ms.last()@, names) {
        &&& out.len() > 0
        &&& is_extracted_symbol(out.last(), ms.last()@, names, path, language)
        &&& symbols_extracted(out.drop_last(), ms.drop_last(), names, path, language)
    } else {
        symbols_extracted(out, ms.drop_last(), names, path, language)
    }
}

} // verus!

verus! {

/// The kind named by a definition capture name.
fn kind_of_def(cn: &str) -> (k: SymbolKind)
    ensures
        k == def_kind(cn@),
{
    if str_equal(cn, "def.method") {
        SymbolKind::Method
    } else if str_equal(cn, "def.struct") {
        SymbolKind::Struct
    } else if str_equal(cn, "def.enum") {
        SymbolKind::Enum
    } else if str_equal(cn, "def.trait") {
        SymbolKind::Trait
    } else if str_equal(cn, "def.interface") {
        SymbolKind::Interface
    } else if str_equal(cn, "def.type_alias") {
        SymbolKind::TypeAlias
    } else if str_equal(cn, "def.constant") {
        SymbolKind::Constant
    } else if str_equal(cn, "def.module") {
        SymbolKind::Module
    } else {
        SymbolKind::Function
    }
}

/// 1-based line of a zero-based row, saturated at `u32::MAX`.
fn line_of_row(row: usize) -> (l: u32)
    ensures
        l == line_number(row),
{
    if row < 0xffff_ffffusize {
        (row + 1) as u32
    } else {
        u32::MAX
    }
}

/// The first line of `t`, as `str::lines` yields it; none for empty text.
fn first_line_of(t: &str) -> (r: Option<&str>)
    ensures
        match r {
            Some(l) => first_line(t@) == Some(l@),
            None => first_line(t@) is None,
        },
{
    if t.is_empty() {
        return None;
    }
    let cs = crate::text::chars_of(t);
    let mut k: usize = 0;
    assert(t@.subrange(0, t@.len() as int) =~= t@);
    while k < cs.len() && cs[k] != '\n'
        invariant
            cs@ == t@,
            k <= cs@.len(),
            newline_index(t@) == k + newline_index(t@.subrange(k as int, t@.len() as int)),
        decreases cs@.len() - k,
    {
        assert(t@.subrange(k as int, t@.len() as int).drop_first() =~= t@.subrange(k + 1, t@.len() as int));
        k = k + 1;
    }
    proof {
        if k < cs@.len() {
            assert(t@.subrange(k as int, t@.len() as int)[0] == '\n');
        } else {
            assert(t@.subrange(k as int, t@.len() as int).len() == 0);
        }
    }
    if k < cs.len() && k > 0 && cs[k - 1] == '\r' {
        Some(t.substring_char(0, k - 1))
    } else {
        Some(t.substring_char(0, k))
    }
}

/// The signature of a definition capture whose symbol is named `name`.
fn signature_for(def: &CaptureRecord, name: &str) -> (s: String)
    ensures
        s@ == signature_of(*def, name@),
{
    match &def.text {
        Some(t) => match first_line_of(t.as_str()) {
            Some(l) => trim_text(l),
            None => trim_text(name),
        },
        None => name.to_owned(),
    }
}

/// Whether a definition is exported, by the language's rule.
fn exported_by(language: Language, def: &CaptureRecord, name: &str) -> (b: bool)
    ensures
        b == spec_is_exported(language, *def, name@),
{
    match language {
        Language::Rust => match &def.text {
            Some(t) => crate::text::starts_with(&crate::text::chars_of(t.as_str()), &crate::text::chars_of("pub")),
            None => false,
        },
        Language::TypeScript | Language::Tsx => match &def.parent_kind {
            Some(k) => str_equal(k.as_str(), "export_statement"),
            None => false,
        },
        Language::Python => !crate::text::starts_with(&crate::text::chars_of(name), &crate::text::chars_of("_")),
    }
}

/// The symbol a definition match yields, if it has a definition node and a non-empty name.
pub fn symbol_of_match(cs: &Vec<CaptureRecord>, names: &Vec<String>, file_path: &str, language: Language) -> (r: Option<SymbolNode>)
    ensures
        r is Some == yields_symbol(cs@, names@),
        r matches Some(n) ==> is_extracted_symbol(n, cs@, names@, file_path@, language),
{
    let mut name: Option<&String> = None;
    let mut kind = SymbolKind::Function;
    let mut def: Option<&CaptureRecord> = None;
    let def_prefix = crate::text::chars_of("def.");
    for i in 0..cs.len()
        invariant
            def_prefix@ == "def."@,
            ({
                let s = scan_definition(cs@.take(i as int), names@);
                &&& s.0 == match name { Some(t) => t@, None => Seq::<char>::empty() }
                &&& s.1 == kind
                &&& s.2 == match def { Some(d) => Some(*d), None => None::<CaptureRecord> }
            }),
    {
        let c = &cs[i];
        proof {
            assert(cs@.take(i + 1).drop_last() =~= cs@.take(i as int));
            assert(cs@.take(i + 1).last() == cs@[i as int]);
        }
        let idx = c.index as usize;
        if idx < names.len() {
            let cn = names[idx].as_str();
            if str_equal(cn, "name") {
                match &c.text {
                    Some(t) => {
                        name = Some(t);
                    },
                    None => {},
                }
            } else if crate::text::starts_with(&crate::text::chars_of(cn), &def_prefix) {
                def = Some(c);
                kind = kind_of_def(cn);
            }
        } else {
            proof {
                assert(capture_name(names@, cs@[i as int]) == Seq::<char>::empty());
                reveal_strlit("name");
                assert("name"@.len() > 0);
                assert(Seq::<char>::empty() != "name"@);
                assert(!seq_starts_with(Seq::<char>::empty(), "def."@)) by {
                    reveal_strlit("def.");
                }
            }
        }
    }
    assert(cs@.take(cs@.len() as int) =~= cs@);
    let d = match def {
        Some(d) => d,
        None => return None,
    };
    let n = match name {
        Some(t) => t,
        None => {
            assert(scan_definition(cs@, names@).0.len() == 0);
            return None;
        },
    };
    if n.as_str().is_empty() {
        return None;
    }
    let signature = signature_for(d, n.as_str());
    let no_namespaces: [&str; 0] = [];
    let ns = no_namespaces.as_slice();
    let id = SymbolId::derive(file_path, ns, n.as_str(), signature.as_str());
    proof {
        assert(crate::id::str_views(ns@) =~= Seq::<Seq<char>>::empty());
    }
    Some(SymbolNode {
        id,
        name: n.clone(),
        kind,
        file_path: file_path.to_owned(),
        byte_range: (d.start_byte, d.end_byte),
        line_range: (line_of_row(d.start_row), line_of_row(d.end_row)),
        docstring: None,
        signature,
        is_exported: exported_by(language, d, n.as_str()),
        epoch: 1,
    })
}

} // verus!

verus! {

/// The symbols of the definition matches of a file written in `language`, in match order.
pub fn symbols_from_matches(
    matches: &Vec<Vec<CaptureRecord>>,
    names: &Vec<String>,
    file_path: &str,
    language: Language,
) -> (out: Vec<SymbolNode>)
    ensures
        symbols_extracted(out@, matches@, names@, file_path@, language),
{
    let mut out: Vec<SymbolNode> = Vec::new();
    for i in 0..matches.len()
        invariant
            symbols_extracted(out@, matches@.take(i as int), names@, file_path@, language),
    {
        proof {
            assert(matches@.take(i + 1).drop_last() =~= matches@.take(i as int));
            assert(matches@.take(i + 1).last() == matches@[i as int]);
        }
        match symbol_of_match(&matches[i], names, file_path, language) {
            Some(node) => {
                let ghost before = out@;
                out.push(node);
                assert(out@.drop_last() =~= before);
            },
            None => {},
        }
    }
    assert(matches@.take(matches@.len() as int) =~= matches@);
    out
}

/// An extracted function or method call, before it is linked into the graph.
#[derive(Debug, PartialEq, Eq)]
pub struct RawCallReference {
    /// Name of the called function or method.
    pub callee_name: String,
    /// 1-based line of the call.
    pub line: u32,
    /// Byte offsets of the call site.
    pub byte_range: (usize, usize),
    /// Whether the call site lies in a conditional branch.
    pub is_conditional: bool,
}

impl Clone for RawCallReference {
    fn clone(&self) -> (res: Self)
        ensures
            res == *self,
    {
        RawCallReference {
            callee_name: self.callee_name.clone(),
            line: self.line,
            byte_range: self.byte_range,
            is_conditional: self.is_conditional,
        }
    }
}

/// Scans the captures of a call match in order: a `call.name` capture with text sets the
/// callee name, a `call.site` capture sets the call node; the last one wins.
pub open spec fn scan_call(cs: Seq<CaptureRecord>, names: Seq<String>) -> (Seq<char>, Option<CaptureRecord>)
    decreases cs.len(),
{
    if cs.len() == 0 {
        (Seq::empty(), None)
    } else {
        let prev = scan_call(cs.drop_last(), names);
        let c = cs.last();
        let cn = capture_name(names, c);
        if cn == "call.name"@ {
            match c.text {
                Some(t) => (t@, prev.1),
                None => prev,
            }
        } else if cn == "call.site"@ {
            (prev.0, Some(c))
        } else {
            prev
        }
    }
}

/// Whether a call match yields a call: it has a call node and a non-empty callee name.
pub open spec fn yields_call(cs: Seq<CaptureRecord>, names: Seq<String>) -> bool {
    let s = scan_call(cs, names);
    s.1 is Some && s.0.len() > 0
}

/// `r` is the call extracted from a call match.
pub open spec fn is_extracted_call(r: RawCallReference, cs: Seq<CaptureRecord>, names: Seq<String>) -> bool {
    let s = scan_call(cs, names);
    let site = s.1->0;
    &&& r.callee_name@ == s.0
    &&& r.line == line_number(site.start_row)
    &&& r.byte_range == (site.start_byte, site.end_byte)
    &&& !r.is_conditional
}

/// `out` holds, in match order, the call of every match of `ms` that yields one.
pub open spec fn calls_extracted(out: Seq<RawCallReference>, ms: Seq<Vec<CaptureRecord>>, names: Seq<String>) -> bool
    decreases ms.len(),
{
    if ms.len() == 0 {
        out.len() == 0
    } else if yields_call(ms.last()@, names) {
        &&& out.len() > 0
        &&& is_extracted_call(out.last(), ms.last()@, names)
        &&& calls_extracted(out.drop_last(), ms.drop_last(), names)
    } else {
        calls_extracted(out, ms.drop_last(), names)
    }
}

/// The call a call match yields, if it has a call node and a non-empty callee name.
pub fn call_of_match(cs: &Vec<CaptureRecord>, names: &Vec<String>) -> (r: Option<RawCallReference>)
    ensures
        r is Some == yields_call(cs@, names@),
        r matches Some(c) ==> is_extracted_call(c, cs@, names@),
{
    let mut callee: Option<&String> = None;
    let mut site: Option<&CaptureRecord> = None;
    for i in 0..cs.len()
        invariant
            ({
                let s = scan_call(cs@.take(i as int), names@);
                &&& s.0 == match callee { Some(t) => t@, None => Seq::<char>::empty() }
                &&& s.1 == match site { Some(d) => Some(*d), None => None::<CaptureRecord> }
            }),
    {
        let c = &cs[i];
        proof {
            assert(cs@.take(i + 1).drop_last() =~= cs@.take(i as int));
            assert(cs@.take(i + 1).last() == cs@[i as int]);
        }
        let idx = c.index as usize;
        if idx < names.len() {
            let cn = names[idx].as_str();
            if str_equal(cn, "call.name") {
                match &c.text {
                    Some(t) => {
                        callee = Some(t);
                    },
                    None => {},
                }
            } else if str_equal(cn, "call.site") {
                site = Some(c);
            }
        } else {
            proof {
                assert(capture_name(names@, cs@[i as int]) == Seq::<char>::empty());
                reveal_strlit("call.name");
                reveal_strlit("call.site");
                assert("call.name"@.len() > 0);
                assert(Seq::<char>::empty() != "call.name"@);
                assert("call.site"@.len() > 0);
                assert(Seq::<char>::empty() != "call.site"@);
            }
        }
    }
    assert(cs@.take(cs@.len() as int) =~= cs@);
    let d = match site {
        Some(d) => d,
        None => return None,
    };
    let n = match callee {
        Some(t) => t,
        None => {
            assert(scan_call(cs@, names@).0.len() == 0);
            return None;
        },
    };
    if n.as_str().is_empty() {
        return None;
    }
    Some(RawCallReference {
        callee_name: n.clone(),
        line: line_of_row(d.start_row),
        byte_range: (d.start_byte, d.end_byte),
        is_conditional: false,
    })
}

/// The calls of the call matches, in match order.
pub fn calls_from_matches(matches: &Vec<Vec<CaptureRecord>>, names: &Vec<String>) -> (out: Vec<RawCallReference>)
    ensures
        calls_extracted(out@, matches@, names@),
{
    let mut out: Vec<RawCallReference> = Vec::new();
    for i in 0..matches.len()
        invariant
            calls_extracted(out@, matches@.take(i as int), names@),
    {
        proof {
            assert(matches@.take(i + 1).drop_last() =~= matches@.take(i as int));
            assert(matches@.take(i + 1).last() == matches@[i as int]);
        }
        match call_of_match(&matches[i], names) {
            Some(c) => {
                let ghost before = out@;
                out.push(c);
                assert(out@.drop_last() =~= before);
            },
            None => {},
        }
    }
    assert(matches@.take(matches@.len() as int) =~= matches@);
    out
}

} // verus!

verus! {

/// The symbols and calls extracted from one source file.
#[derive(Debug, PartialEq, Eq, Clone)]
pub struct ParsedFile {
    /// Symbol definitions, in match order.
    pub symbols: Vec<SymbolNode>,
    /// Call references, in match order.
    pub raw_calls: Vec<RawCallReference>,
}

/// The language name reported when a query fails to compile.
pub open spec fn query_language_name(l: Language) -> Seq<char> {
    match l {
        Language::Rust => "rust"@,
        Language::TypeScript | Language::Tsx => "typescript"@,
        Language::Python => "python"@,
    }
}

/// What every extracted symbol of the file at `path` satisfies, whatever the parser found:
/// a non-empty name, the file's path, no docstring, first generation, and the identifier
/// derived from the path, the name and the signature.
pub open spec fn is_file_symbol(n: SymbolNode, path: Seq<char>) -> bool {
    &&& n.name@.len() > 0
    &&& n.file_path@ == path
    &&& n.docstring is None
    &&& n.epoch == 1
    &&& n.id == derived_id(path, Seq::empty(), n.name@, n.signature@)
}

/// What every extracted call satisfies: a non-empty callee name, and not conditional.
pub open spec fn is_raw_call(c: RawCallReference) -> bool {
    c.callee_name@.len() > 0 && !c.is_conditional
}

proof fn lemma_symbols_extracted_are_file_symbols(
    out: Seq<SymbolNode>,
    ms: Seq<Vec<CaptureRecord>>,
    names: Seq<String>,
    path: Seq<char>,
    language: Language,
)
    requires
        symbols_extracted(out, ms, names, path, language),
    ensures
        forall|i: int| 0 <= i < out.len() ==> is_file_symbol(#[trigger] out[i], path),
    decreases ms.len(),
{
    if ms.len() > 0 {
        if yields_symbol(ms.last()@, names) {
            lemma_symbols_extracted_are_file_symbols(out.drop_last(), ms.drop_last(), names, path, language);
            assert forall|i: int| 0 <= i < out.len() implies is_file_symbol(#[trigger] out[i], path) by {
                if i < out.len() - 1 {
                    assert(out.drop_last()[i] == out[i]);
                }
            }
        } else {
            lemma_symbols_extracted_are_file_symbols(out, ms.drop_last(), names, path, language);
        }
    }
}

proof fn lemma_calls_extracted_are_raw_calls(out: Seq<RawCallReference>, ms: Seq<Vec<CaptureRecord>>, names: Seq<String>)
    requires
        calls_extracted(out, ms, names),
    ensures
        forall|i: int| 0 <= i < out.len() ==> is_raw_call(#[trigger] out[i]),
    decreases ms.len(),
{
    if ms.len() > 0 {
        if yields_call(ms.last()@, names) {
            lemma_calls_extracted_are_raw_calls(out.drop_last(), ms.drop_last(), names);
            assert forall|i: int| 0 <= i < out.len() implies is_raw_call(#[trigger] out[i]) by {
                if i < out.len() - 1 {
                    assert(out.drop_last()[i] == out[i]);
                }
            }
        } else {
            lemma_calls_extracted_are_raw_calls(out, ms.drop_last(), names);
        }
    }
}

impl Language {
    /// The language name reported when a query fails to compile.
    fn query_language(self) -> (s: &'static str)
        ensures
            s@ == query_language_name(self),
    {
        match self {
            Language::Rust => "rust",
            Language::TypeScript | Language::Tsx => "typescript",
            Language::Python => "python",
        }
    }
}

/// The symbols a run of the symbol query of `language` yields for the file at `path`:
/// `ParseFailed` without a tree, `QueryCompilationError` with the error's description when
/// the query did not compile, otherwise the symbol of every match that yields one, in match
/// order.
pub open spec fn symbols_outcome(run: QueryRunView, language: Language, path: Seq<char>, r: Result<Vec<SymbolNode>, AstError>) -> bool {
    match run {
        QueryRunView::Invalid(m) => r matches Err(AstError::QueryCompilationError { language: l, message: msg })
            && l@ == query_language_name(language) && msg@ == m,
        QueryRunView::Matches(names, ms) => r matches Ok(v) && symbols_extracted(v@, ms, names, path, language),
    }
}

/// The calls a run of the call query of `language` yields for the file at `path`, as
/// `symbols_outcome` says for symbols.
pub open spec fn calls_outcome(run: QueryRunView, language: Language, path: Seq<char>, r: Result<Vec<RawCallReference>, AstError>) -> bool {
    match run {
        QueryRunView::Invalid(m) => r matches Err(AstError::QueryCompilationError { language: l, message: msg })
            && l@ == query_language_name(language) && msg@ == m,
        QueryRunView::Matches(names, ms) => r matches Ok(v) && calls_extracted(v@, ms, names),
    }
}

/// The symbols that a run of the symbol query of `language` yields for the file at `file_path`.
pub fn symbols_of_run(run: &QueryRun, language: Language, file_path: &str) -> (r: Result<Vec<SymbolNode>, AstError>)
    ensures
        symbols_outcome(run@, language, file_path@, r),
        r matches Ok(v) ==> forall|i: int| 0 <= i < v@.len() ==> is_file_symbol(#[trigger] v@[i], file_path@),
{
    match run {
        QueryRun::Invalid(message) => Err(AstError::QueryCompilationError { language: language.query_language(), message: message.clone() }),
        QueryRun::Matches(names, matches) => {
            let symbols = symbols_from_matches(matches, names, file_path, language);
            proof {
                lemma_symbols_extracted_are_file_symbols(symbols@, matches@, names@, file_path@, language);
            }
            Ok(symbols)
        },
    }
}

/// The calls that a run of the call query of `language` yields for the file at `file_path`.
pub fn calls_of_run(run: &QueryRun, language: Language, file_path: &str) -> (r: Result<Vec<RawCallReference>, AstError>)
    ensures
        calls_outcome(run@, language, file_path@, r),
        r matches Ok(v) ==> forall|i: int| 0 <= i < v@.len() ==> is_raw_call(#[trigger] v@[i]),
{
    match run {
        QueryRun::Invalid(message) => Err(AstError::QueryCompilationError { language: language.query_language(), message: message.clone() }),
        QueryRun::Matches(names, matches) => {
            let calls = calls_from_matches(matches, names);
            proof {
                lemma_calls_extracted_are_raw_calls(calls@, matches@, names@);
            }
            Ok(calls)
        },
    }
}

/// Runs the compiled symbol query of the tree's language over it and extracts the definitions
/// of the file at `file_path`.
fn extract_symbols(tree: &SyntaxTree, compiled: &CompiledResult, file_path: &str) -> (r: Result<Vec<SymbolNode>, AstError>)
    requires
        compiled_as(*compiled, tree.spec_language(), spec_symbols_query(tree.spec_language())),
    ensures
        symbols_outcome(
            query_outcome(tree.spec_language(), spec_symbols_query(tree.spec_language()), tree.spec_source()),
            tree.spec_language(),
            file_path@,
            r,
        ),
        r matches Ok(v) ==> forall|i: int| 0 <= i < v@.len() ==> is_file_symbol(#[trigger] v@[i], file_path@),
{
    let language = tree.language();
    let run = run_compiled(tree, compiled, Ghost(spec_symbols_query(language)));
    symbols_of_run(&run, language, file_path)
}

/// Runs the compiled call query of the tree's language over it and extracts the call
/// references of the file at `file_path`.
fn extract_calls(tree: &SyntaxTree, compiled: &CompiledResult, file_path: &str) -> (r: Result<Vec<RawCallReference>, AstError>)
    requires
        compiled_as(*compiled, tree.spec_language(), spec_calls_query(tree.spec_language())),
    ensures
        calls_outcome(
            query_outcome(tree.spec_language(), spec_calls_query(tree.spec_language()), tree.spec_source()),
            tree.spec_language(),
            file_path@,
            r,
        ),
        r matches Ok(v) ==> forall|i: int| 0 <= i < v@.len() ==> is_raw_call(#[trigger] v@[i]),
{
    let language = tree.language();
    let run = run_compiled(tree, compiled, Ghost(spec_calls_query(language)));
    calls_of_run(&run, language, file_path)
}

/// The compiled symbol and call queries of one language.
struct LanguageQueries {
    symbols: CompiledResult,
    calls: CompiledResult,
}

/// `q` holds the compiled symbol and call queries of `language`.
spec fn queries_of(q: LanguageQueries, language: Language) -> bool {
    &&& compiled_as(q.symbols, language, spec_symbols_query(language))
    &&& compiled_as(q.calls, language, spec_calls_query(language))
}

impl LanguageQueries {
    /// Compiles both queries of `language`.
    fn compile(language: Language) -> (q: Self)
        ensures
            queries_of(q, language),
    {
        LanguageQueries {
            symbols: compile_query(language, language.symbols_query()),
            calls: compile_query(language, language.calls_query()),
        }
    }
}

/// What parsing the file at `path` with contents `source` gives, its extension naming
/// `language`: the symbol query runs first, then the call query; the first error is reported,
/// and otherwise the file's symbols and calls are those of the two runs' matches.
pub open spec fn parse_outcome(language: Language, path: Seq<char>, source: Seq<char>, r: Result<ParsedFile, AstError>) -> bool {
    let sr = query_outcome(language, spec_symbols_query(language), source);
    let cr = query_outcome(language, spec_calls_query(language), source);
    match sr {
        QueryRunView::Matches(sn, sm) => match cr {
            QueryRunView::Matches(cn, cm) => r matches Ok(pf) && symbols_extracted(pf.symbols@, sm, sn, path, language)
                && calls_extracted(pf.raw_calls@, cm, cn),
            _ => r matches Err(e) && calls_outcome(cr, language, path, Err(e)),
        },
        _ => r matches Err(e) && symbols_outcome(sr, language, path, Err(e)),
    }
}

/// Source parser: the symbol and call queries of every language are compiled once, up front;
/// each file is parsed with a tree-sitter parser set to the grammar of its language, and the
/// queries of that language run over the tree.
pub struct AstEngine {
    rust: LanguageQueries,
    typescript: LanguageQueries,
    tsx: LanguageQueries,
    python: LanguageQueries,
}

impl AstEngine {
    /// Each language's slot holds that language's compiled queries.
    #[verifier::type_invariant]
    spec fn holds_queries(self) -> bool {
        &&& queries_of(self.rust, Language::Rust)
        &&& queries_of(self.typescript, Language::TypeScript)
        &&& queries_of(self.tsx, Language::Tsx)
        &&& queries_of(self.python, Language::Python)
    }

    /// Creates the engine, compiling the symbol and call queries of every language.
    pub fn new() -> Self {
        AstEngine {
            rust: LanguageQueries::compile(Language::Rust),
            typescript: LanguageQueries::compile(Language::TypeScript),
            tsx: LanguageQueries::compile(Language::Tsx),
            python: LanguageQueries::compile(Language::Python),
        }
    }

    /// Parses `source_code` as the language of `file_path` and extracts its symbols and calls.
    ///
    /// Fails with `UnsupportedLanguage` exactly when the path's extension names no language;
    /// otherwise the outcome is that of the language's symbol and call queries over the source
    /// (`parse_outcome`): the symbols and calls of their matches, or the error of a query that
    /// did not compile. A tree is parsed even from source with syntax errors.
    pub fn parse_source(&mut self, file_path: &str, source_code: &str) -> (r: Result<ParsedFile, AstError>)
        ensures
            spec_from_path(file_path@) is None ==> (r matches Err(AstError::UnsupportedLanguage(p)) && p@ == file_path@),
            spec_from_path(file_path@) matches Some(l) ==> parse_outcome(l, file_path@, source_code@, r),
            r matches Ok(pf) ==> {
                &&& forall|i: int| 0 <= i < pf.symbols@.len() ==> is_file_symbol(#[trigger] pf.symbols@[i], file_path@)
                &&& forall|i: int| 0 <= i < pf.raw_calls@.len() ==> is_raw_call(#[trigger] pf.raw_calls@[i])
            },
    {
        proof {
            use_type_invariant(&*self);
        }
        let language = match Language::from_path(file_path) {
            Some(l) => l,
            None => return Err(AstError::UnsupportedLanguage(file_path.to_owned())),
        };
        let tree = match parse_tree(language, source_code) {
            Some(t) => t,
            None => return Err(AstError::ParseFailed(file_path.to_owned())),
        };
        let queries = match language {
            Language::Rust => &self.rust,
            Language::TypeScript => &self.typescript,
            Language::Tsx => &self.tsx,
            Language::Python => &self.python,
        };
        let symbols = match extract_symbols(&tree, &queries.symbols, file_path) {
            Ok(s) => s,
            Err(e) => return Err(e),
        };
        let raw_calls = match extract_calls(&tree, &queries.calls, file_path) {
            Ok(c) => c,
            Err(e) => return Err(e),
        };
        Ok(ParsedFile { symbols, raw_calls })
    }
}

impl Default for AstEngine {
    fn default() -> Self {
        AstEngine::new()
    }
}

} // verus!
