//! Symbols of the index.
use vstd::prelude::*;
use crate::text;

verus! {

/// What a symbol is.
#[derive(Debug, Clone, Copy, PartialEq, Eq, Structural)]
pub enum SymbolKind {
    Function,
    Class,
    Interface,
    Enum,
    Method,
    Struct,
    Trait,
    Module,
    Route,
    Query,
    Migration,
    Model,
    Command,
    Test,
    Variable,
    Import,
    Other,
}

impl SymbolKind {
    /// The kind's label.
    pub open spec fn label_text(self) -> Seq<char> {
        match self {
            SymbolKind::Function => "function"@,
            SymbolKind::Class => "class"@,
            SymbolKind::Interface => "interface"@,
            SymbolKind::Enum => "enum"@,
            SymbolKind::Method => "method"@,
            SymbolKind::Struct => "struct"@,
            SymbolKind::Trait => "trait"@,
            SymbolKind::Module => "module"@,
            SymbolKind::Route => "route"@,
            SymbolKind::Query => "query"@,
            SymbolKind::Migration => "migration"@,
            SymbolKind::Model => "model"@,
            SymbolKind::Command => "command"@,
            SymbolKind::Test => "test"@,
            SymbolKind::Variable => "variable"@,
            SymbolKind::Import => "import"@,
            SymbolKind::Other => "other"@,
        }
    }

    pub fn label(self) -> (r: &'static str)
        ensures
            r@ == self.label_text(),
    {
        match self {
            SymbolKind::Function => "function",
            SymbolKind::Class => "class",
            SymbolKind::Interface => "interface",
            SymbolKind::Enum => "enum",
            SymbolKind::Method => "method",
            SymbolKind::Struct => "struct",
            SymbolKind::Trait => "trait",
            SymbolKind::Module => "module",
            SymbolKind::Route => "route",
            SymbolKind::Query => "query",
            SymbolKind::Migration => "migration",
            SymbolKind::Model => "model",
            SymbolKind::Command => "command",
            SymbolKind::Test => "test",
            SymbolKind::Variable => "variable",
            SymbolKind::Import => "import",
            SymbolKind::Other => "other",
        }
    }
}

/// Distinct kinds have distinct labels.
pub proof fn lemma_labels_distinct(a: SymbolKind, b: SymbolKind)
    ensures
        a.label_text() == b.label_text() ==> a == b,
{
    reveal_strlit("function");
    reveal_strlit("class");
    reveal_strlit("interface");
    reveal_strlit("enum");
    reveal_strlit("method");
    reveal_strlit("struct");
    reveal_strlit("trait");
    reveal_strlit("module");
    reveal_strlit("route");
    reveal_strlit("query");
    reveal_strlit("migration");
    reveal_strlit("model");
    reveal_strlit("command");
    reveal_strlit("test");
    reveal_strlit("variable");
    reveal_strlit("import");
    reveal_strlit("other");
    if a.label_text() == b.label_text() {
        let x = a.label_text();
        let y = b.label_text();
        assert(x.len() == y.len());
        assert(x[0] == y[0]);
        assert(x[1] == y[1]);
        assert(x[x.len() - 1] == y[y.len() - 1]);
    }
}

/// Every label is a non-empty word of lowercase ASCII letters.
pub proof fn lemma_labels_lowercase(k: SymbolKind)
    ensures
        k.label_text().len() > 0,
        forall|i: int| 0 <= i < k.label_text().len() ==> 'a' <= #[trigger] k.label_text()[i] <= 'z',
{
    reveal_strlit("function");
    reveal_strlit("class");
    reveal_strlit("interface");
    reveal_strlit("enum");
    reveal_strlit("method");
    reveal_strlit("struct");
    reveal_strlit("trait");
    reveal_strlit("module");
    reveal_strlit("route");
    reveal_strlit("query");
    reveal_strlit("migration");
    reveal_strlit("model");
    reveal_strlit("command");
    reveal_strlit("test");
    reveal_strlit("variable");
    reveal_strlit("import");
    reveal_strlit("other");
}

/// A symbol found in a source file.
#[derive(Debug, Clone)]
pub struct Symbol {
    pub id: String,
    pub name: String,
    pub kind: SymbolKind,
    pub path: String,
    pub start_line: usize,
    pub end_line: usize,
    pub signature: Option<String>,
    pub owner: Option<String>,
    pub dependencies: Vec<String>,
    pub references: Vec<String>,
    pub complexity: usize,
    pub hash: String,
}

/// The id of a symbol: `path:kind:name:line`.
pub open spec fn symbol_id(path: Seq<char>, name: Seq<char>, kind: SymbolKind, line: nat) -> Seq<
    char,
> {
    path + ":"@ + kind.label_text() + ":"@ + name + ":"@ + text::decimal(line)
}

impl Symbol {
    pub fn make_id(path: &str, name: &str, kind: SymbolKind, line: usize) -> (r: String)
        ensures
            r@ == symbol_id(path@, name@, kind, line as nat),
    {
        let mut out = text::owned(path);
        text::push_str(&mut out, ":");
        text::push_str(&mut out, kind.label());
        text::push_str(&mut out, ":");
        text::push_str(&mut out, name);
        text::push_str(&mut out, ":");
        text::push_decimal(&mut out, line);
        out
    }
}

} // verus!
