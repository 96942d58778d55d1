//! Symbol extraction from source files with tree-sitter grammars.
use vstd::prelude::*;
use streaming_iterator::StreamingIterator;
use tree_sitter::{Parser, Query, QueryCursor};
use crate::graph;
use crate::symbol::{Symbol, SymbolKind};
use crate::text;

verus! {

#[verifier::external_type_specification]
#[verifier::external_body]
pub struct ExLanguage(tree_sitter::Language);

/// The languages the indexer can parse.
#[derive(Debug, Clone, Copy, PartialEq, Eq, Structural)]
pub enum SourceLanguage {
    Rust,
    Python,
    JavaScript,
    TypeScript,
    Go,
    Bash,
}

/// What the Rust grammar captures.
pub const RUST_QUERY: &'static str = "\n(function_item name: (identifier) @name) @function\n(struct_item name: (type_identifier) @name) @struct\n(enum_item name: (type_identifier) @name) @enum\n(trait_item name: (type_identifier) @name) @trait\n(impl_item) @class\n(mod_item name: (identifier) @name) @module\n(use_declaration) @import\n";

/// What the Python grammar captures.
pub const PYTHON_QUERY: &'static str = "\n(function_definition name: (identifier) @name) @function\n(class_definition name: (identifier) @name) @class\n(decorated_definition definition: (function_definition name: (identifier) @name)) @function\n(decorated_definition definition: (class_definition name: (identifier) @name)) @class\n(import_statement) @import\n(import_from_statement) @import\n";

/// What the JavaScript and TypeScript grammars capture.
pub const JS_QUERY: &'static str = "\n(function_declaration name: (identifier) @name) @function\n(class_declaration name: (identifier) @name) @class\n(method_definition name: (property_identifier) @name) @method\n(lexical_declaration (variable_declarator name: (identifier) @name value: (arrow_function))) @function\n(import_statement) @import\n";

/// What the Go grammar captures.
pub const GO_QUERY: &'static str = "\n(function_declaration name: (identifier) @name) @function\n(method_declaration name: (field_identifier) @name) @method\n(type_declaration (type_spec name: (type_identifier) @name)) @struct\n(import_declaration) @import\n";

/// What the Bash grammar captures.
pub const BASH_QUERY: &'static str = "\n(function_definition name: (word) @name) @function\n(command name: (command_name (word) @name)) @command\n";

/// One capture of a query match: the capture's name, the node's text and the rows (from 0)
/// where the node starts and ends.
#[derive(Debug, Clone)]
pub struct Capture {
    pub name: String,
    pub text: String,
    pub start_row: usize,
    pub end_row: usize,
}

/// The content of a capture.
pub open spec fn capture_view(c: Capture) -> (Seq<char>, Seq<char>, nat, nat) {
    (c.name@, c.text@, c.start_row as nat, c.end_row as nat)
}

/// The contents of some captures.
pub open spec fn capture_views(v: Seq<Capture>) -> Seq<(Seq<char>, Seq<char>, nat, nat)> {
    v.map_values(|c: Capture| capture_view(c))
}

/// A language with its tree-sitter grammar. Only `SourceLanguage::grammar` makes one, so the
/// grammar is always that of the language.
pub struct Grammar {
    lang: SourceLanguage,
    language: tree_sitter::Language,
}

/// The symbols and imports found in one file.
pub struct ParsedFile {
    pub symbols: Vec<Symbol>,
    pub imports: Vec<String>,
}

// ---------------------------------------------------------------------------
// Outside calls
// ---------------------------------------------------------------------------

/// What `std::path::Path::new(path).extension()` gives as UTF-8 text, under the path syntax
/// of the platform the crate is built for.
pub uninterp spec fn file_extension(path: Seq<char>) -> Option<Seq<char>>;

/// What parsing `content` with the grammar of `lang` and running `query` over the tree with a
/// `tree_sitter::QueryCursor` captures, in the order the matches are streamed: each capture's
/// name, its node's text (`None` when not UTF-8) and rows; `None` when the parser refuses the
/// grammar, gives no tree, or the query does not compile.
pub uninterp spec fn tree_sitter_captures(lang: SourceLanguage, query: Seq<char>, content: Seq<char>) -> Option<
    Seq<(Seq<char>, Option<Seq<char>>, nat, nat)>,
>;

/// The content of a capture as the grammar reports it.
pub open spec fn raw_capture_view(c: (String, Option<&str>, usize, usize)) -> (Seq<char>, Option<Seq<char>>, nat, nat) {
    (c.0@, match c.1 {
        Some(t) => Some(t@),
        None => None,
    }, c.2 as nat, c.3 as nat)
}

/// The contents of captures as the grammar reports them, when there are any.
pub open spec fn opt_raw_views(o: Option<Vec<(String, Option<&str>, usize, usize)>>) -> Option<
    Seq<(Seq<char>, Option<Seq<char>>, nat, nat)>,
> {
    match o {
        Some(v) => Some(v@.map_values(|c: (String, Option<&str>, usize, usize)| raw_capture_view(c))),
        None => None,
    }
}

/// A capture with the text of a node that is not UTF-8 taken as empty.
pub open spec fn text_or_empty(c: (Seq<char>, Option<Seq<char>>, nat, nat)) -> (Seq<char>, Seq<char>, nat, nat) {
    (c.0, match c.1 {
        Some(t) => t,
        None => Seq::empty(),
    }, c.2, c.3)
}

/// Captures with the texts of nodes that are not UTF-8 taken as empty.
pub open spec fn with_texts(cs: Seq<(Seq<char>, Option<Seq<char>>, nat, nat)>) -> Seq<(Seq<char>, Seq<char>, nat, nat)> {
    cs.map_values(|c: (Seq<char>, Option<Seq<char>>, nat, nat)| text_or_empty(c))
}

/// Calls `std::path::Path::extension` and `OsStr::to_str`; the result is named by
/// `file_extension`.
#[verifier::external_body]
fn path_extension(path: &str) -> (r: Option<String>)
    ensures
        text::opt_chars(r) == file_extension(path@),
{
    std::path::Path::new(path).extension().and_then(|e| e.to_str()).map(|e| e.to_string())
}

/// `tree_sitter_rust::LANGUAGE` as a `tree_sitter::Language`; nothing is claimed of it.
#[verifier::external_body]
fn rust_grammar() -> tree_sitter::Language {
    tree_sitter_rust::LANGUAGE.into()
}

/// `tree_sitter_python::LANGUAGE` as a `tree_sitter::Language`; nothing is claimed of it.
#[verifier::external_body]
fn python_grammar() -> tree_sitter::Language {
    tree_sitter_python::LANGUAGE.into()
}

/// `tree_sitter_javascript::LANGUAGE` as a `tree_sitter::Language`; nothing is claimed of it.
#[verifier::external_body]
fn javascript_grammar() -> tree_sitter::Language {
    tree_sitter_javascript::LANGUAGE.into()
}

/// `tree_sitter_typescript::LANGUAGE_TYPESCRIPT` as a `tree_sitter::Language`; nothing is
/// claimed of it.
#[verifier::external_body]
fn typescript_grammar() -> tree_sitter::Language {
    tree_sitter_typescript::LANGUAGE_TYPESCRIPT.into()
}

/// `tree_sitter_go::LANGUAGE` as a `tree_sitter::Language`; nothing is claimed of it.
#[verifier::external_body]
fn go_grammar() -> tree_sitter::Language {
    tree_sitter_go::LANGUAGE.into()
}

/// `tree_sitter_bash::LANGUAGE` as a `tree_sitter::Language`; nothing is claimed of it.
#[verifier::external_body]
fn bash_grammar() -> tree_sitter::Language {
    tree_sitter_bash::LANGUAGE.into()
}

/// Parses `content` with `tree_sitter::Parser` in the grammar held, compiles `query` with
/// `tree_sitter::Query::new` and streams the matches of a `tree_sitter::QueryCursor` over the
/// root node, each capture as its name, its node's UTF-8 text and its rows; the result is
/// named by `tree_sitter_captures` of the grammar's language.
#[verifier::external_body]
fn grammar_captures<'a>(grammar: &Grammar, query: &str, content: &'a str) -> (r: Option<Vec<(String, Option<&'a str>, usize, usize)>>)
    ensures
        opt_raw_views(r) == tree_sitter_captures(grammar.lang, query@, content@),
{
    let (mut parser, mut cursor, mut out) = (Parser::new(), QueryCursor::new(), Vec::new());
    let l = &grammar.language;
    parser.set_language(l).ok()?;
    let tree = parser.parse(content, None)?;
    let q = Query::new(l, query).ok()?;
    let mut it = cursor.matches(&q, tree.root_node(), content.as_bytes());
    while let Some(m) = it.next() {
        for c in m.captures {
            let name = q.capture_names()[c.index as usize].to_string();
            out.push((name, c.node.utf8_text(content.as_bytes()).ok(), c.node.start_position().row, c.node.end_position().row));
        }
    }
    Some(out)
}

/// The captures with the texts of nodes that are not UTF-8 taken as empty.
fn to_captures(raw: Vec<(String, Option<&str>, usize, usize)>) -> (r: Vec<Capture>)
    ensures
        capture_views(r@) == with_texts(raw@.map_values(|c: (String, Option<&str>, usize, usize)| raw_capture_view(c))),
{
    let ghost rv = raw@.map_values(|c: (String, Option<&str>, usize, usize)| raw_capture_view(c));
    let mut out: Vec<Capture> = Vec::new();
    for c in it: raw
        invariant
            it.seq() == raw@,
            rv == raw@.map_values(|c: (String, Option<&str>, usize, usize)| raw_capture_view(c)),
            capture_views(out@) == with_texts(rv.take(it.index() as int)),
    {
        let ghost k = it.index();
        let (name, t, start_row, end_row) = c;
        let text = match t {
            Some(t) => text::owned(t),
            None => String::new(),
        };
        let cap = Capture { name, text, start_row, end_row };
        let ghost pre = capture_views(out@);
        out.push(cap);
        assert(capture_views(out@) =~= pre.push(capture_view(cap)));
        assert(with_texts(rv.take(k + 1)) =~= with_texts(rv.take(k as int)).push(text_or_empty(rv[k as int])));
    }
    assert(rv.take(rv.len() as int) =~= rv);
    out
}

// ---------------------------------------------------------------------------
// Languages
// ---------------------------------------------------------------------------

/// The language of a file extension.
pub open spec fn language_for_extension(ext: Option<Seq<char>>) -> Option<SourceLanguage> {
    match ext {
        None => None,
        Some(e) => if e == "rs"@ {
            Some(SourceLanguage::Rust)
        } else if e == "py"@ {
            Some(SourceLanguage::Python)
        } else if e == "js"@ || e == "jsx"@ || e == "mjs"@ || e == "cjs"@ {
            Some(SourceLanguage::JavaScript)
        } else if e == "ts"@ || e == "tsx"@ {
            Some(SourceLanguage::TypeScript)
        } else if e == "go"@ {
            Some(SourceLanguage::Go)
        } else if e == "sh"@ || e == "bash"@ {
            Some(SourceLanguage::Bash)
        } else {
            None
        },
    }
}

/// Extension law: `rs` is Rust; `py` Python; `js`, `jsx`, `mjs` and `cjs` JavaScript; `ts` and
/// `tsx` TypeScript; `go` Go; `sh` and `bash` Bash; any other extension, or none, no
/// language.
pub proof fn lemma_extension_languages(e: Seq<char>)
    ensures
        language_for_extension(None) is None,
        language_for_extension(Some("rs"@)) == Some(SourceLanguage::Rust),
        language_for_extension(Some("py"@)) == Some(SourceLanguage::Python),
        language_for_extension(Some("js"@)) == Some(SourceLanguage::JavaScript),
        language_for_extension(Some("jsx"@)) == Some(SourceLanguage::JavaScript),
        language_for_extension(Some("mjs"@)) == Some(SourceLanguage::JavaScript),
        language_for_extension(Some("cjs"@)) == Some(SourceLanguage::JavaScript),
        language_for_extension(Some("ts"@)) == Some(SourceLanguage::TypeScript),
        language_for_extension(Some("tsx"@)) == Some(SourceLanguage::TypeScript),
        language_for_extension(Some("go"@)) == Some(SourceLanguage::Go),
        language_for_extension(Some("sh"@)) == Some(SourceLanguage::Bash),
        language_for_extension(Some("bash"@)) == Some(SourceLanguage::Bash),
        e != "rs"@ && e != "py"@ && e != "js"@ && e != "jsx"@ && e != "mjs"@ && e != "cjs"@ && e != "ts"@
            && e != "tsx"@ && e != "go"@ && e != "sh"@ && e != "bash"@ ==> language_for_extension(Some(e)) is None,
{
    reveal_strlit("rs");
    reveal_strlit("py");
    reveal_strlit("js");
    reveal_strlit("jsx");
    reveal_strlit("mjs");
    reveal_strlit("cjs");
    reveal_strlit("ts");
    reveal_strlit("tsx");
    reveal_strlit("go");
    reveal_strlit("sh");
    reveal_strlit("bash");
    assert("py"@[0] != "rs"@[0]);
    assert("js"@[0] != "rs"@[0]);
    assert("js"@[0] != "py"@[0]);
    assert("jsx"@.len() != "rs"@.len());
    assert("jsx"@.len() != "py"@.len());
    assert("jsx"@.len() != "js"@.len());
    assert("mjs"@.len() != "rs"@.len());
    assert("mjs"@.len() != "py"@.len());
    assert("mjs"@.len() != "js"@.len());
    assert("mjs"@[0] != "jsx"@[0]);
    assert("cjs"@.len() != "rs"@.len());
    assert("cjs"@.len() != "py"@.len());
    assert("cjs"@.len() != "js"@.len());
    assert("cjs"@[0] != "jsx"@[0]);
    assert("cjs"@[0] != "mjs"@[0]);
    assert("ts"@[0] != "rs"@[0]);
    assert("ts"@[0] != "py"@[0]);
    assert("ts"@[0] != "js"@[0]);
    assert("ts"@.len() != "jsx"@.len());
    assert("ts"@.len() != "mjs"@.len());
    assert("ts"@.len() != "cjs"@.len());
    assert("tsx"@.len() != "rs"@.len());
    assert("tsx"@.len() != "py"@.len());
    assert("tsx"@.len() != "js"@.len());
    assert("tsx"@[0] != "jsx"@[0]);
    assert("tsx"@[0] != "mjs"@[0]);
    assert("tsx"@[0] != "cjs"@[0]);
    assert("tsx"@.len() != "ts"@.len());
    assert("go"@[0] != "rs"@[0]);
    assert("go"@[0] != "py"@[0]);
    assert("go"@[0] != "js"@[0]);
    assert("go"@.len() != "jsx"@.len());
    assert("go"@.len() != "mjs"@.len());
    assert("go"@.len() != "cjs"@.len());
    assert("go"@[0] != "ts"@[0]);
    assert("go"@.len() != "tsx"@.len());
    assert("sh"@[0] != "rs"@[0]);
    assert("sh"@[0] != "py"@[0]);
    assert("sh"@[0] != "js"@[0]);
    assert("sh"@.len() != "jsx"@.len());
    assert("sh"@.len() != "mjs"@.len());
    assert("sh"@.len() != "cjs"@.len());
    assert("sh"@[0] != "ts"@[0]);
    assert("sh"@.len() != "tsx"@.len());
    assert("sh"@[0] != "go"@[0]);
    assert("bash"@.len() != "rs"@.len());
    assert("bash"@.len() != "py"@.len());
    assert("bash"@.len() != "js"@.len());
    assert("bash"@.len() != "jsx"@.len());
    assert("bash"@.len() != "mjs"@.len());
    assert("bash"@.len() != "cjs"@.len());
    assert("bash"@.len() != "ts"@.len());
    assert("bash"@.len() != "tsx"@.len());
    assert("bash"@.len() != "go"@.len());
    assert("bash"@.len() != "sh"@.len());
}

/// The language of a path, by its extension.
pub open spec fn detected(path: Seq<char>) -> Option<SourceLanguage> {
    language_for_extension(file_extension(path))
}

/// The query run over files of a language.
pub open spec fn query_text(l: SourceLanguage) -> Seq<char> {
    match l {
        SourceLanguage::Rust => RUST_QUERY@,
        SourceLanguage::Python => PYTHON_QUERY@,
        SourceLanguage::JavaScript => JS_QUERY@,
        SourceLanguage::TypeScript => JS_QUERY@,
        SourceLanguage::Go => GO_QUERY@,
        SourceLanguage::Bash => BASH_QUERY@,
    }
}

/// The view of an optional string slice.
pub open spec fn opt_str_view(o: Option<&str>) -> Option<Seq<char>> {
    match o {
        Some(s) => Some(s@),
        None => None,
    }
}

/// The language of a file extension.
pub fn language_of_extension(ext: Option<&str>) -> (r: Option<SourceLanguage>)
    ensures
        r == language_for_extension(opt_str_view(ext)),
{
    match ext {
        None => None,
        Some(e) => if text::str_eq(e, "rs") {
            Some(SourceLanguage::Rust)
        } else if text::str_eq(e, "py") {
            Some(SourceLanguage::Python)
        } else if text::str_eq(e, "js") || text::str_eq(e, "jsx") || text::str_eq(e, "mjs")
            || text::str_eq(e, "cjs") {
            Some(SourceLanguage::JavaScript)
        } else if text::str_eq(e, "ts") || text::str_eq(e, "tsx") {
            Some(SourceLanguage::TypeScript)
        } else if text::str_eq(e, "go") {
            Some(SourceLanguage::Go)
        } else if text::str_eq(e, "sh") || text::str_eq(e, "bash") {
            Some(SourceLanguage::Bash)
        } else {
            None
        },
    }
}

impl SourceLanguage {
    /// The language of a path, by its extension.
    pub fn detect(path: &str) -> (r: Option<SourceLanguage>)
        ensures
            r == detected(path@),
    {
        let ext = path_extension(path);
        match &ext {
            Some(e) => language_of_extension(Some(e.as_str())),
            None => language_of_extension(None),
        }
    }

    /// The grammar of the language.
    fn tree_sitter_language(self) -> tree_sitter::Language {
        match self {
            SourceLanguage::Rust => rust_grammar(),
            SourceLanguage::Python => python_grammar(),
            SourceLanguage::JavaScript => javascript_grammar(),
            SourceLanguage::TypeScript => typescript_grammar(),
            SourceLanguage::Go => go_grammar(),
            SourceLanguage::Bash => bash_grammar(),
        }
    }

    /// The language with its grammar.
    fn grammar(self) -> (r: Grammar)
        ensures
            r.lang == self,
    {
        Grammar { lang: self, language: self.tree_sitter_language() }
    }

    /// The query run over files of the language.
    pub fn query_source(self) -> (r: &'static str)
        ensures
            r@ == query_text(self),
    {
        match self {
            SourceLanguage::Rust => RUST_QUERY,
            SourceLanguage::Python => PYTHON_QUERY,
            SourceLanguage::JavaScript | SourceLanguage::TypeScript => JS_QUERY,
            SourceLanguage::Go => GO_QUERY,
            SourceLanguage::Bash => BASH_QUERY,
        }
    }
}

// ---------------------------------------------------------------------------
// Symbols from captures
// ---------------------------------------------------------------------------

/// The symbol kind a capture name stands for.
pub open spec fn kind_named(name: Seq<char>) -> Option<SymbolKind> {
    if name == "function"@ {
        Some(SymbolKind::Function)
    } else if name == "class"@ {
        Some(SymbolKind::Class)
    } else if name == "interface"@ {
        Some(SymbolKind::Interface)
    } else if name == "enum"@ {
        Some(SymbolKind::Enum)
    } else if name == "method"@ {
        Some(SymbolKind::Method)
    } else if name == "struct"@ {
        Some(SymbolKind::Struct)
    } else if name == "trait"@ {
        Some(SymbolKind::Trait)
    } else if name == "module"@ {
        Some(SymbolKind::Module)
    } else if name == "test"@ {
        Some(SymbolKind::Test)
    } else if name == "command"@ {
        Some(SymbolKind::Command)
    } else if name == "model"@ {
        Some(SymbolKind::Model)
    } else if name == "migration"@ {
        Some(SymbolKind::Migration)
    } else if name == "route"@ {
        Some(SymbolKind::Route)
    } else {
        None
    }
}

/// The first line of a text, trimmed.
pub open spec fn first_line_of(t: Seq<char>) -> Seq<char> {
    text::trim(
        if text::lines(t).len() > 0 {
            text::lines(t)[0]
        } else {
            t
        },
    )
}

/// The part of `s` before the first `c` (all of `s` when there is none).
pub open spec fn before_char(s: Seq<char>, c: char) -> Seq<char>
    decreases s.len(),
{
    if s.len() == 0 {
        s
    } else if s[0] == c {
        Seq::empty()
    } else {
        seq![s[0]] + before_char(s.drop_first(), c)
    }
}

/// The last whitespace-separated word of `s`, or `fallback` when it has none.
pub open spec fn last_word_or(s: Seq<char>, fallback: Seq<char>) -> Seq<char> {
    if text::words(s).len() > 0 {
        text::words(s).last()
    } else {
        fallback
    }
}

/// The characters trimmed around a type name.
pub open spec fn is_name_mark(c: char) -> bool {
    c == '{' || c == ':' || c == '('
}

/// `s` without leading name marks.
pub open spec fn strip_marks_start(s: Seq<char>) -> Seq<char>
    decreases s.len(),
{
    if s.len() > 0 && is_name_mark(s[0]) {
        strip_marks_start(s.drop_first())
    } else {
        s
    }
}

/// `s` without trailing name marks.
pub open spec fn strip_marks_end(s: Seq<char>) -> Seq<char>
    decreases s.len(),
{
    if s.len() > 0 && is_name_mark(s.last()) {
        strip_marks_end(s.drop_last())
    } else {
        s
    }
}

/// The name of a symbol from the text of its node.
pub open spec fn name_of(t: Seq<char>, kind: SymbolKind) -> Seq<char> {
    let f = first_line_of(t);
    match kind {
        SymbolKind::Function | SymbolKind::Method => last_word_or(before_char(f, '('), f),
        SymbolKind::Struct | SymbolKind::Class | SymbolKind::Enum | SymbolKind::Trait
        | SymbolKind::Interface | SymbolKind::Module => strip_marks_end(
            strip_marks_start(last_word_or(f, f)),
        ),
        _ => if f.len() <= 60 {
            f
        } else {
            f.take(60)
        },
    }
}

/// Kinds whose symbols carry their first line as signature.
pub open spec fn has_signature(kind: SymbolKind) -> bool {
    kind == SymbolKind::Function || kind == SymbolKind::Method || kind == SymbolKind::Struct
}

/// The lines a symbol spans, `start` and `end` counted from 1 (all lines when `start` is
/// outside the text).
pub open spec fn span_lines(content: Seq<char>, start: nat, end: nat) -> Seq<Seq<char>> {
    let ls = text::lines(content);
    let n = ls.len();
    if start > 0 && start <= n {
        ls.subrange(start - 1, if end <= n { end as int } else { n as int })
    } else {
        ls
    }
}

/// Taking the span does not go backwards.
pub open spec fn span_defined(content: Seq<char>, start: nat, end: nat) -> bool {
    start > 0 && start <= text::lines(content).len() ==> start <= end + 1
}

/// Branch keywords in the span plus a tenth of its line count.
pub open spec fn complexity_of(content: Seq<char>, start: nat, end: nat) -> nat {
    let slice = span_lines(content, start, end);
    let j = text::join(slice, "\n"@);
    text::count_matches(j, "if "@) + text::count_matches(j, "for "@) + text::count_matches(j, "while "@)
        + text::count_matches(j, "match "@) + text::count_matches(j, "switch "@) + slice.len() / 10
}

/// The imports among the captures: trimmed non-empty texts captured as `import`.
pub open spec fn import_texts(caps: Seq<(Seq<char>, Seq<char>, nat, nat)>) -> Seq<Seq<char>>
    decreases caps.len(),
{
    if caps.len() == 0 {
        Seq::empty()
    } else {
        let prev = import_texts(caps.drop_last());
        let c = caps.last();
        let t = text::trim(c.1);
        if t.len() > 0 && c.0 == "import"@ {
            prev.push(t)
        } else {
            prev
        }
    }
}

/// The captures that become symbols: non-empty, named after a symbol kind.
pub open spec fn symbol_captures(caps: Seq<(Seq<char>, Seq<char>, nat, nat)>) -> Seq<
    (Seq<char>, Seq<char>, nat, nat),
>
    decreases caps.len(),
{
    if caps.len() == 0 {
        Seq::empty()
    } else {
        let prev = symbol_captures(caps.drop_last());
        let c = caps.last();
        if text::trim(c.1).len() > 0 && c.0 != "import"@ && kind_named(c.0) is Some {
            prev.push(c)
        } else {
            prev
        }
    }
}

/// Rows of every capture fit the line arithmetic: counting from 1 does not overflow and
/// no node ends before the row it starts on, less one.
pub open spec fn rows_ok(caps: Seq<(Seq<char>, Seq<char>, nat, nat)>) -> bool {
    forall|i: int|
        0 <= i < caps.len() ==> {
            let c = #[trigger] caps[i];
            c.2 < usize::MAX && c.3 < usize::MAX && c.2 <= c.3 + 1
        }
}

/// The symbol made from a capture.
pub open spec fn is_parsed_symbol(
    s: Symbol,
    c: (Seq<char>, Seq<char>, nat, nat),
    rel: Seq<char>,
    content: Seq<char>,
    hash: Seq<char>,
) -> bool {
    let t = text::trim(c.1);
    let start = c.2 + 1;
    let end = c.3 + 1;
    &&& kind_named(c.0) == Some(s.kind)
    &&& s.name@ == name_of(t, s.kind)
    &&& s.id@ == crate::symbol::symbol_id(rel, s.name@, s.kind, start)
    &&& s.path@ == rel
    &&& s.start_line == start
    &&& s.end_line == end
    &&& text::opt_chars(s.signature) == (if has_signature(s.kind) {
        Some(first_line_of(t))
    } else {
        None
    })
    &&& s.owner is None
    &&& s.dependencies@.len() == 0
    &&& s.references@.len() == 0
    &&& s.complexity == complexity_of(content, start, end)
    &&& s.hash@ == hash
}

/// The parse of a file from the captures of its grammar's query.
pub open spec fn is_parsed(
    pf: ParsedFile,
    rel: Seq<char>,
    content: Seq<char>,
    hash: Seq<char>,
    caps: Seq<(Seq<char>, Seq<char>, nat, nat)>,
) -> bool {
    let sc = symbol_captures(caps);
    &&& graph::views(pf.imports@) == import_texts(caps)
    &&& pf.symbols@.len() == sc.len()
    &&& forall|i: int|
        0 <= i < sc.len() ==> is_parsed_symbol(#[trigger] pf.symbols@[i], sc[i], rel, content, hash)
}

/// What parsing a file gives: nothing for an unknown extension, a grammar or query failure,
/// or rows out of range; else the symbols and imports of the captures.
pub open spec fn parse_outcome(
    r: Option<ParsedFile>,
    path: Seq<char>,
    rel: Seq<char>,
    content: Seq<char>,
    hash: Seq<char>,
) -> bool {
    match detected(path) {
        None => r is None,
        Some(l) => match tree_sitter_captures(l, query_text(l), content) {
            None => r is None,
            Some(cs) => if rows_ok(with_texts(cs)) {
                r matches Some(pf) && is_parsed(pf, rel, content, hash, with_texts(cs))
            } else {
                r is None
            },
        },
    }
}

/// The symbol kind a capture name stands for.
pub fn map_kind(name: &str) -> (r: Option<SymbolKind>)
    ensures
        r == kind_named(name@),
{
    if text::str_eq(name, "function") {
        Some(SymbolKind::Function)
    } else if text::str_eq(name, "class") {
        Some(SymbolKind::Class)
    } else if text::str_eq(name, "interface") {
        Some(SymbolKind::Interface)
    } else if text::str_eq(name, "enum") {
        Some(SymbolKind::Enum)
    } else if text::str_eq(name, "method") {
        Some(SymbolKind::Method)
    } else if text::str_eq(name, "struct") {
        Some(SymbolKind::Struct)
    } else if text::str_eq(name, "trait") {
        Some(SymbolKind::Trait)
    } else if text::str_eq(name, "module") {
        Some(SymbolKind::Module)
    } else if text::str_eq(name, "test") {
        Some(SymbolKind::Test)
    } else if text::str_eq(name, "command") {
        Some(SymbolKind::Command)
    } else if text::str_eq(name, "model") {
        Some(SymbolKind::Model)
    } else if text::str_eq(name, "migration") {
        Some(SymbolKind::Migration)
    } else if text::str_eq(name, "route") {
        Some(SymbolKind::Route)
    } else {
        None
    }
}

/// The first line of a text, trimmed.
pub fn first_line(t: &str) -> (r: String)
    ensures
        r@ == first_line_of(t@),
{
    let ls = text::lines_of(t);
    assert(ls@.map_values(|x: String| x@).len() == ls@.len());
    if ls.len() > 0 {
        assert(ls@.map_values(|x: String| x@)[0] == ls@[0]@);
        text::trim_str(ls[0].as_str())
    } else {
        text::trim_str(t)
    }
}

fn before_char_str(s: &str, c: char) -> (r: String)
    ensures
        r@ == before_char(s@, c),
{
    let cs = text::chars_of(s);
    let mut i: usize = 0;
    assert(cs@.subrange(0, 0) + cs@.skip(0) =~= cs@.skip(0));
    assert(cs@.skip(0) =~= cs@);
    while i < cs.len() && cs[i] != c
        invariant
            i <= cs@.len(),
            before_char(cs@, c) == cs@.subrange(0, i as int) + before_char(cs@.skip(i as int), c),
        decreases cs@.len() - i,
    {
        assert(cs@.skip(i as int)[0] == cs@[i as int]);
        assert(cs@.skip(i as int).drop_first() =~= cs@.skip(i + 1));
        assert(cs@.subrange(0, i as int) + seq![cs@[i as int]] =~= cs@.subrange(0, i + 1));
        i += 1;
    }
    proof {
        if i == cs@.len() {
            assert(cs@.skip(i as int) =~= Seq::<char>::empty());
        } else {
            assert(cs@.skip(i as int)[0] == c);
        }
        assert(cs@.subrange(0, i as int) + Seq::<char>::empty() =~= cs@.subrange(0, i as int));
    }
    text::string_of(&cs, 0, i)
}

fn last_word_or_str(s: &str, fallback: &String) -> (r: String)
    ensures
        r@ == last_word_or(s@, fallback@),
{
    let ws = text::words_of(s);
    assert(ws@.map_values(|x: String| x@).len() == ws@.len());
    if ws.len() > 0 {
        assert(ws@.map_values(|x: String| x@).last() == ws@[ws@.len() - 1]@);
        ws[ws.len() - 1].clone()
    } else {
        fallback.clone()
    }
}

fn is_name_mark_char(c: char) -> (r: bool)
    ensures
        r == is_name_mark(c),
{
    c == '{' || c == ':' || c == '('
}

fn strip_name_marks(s: &String) -> (r: String)
    ensures
        r@ == strip_marks_end(strip_marks_start(s@)),
{
    let cs = text::chars_of(s.as_str());
    let n = cs.len();
    let mut a: usize = 0;
    assert(cs@.skip(0) =~= cs@);
    while a < n && is_name_mark_char(cs[a])
        invariant
            a <= n == cs@.len(),
            strip_marks_start(cs@) == strip_marks_start(cs@.skip(a as int)),
        decreases n - a,
    {
        assert(cs@.skip(a as int).drop_first() =~= cs@.skip(a + 1));
        a += 1;
    }
    let mut b: usize = n;
    assert(cs@.subrange(a as int, n as int) =~= cs@.skip(a as int));
    while b > a && is_name_mark_char(cs[b - 1])
        invariant
            a <= b <= n == cs@.len(),
            strip_marks_start(cs@) == cs@.skip(a as int) || a < n && !is_name_mark(cs@[a as int]),
            strip_marks_end(cs@.subrange(a as int, n as int)) == strip_marks_end(cs@.subrange(a as int, b as int)),
        decreases b - a,
    {
        assert(cs@.subrange(a as int, b as int).drop_last() =~= cs@.subrange(a as int, b - 1));
        b -= 1;
    }
    proof {
        if a < n {
            assert(!is_name_mark(cs@.skip(a as int)[0]));
        }
        assert(strip_marks_start(cs@) == cs@.skip(a as int));
        let t = cs@.subrange(a as int, b as int);
        if t.len() > 0 {
            assert(t.last() == cs@[b - 1]);
        }
    }
    text::string_of(&cs, a, b)
}

/// The name of a symbol from the text of its node.
pub fn extract_name(t: &str, kind: SymbolKind) -> (r: String)
    ensures
        r@ == name_of(t@, kind),
{
    let first = first_line(t);
    match kind {
        SymbolKind::Function | SymbolKind::Method => {
            let head = before_char_str(first.as_str(), '(');
            last_word_or_str(head.as_str(), &first)
        },
        SymbolKind::Struct | SymbolKind::Class | SymbolKind::Enum | SymbolKind::Trait
        | SymbolKind::Interface | SymbolKind::Module => {
            let w = last_word_or_str(first.as_str(), &first);
            strip_name_marks(&w)
        },
        _ => {
            let cs = text::chars_of(first.as_str());
            if cs.len() <= 60 {
                assert(cs@.subrange(0, cs@.len() as int) =~= cs@);
                text::string_of(&cs, 0, cs.len())
            } else {
                assert(cs@.subrange(0, 60) =~= cs@.take(60));
                text::string_of(&cs, 0, 60)
            }
        },
    }
}

/// Branch keywords in the lines a symbol spans, plus a tenth of their number.
pub fn estimate_complexity(content: &str, start: usize, end: usize) -> (r: usize)
    requires
        content@.len() <= isize::MAX,
        span_defined(content@, start as nat, end as nat),
    ensures
        r == complexity_of(content@, start as nat, end as nat),
{
    let ls = text::lines_of(content);
    let ghost lv = ls@.map_values(|x: String| x@);
    assert(lv == text::lines(content@));
    let n = ls.len();
    let (lo, hi) = if start > 0 && start <= n {
        (start - 1, if end <= n { end } else { n })
    } else {
        (0, n)
    };
    let mut slice: Vec<String> = Vec::new();
    let mut i = lo;
    while i < hi
        invariant
            lo <= i <= hi <= n == ls@.len(),
            lv == ls@.map_values(|x: String| x@),
            slice@.map_values(|x: String| x@) == lv.subrange(lo as int, i as int),
        decreases hi - i,
    {
        let ghost pre = slice@.map_values(|x: String| x@);
        slice.push(ls[i].clone());
        assert(slice@.map_values(|x: String| x@) =~= pre.push(ls@[i as int]@));
        assert(lv.subrange(lo as int, i + 1) =~= lv.subrange(lo as int, i as int).push(lv[i as int]));
        i += 1;
    }
    let ghost sv = slice@.map_values(|x: String| x@);
    assert(sv =~= span_lines(content@, start as nat, end as nat)) by {
        if !(start > 0 && start <= n) {
            assert(lv.subrange(0, n as int) =~= lv);
        }
    }
    let joined = text::join_strings(&slice, "\n");
    let jc = text::chars_of(joined.as_str());
    proof {
        reveal_strlit("\n");
        text::lemma_lines_total(content@);
        text::lemma_total_len_subrange(lv, lo as int, hi as int);
        if sv.len() > 0 {
            text::lemma_join_len(sv, "\n"@);
        }
        assert(jc@.len() <= content@.len());
        assert(sv.len() <= content@.len() + 1);
    }
    let c1 = text::chars_count_matches(&jc, &text::chars_of("if "));
    let c2 = text::chars_count_matches(&jc, &text::chars_of("for "));
    let c3 = text::chars_count_matches(&jc, &text::chars_of("while "));
    let c4 = text::chars_count_matches(&jc, &text::chars_of("match "));
    let c5 = text::chars_count_matches(&jc, &text::chars_of("switch "));
    proof {
        reveal_strlit("if ");
        reveal_strlit("for ");
        reveal_strlit("while ");
        reveal_strlit("match ");
        reveal_strlit("switch ");
        text::lemma_count_from_third(jc@, "if "@, 0);
        text::lemma_count_from_third(jc@, "for "@, 0);
        text::lemma_count_from_third(jc@, "while "@, 0);
        text::lemma_count_from_third(jc@, "match "@, 0);
        text::lemma_count_from_third(jc@, "switch "@, 0);
        assert(isize::MAX * 2 < usize::MAX + 1);
    }
    c1 + c2 + c3 + c4 + c5 + slice.len() / 10
}

/// Whether every capture's rows fit the line arithmetic.
pub fn captures_in_range(caps: &Vec<Capture>) -> (r: bool)
    ensures
        r == rows_ok(capture_views(caps@)),
{
    let ghost cv = capture_views(caps@);
    let mut i: usize = 0;
    while i < caps.len()
        invariant
            i <= caps@.len(),
            cv == capture_views(caps@),
            forall|k: int| 0 <= k < i ==> {
                let c = #[trigger] cv[k];
                c.2 < usize::MAX && c.3 < usize::MAX && c.2 <= c.3 + 1
            },
        decreases caps@.len() - i,
    {
        let c = &caps[i];
        assert(cv[i as int] == capture_view(*c));
        if !(c.start_row < usize::MAX && c.end_row < usize::MAX && c.start_row <= c.end_row + 1) {
            return false;
        }
        i += 1;
    }
    true
}

/// The symbols and imports of a file from the captures of its grammar's query.
pub fn parsed_from_captures(rel_path: &str, content: &str, hash: &str, caps: &Vec<Capture>) -> (r:
    ParsedFile)
    requires
        content@.len() <= isize::MAX,
        rows_ok(capture_views(caps@)),
    ensures
        is_parsed(r, rel_path@, content@, hash@, capture_views(caps@)),
{
    let ghost cv = capture_views(caps@);
    let mut symbols: Vec<Symbol> = Vec::new();
    let mut imports: Vec<String> = Vec::new();
    let mut i: usize = 0;
    while i < caps.len()
        invariant
            i <= caps@.len(),
            cv == capture_views(caps@),
            content@.len() <= isize::MAX,
            rows_ok(cv),
            graph::views(imports@) == import_texts(cv.take(i as int)),
            symbols@.len() == symbol_captures(cv.take(i as int)).len(),
            forall|k: int|
                0 <= k < symbols@.len() ==> is_parsed_symbol(
                    #[trigger] symbols@[k],
                    symbol_captures(cv.take(i as int))[k],
                    rel_path@,
                    content@,
                    hash@,
                ),
        decreases caps@.len() - i,
    {
        let c = &caps[i];
        let ghost v = cv[i as int];
        assert(v == capture_view(*c));
        assert(cv.take(i + 1).drop_last() =~= cv.take(i as int));
        assert(cv.take(i + 1).last() == v);
        let t = text::trim_str(c.text.as_str());
        let blank = text::str_eq(t.as_str(), "");
        proof {
            reveal_strlit("");
            if t@.len() == 0 {
                assert(t@ =~= ""@);
            }
            assert(blank == (t@.len() == 0));
        }
        if !blank {
            proof {
                assert(v.2 < usize::MAX && v.3 < usize::MAX && v.2 <= v.3 + 1);
            }
            let start = c.start_row + 1;
            let end = c.end_row + 1;
            if text::str_eq(c.name.as_str(), "import") {
                let ghost pre = graph::views(imports@);
                imports.push(t);
                assert(graph::views(imports@) =~= pre.push(text::trim(v.1)));
            } else {
                match map_kind(c.name.as_str()) {
                    Some(kind) => {
                        let name = extract_name(t.as_str(), kind);
                        let id = Symbol::make_id(rel_path, name.as_str(), kind, start);
                        let signature = if kind == SymbolKind::Function || kind == SymbolKind::Method
                            || kind == SymbolKind::Struct {
                            Some(first_line(t.as_str()))
                        } else {
                            None
                        };
                        let complexity = estimate_complexity(content, start, end);
                        let sym = Symbol {
                            id,
                            name,
                            kind,
                            path: text::owned(rel_path),
                            start_line: start,
                            end_line: end,
                            signature,
                            owner: None,
                            dependencies: Vec::new(),
                            references: Vec::new(),
                            complexity,
                            hash: text::owned(hash),
                        };
                        symbols.push(sym);
                        assert(symbol_captures(cv.take(i + 1)) == symbol_captures(cv.take(i as int)).push(v));
                    },
                    None => {},
                }
            }
        }
        i += 1;
    }
    assert(cv.take(caps@.len() as int) =~= cv);
    ParsedFile { symbols, imports }
}

/// Parses a source file: the language by the path's extension, then the grammar's captures.
pub fn parse_file(path: &str, rel_path: &str, content: &str, hash: &str) -> (r: Option<ParsedFile>)
    requires
        content@.len() <= isize::MAX,
    ensures
        parse_outcome(r, path@, rel_path@, content@, hash@),
{
    let lang = match SourceLanguage::detect(path) {
        Some(l) => l,
        None => {
            return None;
        },
    };
    let grammar = lang.grammar();
    let caps = match grammar_captures(&grammar, lang.query_source(), content) {
        Some(c) => to_captures(c),
        None => {
            return None;
        },
    };
    if !captures_in_range(&caps) {
        return None;
    }
    Some(parsed_from_captures(rel_path, content, hash, &caps))
}

} // verus!
