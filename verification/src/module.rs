//! L2 module memory: one summary per file.
use vstd::prelude::*;
use crate::compression::{self, CompressedText};
use crate::graph;
use crate::memory::Confidence;
use crate::object::{MemoryKind, MemoryObject};
use crate::store;
use crate::symbol::{Symbol, SymbolKind};
use crate::text;

verus! {

/// What a module summary records.
#[derive(Debug, Clone)]
pub struct ModuleSummary {
    pub path: String,
    pub exports: Vec<String>,
    pub dependencies: Vec<String>,
    pub assumptions: Vec<String>,
    pub side_effects: Vec<String>,
}

// ---------------------------------------------------------------------------
// Specifications
// ---------------------------------------------------------------------------

/// The symbols that lie in file `path`, in index order.
pub open spec fn file_symbols(syms: Seq<Symbol>, path: Seq<char>) -> Seq<Symbol>
    decreases syms.len(),
{
    if syms.len() == 0 {
        Seq::empty()
    } else {
        let prev = file_symbols(syms.drop_last(), path);
        if syms.last().path@ == path {
            prev.push(syms.last())
        } else {
            prev
        }
    }
}

/// Kinds of symbols a module exports.
pub open spec fn is_export_kind(k: SymbolKind) -> bool {
    k == SymbolKind::Function || k == SymbolKind::Struct || k == SymbolKind::Class || k
        == SymbolKind::Trait || k == SymbolKind::Enum
}

/// Exports of a module: `name (kind)` for each exported symbol.
pub open spec fn exports_of(fs: Seq<Symbol>) -> Seq<Seq<char>>
    decreases fs.len(),
{
    if fs.len() == 0 {
        Seq::empty()
    } else {
        let prev = exports_of(fs.drop_last());
        let s = fs.last();
        if is_export_kind(s.kind) {
            prev.push(s.name@ + " ("@ + s.kind.label_text() + ")"@)
        } else {
            prev
        }
    }
}

/// How many symbols of each kind, kinds in order of first appearance.
pub open spec fn kind_counts(fs: Seq<Symbol>) -> Seq<(Seq<char>, nat)>
    decreases fs.len(),
{
    if fs.len() == 0 {
        Seq::empty()
    } else {
        let prev = kind_counts(fs.drop_last());
        let l = fs.last().kind.label_text();
        match compression::key_index(prev, l) {
            Some(i) => prev.update(i, (l, prev[i].1 + 1)),
            None => prev.push((l, 1)),
        }
    }
}

/// The part of a path before its first `/` (the whole path when it has none).
pub open spec fn package_of_spec(path: Seq<char>) -> Seq<char>
    decreases path.len(),
{
    if path.len() == 0 {
        Seq::empty()
    } else if path[0] == '/' {
        Seq::empty()
    } else {
        seq![path[0]] + package_of_spec(path.drop_first())
    }
}

/// One line per kind count: `count kind(s)`.
pub open spec fn count_lines(counts: Seq<(Seq<char>, nat)>) -> Seq<Seq<char>> {
    counts.map_values(|p: (Seq<char>, nat)| text::decimal(p.1) + " "@ + p.0 + "(s)"@)
}

/// Responsibilities of a module: its package area, its symbol counts per kind, or
/// `Supporting module` when it has no symbols.
pub open spec fn responsibilities_of(path: Seq<char>, fs: Seq<Symbol>) -> Seq<Seq<char>> {
    let base = seq!["Package area: "@ + package_of_spec(path)] + count_lines(kind_counts(fs));
    if base.len() == 1 {
        base.push("Supporting module"@)
    } else {
        base
    }
}

/// Assumptions visible in a file's text.
pub open spec fn assumptions_of(content: Seq<char>) -> Seq<Seq<char>> {
    let a = if text::contains(content, "unwrap()"@) || text::contains(content, "expect("@) {
        seq!["Uses infallible unwrap/expect in places"@]
    } else {
        Seq::empty()
    };
    let b = if text::contains(content, "TODO"@) || text::contains(content, "FIXME"@) {
        a.push("Contains TODO/FIXME markers"@)
    } else {
        a
    };
    if text::contains(content, "unsafe "@) {
        b.push("Contains unsafe blocks"@)
    } else {
        b
    }
}

/// Side effects visible in a file's text.
pub open spec fn side_effects_of(content: Seq<char>) -> Seq<Seq<char>> {
    let a = if text::contains(content, "fs::"@) || text::contains(content, "open("@)
        || text::contains(content, "write("@) {
        seq!["Filesystem I/O"@]
    } else {
        Seq::empty()
    };
    let b = if text::contains(content, "sql"@) || text::contains(content, "query"@)
        || text::contains(content, "db."@) {
        a.push("Database access"@)
    } else {
        a
    };
    if text::contains(content, "fetch("@) || text::contains(content, "http"@) || text::contains(
        content,
        "reqwest"@,
    ) {
        b.push("Network I/O"@)
    } else {
        b
    }
}

/// Items as a markdown list: `- item` lines.
pub open spec fn bullets(items: Seq<Seq<char>>) -> Seq<char>
    decreases items.len(),
{
    if items.len() == 0 {
        Seq::empty()
    } else {
        bullets(items.drop_last()) + "- "@ + items.last() + "\n"@
    }
}

/// A titled list that is left out when empty.
pub open spec fn optional_section(title: Seq<char>, items: Seq<Seq<char>>) -> Seq<char> {
    if items.len() == 0 {
        Seq::empty()
    } else {
        title + bullets(items)
    }
}

/// The markdown text of a module summary.
pub open spec fn module_text(
    path: Seq<char>,
    responsibilities: Seq<Seq<char>>,
    exports: Seq<Seq<char>>,
    deps: Seq<Seq<char>>,
    assumptions: Seq<Seq<char>>,
    side_effects: Seq<Seq<char>>,
) -> Seq<char> {
    "# Module: "@ + path + "\n\n"@ + "## Responsibilities\n"@ + bullets(responsibilities)
        + "\n## Exports\n"@ + bullets(exports) + "\n## Dependencies\n"@ + bullets(deps)
        + optional_section("\n## Assumptions\n"@, assumptions) + optional_section(
        "\n## Side effects\n"@,
        side_effects,
    )
}

/// The raw text of the module memory of file `path`.
pub open spec fn module_raw(path: Seq<char>, content: Seq<char>, syms: Seq<Symbol>, imports: Seq<Seq<char>>) -> Seq<char> {
    let fs = file_symbols(syms, path);
    module_text(
        path,
        responsibilities_of(path, fs),
        exports_of(fs),
        imports,
        assumptions_of(content),
        side_effects_of(content),
    )
}

/// A text that heuristic compression can summarise without cutting inside a character.
pub open spec fn text_compressible(raw: Seq<char>) -> bool {
    compression::summary_cut_ok(raw, 400) && compression::summary_cut_ok(compression::summary_of(raw, 400), 100)
}

/// The compressed text made from a raw text.
pub open spec fn compressed_from(t: CompressedText, raw: Seq<char>) -> bool {
    &&& text::opt_chars(t.raw) == Some(raw)
    &&& text::opt_chars(t.summary) == Some(compression::summary_of(raw, 400))
    &&& text::opt_chars(t.ultra_summary) == Some(compression::summary_of(compression::summary_of(raw, 400), 100))
    &&& t.keyword_views() == compression::keywords_of(raw)
    &&& t.embedding is None
}

/// Importance in thousandths: `per` thousandths for each of `n` symbols, at most 1000.
pub open spec fn importance_per_symbol(n: nat, per: nat) -> nat {
    if n * per >= 1000 {
        1000
    } else {
        n * per
    }
}

// ---------------------------------------------------------------------------
// Building
// ---------------------------------------------------------------------------

/// Compressed text for a raw text, all tiers filled in.
pub fn compress_raw(raw: String) -> (r: CompressedText)
    requires
        text_compressible(raw@),
    ensures
        compressed_from(r, raw@),
{
    let mut t = CompressedText::from_raw(raw);
    t.compress_heuristic();
    t
}

/// Whether heuristic compression can summarise `raw` without cutting inside a character.
pub fn compressible(raw: &str) -> (r: bool)
    ensures
        r == text_compressible(raw@),
{
    if !compression::summary_fits(raw, 400) {
        false
    } else {
        let summary = compression::heuristic_summary(raw, 400);
        compression::summary_fits(summary.as_str(), 100)
    }
}

/// Appends `- item` lines.
pub fn push_bullets(out: &mut String, items: &Vec<String>)
    ensures
        final(out)@ == old(out)@ + bullets(graph::views(items@)),
{
    let ghost iv = graph::views(items@);
    let ghost start = out@;
    let mut i: usize = 0;
    while i < items.len()
        invariant
            i <= items@.len(),
            iv == graph::views(items@),
            out@ == start + bullets(iv.take(i as int)),
        decreases items@.len() - i,
    {
        assert(iv.take(i + 1).drop_last() =~= iv.take(i as int));
        assert(iv.take(i + 1).last() == items@[i as int]@);
        text::push_str(out, "- ");
        text::push_str(out, items[i].as_str());
        text::push_str(out, "\n");
        assert(out@ =~= start + bullets(iv.take(i + 1)));
        i += 1;
    }
    assert(iv.take(items@.len() as int) =~= iv);
}

fn format_module_text(summary: &ModuleSummary, responsibilities: &Vec<String>) -> (r: String)
    ensures
        r@ == module_text(
            summary.path@,
            graph::views(responsibilities@),
            graph::views(summary.exports@),
            graph::views(summary.dependencies@),
            graph::views(summary.assumptions@),
            graph::views(summary.side_effects@),
        ),
{
    let mut out = text::owned("# Module: ");
    text::push_str(&mut out, summary.path.as_str());
    text::push_str(&mut out, "\n\n");
    text::push_str(&mut out, "## Responsibilities\n");
    push_bullets(&mut out, responsibilities);
    text::push_str(&mut out, "\n## Exports\n");
    push_bullets(&mut out, &summary.exports);
    text::push_str(&mut out, "\n## Dependencies\n");
    push_bullets(&mut out, &summary.dependencies);
    let ghost before_opt = out@;
    if summary.assumptions.len() > 0 {
        text::push_str(&mut out, "\n## Assumptions\n");
        push_bullets(&mut out, &summary.assumptions);
    }
    assert(out@ =~= before_opt + optional_section("\n## Assumptions\n"@, graph::views(summary.assumptions@)));
    let ghost mid = out@;
    if summary.side_effects.len() > 0 {
        text::push_str(&mut out, "\n## Side effects\n");
        push_bullets(&mut out, &summary.side_effects);
    }
    assert(out@ =~= mid + optional_section("\n## Side effects\n"@, graph::views(summary.side_effects@)));
    out
}

/// The part of a path before its first `/`.
pub fn package_of(path: &str) -> (r: String)
    ensures
        r@ == package_of_spec(path@),
{
    let cs = text::chars_of(path);
    let mut i: usize = 0;
    assert(cs@.subrange(0, 0) + cs@.skip(0) =~= cs@.skip(0));
    assert(cs@.skip(0) =~= cs@);
    while i < cs.len() && cs[i] != '/'
        invariant
            i <= cs@.len(),
            package_of_spec(cs@) == cs@.subrange(0, i as int) + package_of_spec(cs@.skip(i as int)),
        decreases cs@.len() - i,
    {
        assert(cs@.skip(i as int)[0] == cs@[i as int]);
        assert(cs@.skip(i as int).drop_first() =~= cs@.skip(i + 1));
        assert(cs@.subrange(0, i as int) + seq![cs@[i as int]] =~= cs@.subrange(0, i + 1));
        i += 1;
    }
    proof {
        assert(cs@.skip(0) =~= cs@);
        if i == cs@.len() {
            assert(cs@.skip(i as int) =~= Seq::<char>::empty());
        } else {
            assert(cs@.skip(i as int)[0] == '/');
        }
        assert(cs@.subrange(0, i as int) + Seq::<char>::empty() =~= cs@.subrange(0, i as int));
    }
    text::string_of(&cs, 0, i)
}

/// Symbols counted per kind label, kinds in order of first appearance.
pub fn count_kinds(fs: &Vec<&Symbol>) -> (r: Vec<(String, usize)>)
    ensures
        r@.map_values(|p: (String, usize)| compression::count_view(p)) == kind_counts(fs@.map_values(|s: &Symbol| *s)),
{
    let ghost sv = fs@.map_values(|s: &Symbol| *s);
    let mut counts: Vec<(String, usize)> = Vec::new();
    let mut i: usize = 0;
    while i < fs.len()
        invariant
            i <= fs@.len(),
            sv == fs@.map_values(|s: &Symbol| *s),
            counts@.map_values(|p: (String, usize)| compression::count_view(p)) == kind_counts(sv.take(i as int)),
            forall|k: int| 0 <= k < counts@.len() ==> #[trigger] counts@[k].1 <= i,
        decreases fs@.len() - i,
    {
        let l = fs[i].kind.label();
        let ghost cv = counts@.map_values(|p: (String, usize)| compression::count_view(p));
        assert(sv.take(i + 1).drop_last() =~= sv.take(i as int));
        assert(sv.take(i + 1).last() == *fs@[i as int]);
        let mut j: usize = 0;
        while j < counts.len() && !text::str_eq(counts[j].0.as_str(), l)
            invariant
                j <= counts@.len(),
                cv == counts@.map_values(|p: (String, usize)| compression::count_view(p)),
                compression::key_index(cv.take(j as int), l@) is None,
            decreases counts@.len() - j,
        {
            assert(cv.take(j + 1).drop_last() =~= cv.take(j as int));
            j += 1;
        }
        proof {
            compression::lemma_key_index_prefix(cv, l@, j as int);
        }
        if j < counts.len() {
            let c = counts[j].1;
            let ghost old_counts = counts@;
            counts.set(j, (text::owned(l), c + 1));
            assert(counts@.map_values(|p: (String, usize)| compression::count_view(p)) =~= cv.update(j as int, (cv[j as int].0, cv[j as int].1 + 1)));
            assert forall|m: int| 0 <= m < counts@.len() implies #[trigger] counts@[m].1 <= i + 1 by {
                if m != j {
                    assert(counts@[m] == old_counts[m]);
                }
            }
        } else {
            counts.push((text::owned(l), 1));
            assert(counts@.map_values(|p: (String, usize)| compression::count_view(p)) =~= cv.push((l@, 1nat)));
        }
        i += 1;
    }
    assert(sv.take(fs@.len() as int) =~= sv);
    counts
}

fn infer_responsibilities(path: &str, fs: &Vec<&Symbol>) -> (r: Vec<String>)
    ensures
        graph::views(r@) == responsibilities_of(path@, fs@.map_values(|s: &Symbol| *s)),
{
    let counts = count_kinds(fs);
    let ghost cv = counts@.map_values(|p: (String, usize)| compression::count_view(p));
    let mut out: Vec<String> = Vec::new();
    let mut first = text::owned("Package area: ");
    let stem = package_of(path);
    text::push_str(&mut first, stem.as_str());
    out.push(first);
    let ghost head = seq!["Package area: "@ + package_of_spec(path@)];
    assert(graph::views(out@) =~= head);
    let mut k: usize = 0;
    while k < counts.len()
        invariant
            k <= counts@.len(),
            cv == counts@.map_values(|p: (String, usize)| compression::count_view(p)),
            graph::views(out@) == head + count_lines(cv.take(k as int)),
        decreases counts@.len() - k,
    {
        let mut line = String::new();
        text::push_decimal(&mut line, counts[k].1);
        text::push_str(&mut line, " ");
        text::push_str(&mut line, counts[k].0.as_str());
        text::push_str(&mut line, "(s)");
        let ghost pre = graph::views(out@);
        out.push(line);
        assert(graph::views(out@) =~= pre.push(line@));
        assert(count_lines(cv.take(k + 1)) =~= count_lines(cv.take(k as int)).push(line@));
        k += 1;
    }
    assert(cv.take(counts@.len() as int) =~= cv);
    if out.len() == 1 {
        let ghost pre = graph::views(out@);
        out.push(text::owned("Supporting module"));
        assert(graph::views(out@) =~= pre.push("Supporting module"@));
    }
    out
}

fn infer_assumptions(content: &str) -> (r: Vec<String>)
    ensures
        graph::views(r@) == assumptions_of(content@),
{
    let mut out: Vec<String> = Vec::new();
    if text::str_contains(content, "unwrap()") || text::str_contains(content, "expect(") {
        out.push(text::owned("Uses infallible unwrap/expect in places"));
    }
    let ghost a = graph::views(out@);
    if text::str_contains(content, "TODO") || text::str_contains(content, "FIXME") {
        out.push(text::owned("Contains TODO/FIXME markers"));
        assert(graph::views(out@) =~= a.push("Contains TODO/FIXME markers"@));
    }
    let ghost b = graph::views(out@);
    if text::str_contains(content, "unsafe ") {
        out.push(text::owned("Contains unsafe blocks"));
        assert(graph::views(out@) =~= b.push("Contains unsafe blocks"@));
    }
    assert(graph::views(out@) =~= assumptions_of(content@));
    out
}

fn infer_side_effects(content: &str) -> (r: Vec<String>)
    ensures
        graph::views(r@) == side_effects_of(content@),
{
    let mut out: Vec<String> = Vec::new();
    if text::str_contains(content, "fs::") || text::str_contains(content, "open(")
        || text::str_contains(content, "write(") {
        out.push(text::owned("Filesystem I/O"));
    }
    let ghost a = graph::views(out@);
    if text::str_contains(content, "sql") || text::str_contains(content, "query")
        || text::str_contains(content, "db.") {
        out.push(text::owned("Database access"));
        assert(graph::views(out@) =~= a.push("Database access"@));
    }
    let ghost b = graph::views(out@);
    if text::str_contains(content, "fetch(") || text::str_contains(content, "http")
        || text::str_contains(content, "reqwest") {
        out.push(text::owned("Network I/O"));
        assert(graph::views(out@) =~= b.push("Network I/O"@));
    }
    assert(graph::views(out@) =~= side_effects_of(content@));
    out
}

/// The module memory of file `path`: its text, symbols and imports, and the hash of the
/// file's content, by which a later run knows whether the file changed.
pub open spec fn is_module_memory(
    o: MemoryObject,
    path: Seq<char>,
    content: Seq<char>,
    syms: Seq<Symbol>,
    imports: Seq<Seq<char>>,
) -> bool {
    let raw = module_raw(path, content, syms, imports);
    let fs = file_symbols(syms, path);
    &&& o.id@ == "module:"@ + path
    &&& o.kind == MemoryKind::Module
    &&& text::opt_chars(o.path) == Some(path)
    &&& compressed_from(o.text, raw)
    &&& graph::views(o.dependencies@) == imports
    &&& graph::views(o.symbols@) == fs.map_values(|s: Symbol| s.id@)
    &&& o.hash@ == store::content_hash_of(vstd::utf8::encode_utf8(content))
    &&& o.importance == importance_per_symbol(fs.len(), 100)
    &&& o.risk == 0
    &&& o.git_commit is None
    &&& (o.confidence matches Some(c) && c.score == 900 && c.reason@ == "derived from symbol index"@
        && graph::views(c.retrieval_path@) == seq!["indexer"@, path])
}

/// Importance in thousandths for `n` symbols at `per` thousandths each, capped at 1000.
pub fn importance_for(n: usize, per: u32) -> (r: u32)
    requires
        0 < per <= 1000,
    ensures
        r == importance_per_symbol(n as nat, per as nat),
{
    if n >= 1000 {
        assert(n * per >= 1000) by (nonlinear_arith)
            requires
                n >= 1000,
                per >= 1,
        ;
        1000
    } else {
        assert(n * per <= 999000) by (nonlinear_arith)
            requires
                n < 1000,
                per <= 1000,
        ;
        let p = (n as u32) * per;
        if p >= 1000 {
            1000
        } else {
            p
        }
    }
}

/// The symbols that lie in file `path`, in index order.
fn file_symbols_of<'a>(path: &str, symbols: &'a Vec<Symbol>) -> (r: Vec<&'a Symbol>)
    ensures
        r@.map_values(|s: &Symbol| *s) == file_symbols(symbols@, path@),
{
    let mut fs: Vec<&Symbol> = Vec::new();
    let mut i: usize = 0;
    while i < symbols.len()
        invariant
            i <= symbols@.len(),
            fs@.map_values(|s: &Symbol| *s) == file_symbols(symbols@.take(i as int), path@),
        decreases symbols@.len() - i,
    {
        let ghost pre = fs@.map_values(|s: &Symbol| *s);
        assert(symbols@.take(i + 1).drop_last() =~= symbols@.take(i as int));
        assert(symbols@.take(i + 1).last() == symbols@[i as int]);
        if text::str_eq(symbols[i].path.as_str(), path) {
            fs.push(&symbols[i]);
            assert(fs@.map_values(|s: &Symbol| *s) =~= pre.push(symbols@[i as int]));
        }
        i += 1;
    }
    assert(symbols@.take(symbols@.len() as int) =~= symbols@);
    fs
}

/// The markdown text of a module from its file's symbols.
fn module_text_of(path: &str, content: &str, fs: &Vec<&Symbol>, imports: &Vec<String>) -> (r: String)
    ensures
        r@ == module_text(
            path@,
            responsibilities_of(path@, fs@.map_values(|s: &Symbol| *s)),
            exports_of(fs@.map_values(|s: &Symbol| *s)),
            graph::views(imports@),
            assumptions_of(content@),
            side_effects_of(content@),
        ),
{
    let ghost fsv = fs@.map_values(|s: &Symbol| *s);
    let mut exports: Vec<String> = Vec::new();
    let mut k: usize = 0;
    while k < fs.len()
        invariant
            k <= fs@.len(),
            fsv == fs@.map_values(|s: &Symbol| *s),
            graph::views(exports@) == exports_of(fsv.take(k as int)),
        decreases fs@.len() - k,
    {
        let s = fs[k];
        assert(fsv.take(k + 1).drop_last() =~= fsv.take(k as int));
        assert(fsv.take(k + 1).last() == *s);
        let ghost pe = graph::views(exports@);
        if s.kind == SymbolKind::Function || s.kind == SymbolKind::Struct || s.kind == SymbolKind::Class
            || s.kind == SymbolKind::Trait || s.kind == SymbolKind::Enum {
            let mut e = s.name.clone();
            text::push_str(&mut e, " (");
            text::push_str(&mut e, s.kind.label());
            text::push_str(&mut e, ")");
            exports.push(e);
            assert(graph::views(exports@) =~= pe.push(e@));
        }
        k += 1;
    }
    assert(fsv.take(fs@.len() as int) =~= fsv);
    let responsibilities = infer_responsibilities(path, fs);
    let summary = ModuleSummary {
        path: text::owned(path),
        exports,
        dependencies: text::clone_strings(imports),
        assumptions: infer_assumptions(content),
        side_effects: infer_side_effects(content),
    };
    format_module_text(&summary, &responsibilities)
}

/// The raw text of the module memory of file `path`.
pub fn module_raw_text(path: &str, content: &str, symbols: &Vec<Symbol>, imports: &Vec<String>) -> (r:
    String)
    ensures
        r@ == module_raw(path@, content@, symbols@, graph::views(imports@)),
{
    let fs = file_symbols_of(path, symbols);
    module_text_of(path, content, &fs, imports)
}

/// Builds the module memory of file `path` from its content, the symbol index and its imports.
pub fn build_module_memory(path: &str, content: &str, symbols: &Vec<Symbol>, imports: &Vec<String>) -> (r:
    MemoryObject)
    requires
        text_compressible(module_raw(path@, content@, symbols@, graph::views(imports@))),
    ensures
        is_module_memory(r, path@, content@, symbols@, graph::views(imports@)),
{
    let fs = file_symbols_of(path, symbols);
    let ghost fsv = fs@.map_values(|s: &Symbol| *s);
    let mut ids: Vec<String> = Vec::new();
    let mut k: usize = 0;
    while k < fs.len()
        invariant
            k <= fs@.len(),
            fsv == fs@.map_values(|s: &Symbol| *s),
            graph::views(ids@) == fsv.take(k as int).map_values(|s: Symbol| s.id@),
        decreases fs@.len() - k,
    {
        let s = fs[k];
        assert(fsv.take(k + 1).drop_last() =~= fsv.take(k as int));
        assert(fsv.take(k + 1).last() == *s);
        let ghost pi = graph::views(ids@);
        ids.push(s.id.clone());
        assert(graph::views(ids@) =~= pi.push(s.id@));
        assert(fsv.take(k + 1).map_values(|s: Symbol| s.id@) =~= fsv.take(k as int).map_values(|s: Symbol| s.id@).push(s.id@));
        k += 1;
    }
    assert(fsv.take(fs@.len() as int) =~= fsv);
    let raw = module_text_of(path, content, &fs, imports);
    let hash = store::text_hash(content);
    let mut id = text::owned("module:");
    text::push_str(&mut id, path);
    let mut obj = MemoryObject::new(id, MemoryKind::Module, hash);
    obj.path = Some(text::owned(path));
    obj.dependencies = text::clone_strings(imports);
    obj.symbols = ids;
    obj.text = compress_raw(raw);
    let mut cpath: Vec<String> = Vec::new();
    cpath.push(text::owned("indexer"));
    cpath.push(text::owned(path));
    assert(graph::views(cpath@) =~= seq!["indexer"@, path@]);
    obj.confidence = Some(Confidence::high(text::owned("derived from symbol index"), cpath));
    obj.importance = importance_for(fs.len(), 100);
    obj
}

/// The export line of a symbol: its name and kind label.
pub open spec fn export_line(s: Symbol) -> Seq<char> {
    s.name@ + " ("@ + s.kind.label_text() + ")"@
}

proof fn lemma_exports_of_contains(fs: Seq<Symbol>, e: Seq<char>)
    ensures
        exports_of(fs).contains(e) <==> exists|k: int|
            0 <= k < fs.len() && is_export_kind(#[trigger] fs[k].kind) && e == export_line(fs[k]),
    decreases fs.len(),
{
    if fs.len() > 0 {
        let d = fs.drop_last();
        lemma_exports_of_contains(d, e);
        let prev = exports_of(d);
        let cur = exports_of(fs);
        if cur.contains(e) {
            let j = choose|j: int| 0 <= j < cur.len() && cur[j] == e;
            if j < prev.len() {
                assert(prev[j] == e);
                assert(prev.contains(e));
                let k = choose|k: int| 0 <= k < d.len() && is_export_kind(#[trigger] d[k].kind) && e == export_line(d[k]);
                assert(fs[k] == d[k]);
            } else {
                assert(fs[fs.len() - 1] == fs.last());
            }
        }
        if exists|k: int| 0 <= k < fs.len() && is_export_kind(#[trigger] fs[k].kind) && e == export_line(fs[k]) {
            let k = choose|k: int| 0 <= k < fs.len() && is_export_kind(#[trigger] fs[k].kind) && e == export_line(fs[k]);
            if k < d.len() {
                assert(d[k] == fs[k]);
                assert(prev.contains(e));
                let j = choose|j: int| 0 <= j < prev.len() && prev[j] == e;
                assert(cur[j] == e);
            } else {
                assert(cur[cur.len() - 1] == e);
            }
        }
    }
}

proof fn lemma_file_symbols_contains(syms: Seq<Symbol>, path: Seq<char>, x: Symbol)
    ensures
        file_symbols(syms, path).contains(x) <==> syms.contains(x) && x.path@ == path,
    decreases syms.len(),
{
    if syms.len() > 0 {
        let d = syms.drop_last();
        lemma_file_symbols_contains(d, path, x);
        let prev = file_symbols(d, path);
        let cur = file_symbols(syms, path);
        if cur.contains(x) {
            let j = choose|j: int| 0 <= j < cur.len() && cur[j] == x;
            if j < prev.len() {
                assert(prev[j] == x);
                assert(prev.contains(x));
                let k = choose|k: int| 0 <= k < d.len() && d[k] == x;
                assert(syms[k] == x);
            } else {
                assert(syms[syms.len() - 1] == x);
            }
        }
        if syms.contains(x) && x.path@ == path {
            let k = choose|k: int| 0 <= k < syms.len() && syms[k] == x;
            if k < d.len() {
                assert(d[k] == x);
                assert(prev.contains(x));
                let j = choose|j: int| 0 <= j < prev.len() && prev[j] == x;
                assert(cur[j] == x);
            } else {
                assert(cur[cur.len() - 1] == x);
            }
        }
    }
}

/// Export law: a module lists under its exports every function, struct, class, trait and
/// enum of its file as `name (kind)`, and nothing else.
pub proof fn lemma_module_exports(syms: Seq<Symbol>, path: Seq<char>)
    ensures
        forall|i: int|
            0 <= i < syms.len() && (#[trigger] syms[i]).path@ == path && (syms[i].kind == SymbolKind::Function
                || syms[i].kind == SymbolKind::Struct || syms[i].kind == SymbolKind::Class || syms[i].kind
                == SymbolKind::Trait || syms[i].kind == SymbolKind::Enum) ==> exports_of(file_symbols(syms, path)).contains(
                syms[i].name@ + " ("@ + syms[i].kind.label_text() + ")"@,
            ),
        forall|e: Seq<char>|
            #[trigger] exports_of(file_symbols(syms, path)).contains(e) ==> exists|i: int|
                0 <= i < syms.len() && (#[trigger] syms[i]).path@ == path && (syms[i].kind == SymbolKind::Function
                    || syms[i].kind == SymbolKind::Struct || syms[i].kind == SymbolKind::Class
                    || syms[i].kind == SymbolKind::Trait || syms[i].kind == SymbolKind::Enum) && e == syms[i].name@
                    + " ("@ + syms[i].kind.label_text() + ")"@,
{
    let fs = file_symbols(syms, path);
    assert forall|i: int|
        0 <= i < syms.len() && (#[trigger] syms[i]).path@ == path && (syms[i].kind == SymbolKind::Function
            || syms[i].kind == SymbolKind::Struct || syms[i].kind == SymbolKind::Class || syms[i].kind
            == SymbolKind::Trait || syms[i].kind == SymbolKind::Enum) implies exports_of(fs).contains(
            syms[i].name@ + " ("@ + syms[i].kind.label_text() + ")"@,
        ) by {
        assert(syms.contains(syms[i]));
        lemma_file_symbols_contains(syms, path, syms[i]);
        let k = choose|k: int| 0 <= k < fs.len() && fs[k] == syms[i];
        lemma_exports_of_contains(fs, export_line(syms[i]));
    }
    assert forall|e: Seq<char>| #[trigger] exports_of(fs).contains(e) implies exists|i: int|
        0 <= i < syms.len() && (#[trigger] syms[i]).path@ == path && (syms[i].kind == SymbolKind::Function
            || syms[i].kind == SymbolKind::Struct || syms[i].kind == SymbolKind::Class
            || syms[i].kind == SymbolKind::Trait || syms[i].kind == SymbolKind::Enum) && e == syms[i].name@
            + " ("@ + syms[i].kind.label_text() + ")"@ by {
        lemma_exports_of_contains(fs, e);
        let k = choose|k: int| 0 <= k < fs.len() && is_export_kind(#[trigger] fs[k].kind) && e == export_line(fs[k]);
        assert(fs.contains(fs[k]));
        lemma_file_symbols_contains(syms, path, fs[k]);
        let i = choose|i: int| 0 <= i < syms.len() && syms[i] == fs[k];
        assert(syms[i].path@ == path);
    }
}

} // verus!
