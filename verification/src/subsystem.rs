//! L3 subsystem memory: symbols clustered by top-level package directory.
use vstd::prelude::*;
use crate::compression;
use crate::graph;
use crate::memory::Confidence;
use crate::module;
use crate::object::{MemoryKind, MemoryObject};
use crate::store;
use crate::symbol::Symbol;
use crate::text;

verus! {

// ---------------------------------------------------------------------------
// Specifications
// ---------------------------------------------------------------------------

/// The distinct packages of the symbols' paths, in order of first appearance.
pub open spec fn packages_of(syms: Seq<Symbol>) -> Seq<Seq<char>>
    decreases syms.len(),
{
    if syms.len() == 0 {
        Seq::empty()
    } else {
        let prev = packages_of(syms.drop_last());
        let p = module::package_of_spec(syms.last().path@);
        if prev.contains(p) {
            prev
        } else {
            prev.push(p)
        }
    }
}

/// Inserts `x` into a list after every entry that `x` does not sort before.
pub open spec fn insert_sorted(s: Seq<Seq<char>>, x: Seq<char>) -> Seq<Seq<char>>
    decreases s.len(),
{
    if s.len() == 0 || !compression::lex_lt(x, s.last()) {
        s.push(x)
    } else {
        insert_sorted(s.drop_last(), x).push(s.last())
    }
}

/// A list sorted by code points (insertion sort, stable).
pub open spec fn sort_strs(s: Seq<Seq<char>>) -> Seq<Seq<char>>
    decreases s.len(),
{
    if s.len() == 0 {
        Seq::empty()
    } else {
        insert_sorted(sort_strs(s.drop_last()), s.last())
    }
}

/// The packages that get a subsystem, in the order of their ids.
pub open spec fn subsystem_packages(syms: Seq<Symbol>) -> Seq<Seq<char>> {
    sort_strs(packages_of(syms))
}

/// The symbols of package `pkg`, in index order.
pub open spec fn package_symbols(syms: Seq<Symbol>, pkg: Seq<char>) -> Seq<Symbol>
    decreases syms.len(),
{
    if syms.len() == 0 {
        Seq::empty()
    } else {
        let prev = package_symbols(syms.drop_last(), pkg);
        if module::package_of_spec(syms.last().path@) == pkg {
            prev.push(syms.last())
        } else {
            prev
        }
    }
}

/// The paths of the module memories that lie in package `pkg`, in order.
pub open spec fn package_modules(mods: Seq<MemoryObject>, pkg: Seq<char>) -> Seq<Seq<char>>
    decreases mods.len(),
{
    if mods.len() == 0 {
        Seq::empty()
    } else {
        let prev = package_modules(mods.drop_last(), pkg);
        match mods.last().path {
            Some(p) => if module::package_of_spec(p@) == pkg {
                prev.push(p@)
            } else {
                prev
            },
            None => prev,
        }
    }
}

/// `- count kind` lines.
pub open spec fn composition_lines(counts: Seq<(Seq<char>, nat)>) -> Seq<Seq<char>> {
    counts.map_values(|p: (Seq<char>, nat)| "- "@ + text::decimal(p.1) + " "@ + p.0)
}

/// `- path` lines.
pub open spec fn dash_lines(items: Seq<Seq<char>>) -> Seq<Seq<char>> {
    items.map_values(|p: Seq<char>| "- "@ + p)
}

/// The markdown text of a subsystem.
pub open spec fn subsystem_text(pkg: Seq<char>, ps: Seq<Symbol>, mp: Seq<Seq<char>>) -> Seq<char> {
    "# Subsystem: "@ + pkg + "\n\nFiles: "@ + text::decimal(mp.len()) + "\nSymbols: "@
        + text::decimal(ps.len()) + "\n\n## Composition\n"@ + text::join(
        composition_lines(module::kind_counts(ps)),
        "\n"@,
    ) + "\n\n## Modules\n"@ + text::join(dash_lines(mp), "\n"@)
}

/// The raw text of the subsystem of package `pkg`.
pub open spec fn subsystem_raw(pkg: Seq<char>, syms: Seq<Symbol>, mods: Seq<MemoryObject>) -> Seq<char> {
    subsystem_text(pkg, package_symbols(syms, pkg), package_modules(mods, pkg))
}

/// Every subsystem text can be summarised without cutting inside a character.
pub open spec fn subsystems_compressible(syms: Seq<Symbol>, mods: Seq<MemoryObject>) -> bool {
    forall|p: Seq<char>| #[trigger] packages_of(syms).contains(p) ==> module::text_compressible(subsystem_raw(p, syms, mods))
}

/// The subsystem memory of package `pkg`.
pub open spec fn is_subsystem_memory(
    o: MemoryObject,
    pkg: Seq<char>,
    syms: Seq<Symbol>,
    mods: Seq<MemoryObject>,
) -> bool {
    let ps = package_symbols(syms, pkg);
    let mp = package_modules(mods, pkg);
    let raw = subsystem_text(pkg, ps, mp);
    &&& o.id@ == "subsystem:"@ + pkg
    &&& o.kind == MemoryKind::Subsystem
    &&& text::opt_chars(o.path) == Some(pkg)
    &&& module::compressed_from(o.text, raw)
    &&& graph::views(o.dependencies@) == mp
    &&& graph::views(o.symbols@) == ps.map_values(|s: Symbol| s.id@)
    &&& o.hash@ == store::content_hash_of(vstd::utf8::encode_utf8(raw))
    &&& o.importance == module::importance_per_symbol(ps.len(), 20)
    &&& o.risk == 0
    &&& o.git_commit is None
    &&& (o.confidence matches Some(c) && c.score == 600 && c.reason@
        == "clustered by top-level package directory"@ && graph::views(c.retrieval_path@) == seq![
        "indexer"@,
        pkg,
    ])
}

/// `subs` are the subsystem memories of the symbols and modules, in order of their ids.
pub open spec fn is_subsystem_list(subs: Seq<MemoryObject>, syms: Seq<Symbol>, mods: Seq<MemoryObject>) -> bool {
    &&& subs.len() == subsystem_packages(syms).len()
    &&& forall|i: int|
        0 <= i < subs.len() ==> is_subsystem_memory(
            #[trigger] subs[i],
            subsystem_packages(syms)[i],
            syms,
            mods,
        )
}

// ---------------------------------------------------------------------------
// Proofs about the sort
// ---------------------------------------------------------------------------

proof fn lemma_insert_sorted_at(s: Seq<Seq<char>>, x: Seq<char>, j: int)
    requires
        0 <= j <= s.len(),
        forall|k: int| j <= k < s.len() ==> compression::lex_lt(x, #[trigger] s[k]),
        j == 0 || !compression::lex_lt(x, s[j - 1]),
    ensures
        insert_sorted(s, x) == s.subrange(0, j).push(x) + s.subrange(j, s.len() as int),
    decreases s.len(),
{
    if s.len() == j {
        assert(s.subrange(0, j) =~= s);
        assert(s.push(x) =~= s.subrange(0, j).push(x) + s.subrange(j, s.len() as int));
    } else {
        let d = s.drop_last();
        assert(compression::lex_lt(x, s[s.len() - 1]));
        lemma_insert_sorted_at(d, x, j);
        assert(insert_sorted(s, x) =~= s.subrange(0, j).push(x) + s.subrange(j, s.len() as int));
    }
}

// ---------------------------------------------------------------------------
// Building
// ---------------------------------------------------------------------------

/// Whether `v` holds `p`.
fn holds(v: &Vec<String>, p: &String) -> (r: bool)
    ensures
        r == graph::views(v@).contains(p@),
{
    let ghost vv = graph::views(v@);
    let mut j: usize = 0;
    while j < v.len()
        invariant
            j <= v@.len(),
            vv == graph::views(v@),
            forall|k: int| 0 <= k < j ==> vv[k] != p@,
        decreases v@.len() - j,
    {
        if text::str_eq(v[j].as_str(), p.as_str()) {
            assert(vv[j as int] == p@);
            return true;
        }
        j += 1;
    }
    false
}

/// The distinct packages of the symbols' paths, in order of first appearance.
fn distinct_packages(symbols: &Vec<Symbol>) -> (r: Vec<String>)
    ensures
        graph::views(r@) == packages_of(symbols@),
{
    let mut pkgs: Vec<String> = Vec::new();
    let mut i: usize = 0;
    while i < symbols.len()
        invariant
            i <= symbols@.len(),
            graph::views(pkgs@) == packages_of(symbols@.take(i as int)),
        decreases symbols@.len() - i,
    {
        assert(symbols@.take(i + 1).drop_last() =~= symbols@.take(i as int));
        assert(symbols@.take(i + 1).last() == symbols@[i as int]);
        let p = module::package_of(symbols[i].path.as_str());
        if !holds(&pkgs, &p) {
            let ghost pre = graph::views(pkgs@);
            pkgs.push(p);
            assert(graph::views(pkgs@) =~= pre.push(p@));
        }
        i += 1;
    }
    assert(symbols@.take(symbols@.len() as int) =~= symbols@);
    pkgs
}

/// The packages that get a subsystem, sorted.
fn sorted_packages(symbols: &Vec<Symbol>) -> (r: Vec<String>)
    ensures
        graph::views(r@) == subsystem_packages(symbols@),
{
    let pkgs = distinct_packages(symbols);
    let ghost pv = graph::views(pkgs@);
    let mut sorted: Vec<String> = Vec::new();
    let mut m: usize = 0;
    while m < pkgs.len()
        invariant
            m <= pkgs@.len(),
            pv == graph::views(pkgs@),
            graph::views(sorted@) == sort_strs(pv.take(m as int)),
        decreases pkgs@.len() - m,
    {
        let x = pkgs[m].clone();
        let ghost prev = graph::views(sorted@);
        let mut j = sorted.len();
        while j > 0 && compression::lex_less(&x, &sorted[j - 1])
            invariant
                j <= sorted@.len(),
                prev == graph::views(sorted@),
                forall|k: int| j <= k < sorted@.len() ==> compression::lex_lt(x@, #[trigger] prev[k]),
            decreases j,
        {
            j -= 1;
        }
        proof {
            assert(pv.take(m + 1).drop_last() =~= pv.take(m as int));
            assert(pv.take(m + 1).last() == x@);
            lemma_insert_sorted_at(prev, x@, j as int);
        }
        let ghost olds = sorted@;
        sorted.insert(j, x);
        assert(sorted@ == olds.insert(j as int, x));
        assert(graph::views(sorted@) =~= prev.subrange(0, j as int).push(x@) + prev.subrange(
            j as int,
            prev.len() as int,
        ));
        m += 1;
    }
    assert(pv.take(pkgs@.len() as int) =~= pv);
    sorted
}

/// Appends the lines joined by newlines.
fn push_joined_lines(out: &mut String, lines: &Vec<String>)
    ensures
        final(out)@ == old(out)@ + text::join(graph::views(lines@), "\n"@),
{
    let j = text::join_strings(lines, "\n");
    assert(lines@.map_values(|x: String| x@) =~= graph::views(lines@));
    text::push_str(out, j.as_str());
}

/// The symbols of package `pkg` and their ids.
fn package_symbols_of<'a>(pkg: &String, symbols: &'a Vec<Symbol>) -> (r: (Vec<&'a Symbol>, Vec<String>))
    ensures
        r.0@.map_values(|s: &Symbol| *s) == package_symbols(symbols@, pkg@),
        graph::views(r.1@) == package_symbols(symbols@, pkg@).map_values(|s: Symbol| s.id@),
{
    let mut ps: Vec<&Symbol> = Vec::new();
    let mut ids: Vec<String> = Vec::new();
    let mut i: usize = 0;
    while i < symbols.len()
        invariant
            i <= symbols@.len(),
            ps@.map_values(|s: &Symbol| *s) == package_symbols(symbols@.take(i as int), pkg@),
            graph::views(ids@) == package_symbols(symbols@.take(i as int), pkg@).map_values(
                |s: Symbol| s.id@,
            ),
        decreases symbols@.len() - i,
    {
        assert(symbols@.take(i + 1).drop_last() =~= symbols@.take(i as int));
        assert(symbols@.take(i + 1).last() == symbols@[i as int]);
        let p = module::package_of(symbols[i].path.as_str());
        if text::str_eq(p.as_str(), pkg.as_str()) {
            let ghost pre = ps@.map_values(|s: &Symbol| *s);
            let ghost pi = graph::views(ids@);
            ps.push(&symbols[i]);
            ids.push(symbols[i].id.clone());
            assert(ps@.map_values(|s: &Symbol| *s) =~= pre.push(symbols@[i as int]));
            assert(graph::views(ids@) =~= pi.push(symbols@[i as int].id@));
            assert(pre.push(symbols@[i as int]).map_values(|s: Symbol| s.id@) =~= pre.map_values(
                |s: Symbol| s.id@,
            ).push(symbols@[i as int].id@));
        }
        i += 1;
    }
    assert(symbols@.take(symbols@.len() as int) =~= symbols@);

    (ps, ids)
}

/// The paths of the module memories in package `pkg`.
fn package_modules_of(pkg: &String, modules: &Vec<MemoryObject>) -> (r: Vec<String>)
    ensures
        graph::views(r@) == package_modules(modules@, pkg@),
{
    let mut mp: Vec<String> = Vec::new();
    let mut k: usize = 0;
    while k < modules.len()
        invariant
            k <= modules@.len(),
            graph::views(mp@) == package_modules(modules@.take(k as int), pkg@),
        decreases modules@.len() - k,
    {
        assert(modules@.take(k + 1).drop_last() =~= modules@.take(k as int));
        assert(modules@.take(k + 1).last() == modules@[k as int]);
        match &modules[k].path {
            Some(p) => {
                let q = module::package_of(p.as_str());
                if text::str_eq(q.as_str(), pkg.as_str()) {
                    let ghost pre = graph::views(mp@);
                    mp.push(p.clone());
                    assert(graph::views(mp@) =~= pre.push(p@));
                }
            },
            None => {},
        }
        k += 1;
    }
    assert(modules@.take(modules@.len() as int) =~= modules@);

    mp
}

/// The markdown text of a subsystem from its symbols and module paths.
fn subsystem_text_of(pkg: &String, ps: &Vec<&Symbol>, mp: &Vec<String>) -> (r: String)
    ensures
        r@ == subsystem_text(pkg@, ps@.map_values(|s: &Symbol| *s), graph::views(mp@)),
{
    let ghost psv = ps@.map_values(|s: &Symbol| *s);
    let counts = module::count_kinds(ps);
    let ghost cv = counts@.map_values(|p: (String, usize)| compression::count_view(p));
    let mut comp: Vec<String> = Vec::new();
    let mut c: usize = 0;
    while c < counts.len()
        invariant
            c <= counts@.len(),
            cv == counts@.map_values(|p: (String, usize)| compression::count_view(p)),
            graph::views(comp@) == composition_lines(cv.take(c as int)),
        decreases counts@.len() - c,
    {
        let mut line = text::owned("- ");
        text::push_decimal(&mut line, counts[c].1);
        text::push_str(&mut line, " ");
        text::push_str(&mut line, counts[c].0.as_str());
        let ghost pre = graph::views(comp@);
        comp.push(line);
        assert(graph::views(comp@) =~= pre.push(line@));
        assert(composition_lines(cv.take(c + 1)) =~= composition_lines(cv.take(c as int)).push(
            line@,
        ));
        c += 1;
    }
    assert(cv.take(counts@.len() as int) =~= cv);

    let ghost mv = graph::views(mp@);
    let mut mlines: Vec<String> = Vec::new();
    let mut d: usize = 0;
    while d < mp.len()
        invariant
            d <= mp@.len(),
            mv == graph::views(mp@),
            graph::views(mlines@) == dash_lines(mv.take(d as int)),
        decreases mp@.len() - d,
    {
        let mut line = text::owned("- ");
        text::push_str(&mut line, mp[d].as_str());
        let ghost pre = graph::views(mlines@);
        mlines.push(line);
        assert(graph::views(mlines@) =~= pre.push(line@));
        assert(dash_lines(mv.take(d + 1)) =~= dash_lines(mv.take(d as int)).push(line@));
        d += 1;
    }
    assert(mv.take(mp@.len() as int) =~= mv);

    let mut raw = text::owned("# Subsystem: ");
    text::push_str(&mut raw, pkg.as_str());
    text::push_str(&mut raw, "\n\nFiles: ");
    text::push_decimal(&mut raw, mp.len());
    text::push_str(&mut raw, "\nSymbols: ");
    text::push_decimal(&mut raw, ps.len());
    text::push_str(&mut raw, "\n\n## Composition\n");
    push_joined_lines(&mut raw, &comp);
    text::push_str(&mut raw, "\n\n## Modules\n");
    push_joined_lines(&mut raw, &mlines);
    assert(raw@ =~= subsystem_text(pkg@, psv, mv));

    raw
}

/// The raw text of the subsystem of package `pkg`.
pub fn subsystem_raw_text(pkg: &String, symbols: &Vec<Symbol>, modules: &Vec<MemoryObject>) -> (r: String)
    ensures
        r@ == subsystem_raw(pkg@, symbols@, modules@),
{
    let (ps, _) = package_symbols_of(pkg, symbols);
    let mp = package_modules_of(pkg, modules);
    subsystem_text_of(pkg, &ps, &mp)
}

/// Whether every subsystem text can be summarised without cutting inside a character.
pub fn subsystems_ready(symbols: &Vec<Symbol>, modules: &Vec<MemoryObject>) -> (r: bool)
    ensures
        r == subsystems_compressible(symbols@, modules@),
{
    let pkgs = distinct_packages(symbols);
    let ghost pv = graph::views(pkgs@);
    let mut i: usize = 0;
    while i < pkgs.len()
        invariant
            i <= pkgs@.len(),
            pv == graph::views(pkgs@),
            pv == packages_of(symbols@),
            forall|k: int| 0 <= k < i ==> module::text_compressible(subsystem_raw(pv[k], symbols@, modules@)),
        decreases pkgs@.len() - i,
    {
        let raw = subsystem_raw_text(&pkgs[i], symbols, modules);
        if !module::compressible(raw.as_str()) {
            assert(packages_of(symbols@).contains(pv[i as int]));
            return false;
        }
        i += 1;
    }
    assert forall|p: Seq<char>| #[trigger] packages_of(symbols@).contains(p) implies module::text_compressible(
        subsystem_raw(p, symbols@, modules@),
    ) by {
        let k = choose|k: int| 0 <= k < pv.len() && pv[k] == p;
    }
    true
}

/// The subsystem memory of one package.
fn subsystem_for(pkg: &String, symbols: &Vec<Symbol>, modules: &Vec<MemoryObject>) -> (r: MemoryObject)
    requires
        module::text_compressible(subsystem_raw(pkg@, symbols@, modules@)),
    ensures
        is_subsystem_memory(r, pkg@, symbols@, modules@),
{
    let (ps, ids) = package_symbols_of(pkg, symbols);
    let mp = package_modules_of(pkg, modules);
    let raw = subsystem_text_of(pkg, &ps, &mp);
    let hash = store::text_hash(raw.as_str());
    let mut id = text::owned("subsystem:");
    text::push_str(&mut id, pkg.as_str());
    let mut obj = MemoryObject::new(id, MemoryKind::Subsystem, hash);
    obj.path = Some(pkg.clone());
    obj.symbols = ids;
    obj.dependencies = mp;
    obj.text = module::compress_raw(raw);
    let mut cpath: Vec<String> = Vec::new();
    cpath.push(text::owned("indexer"));
    cpath.push(pkg.clone());
    assert(graph::views(cpath@) =~= seq!["indexer"@, pkg@]);
    obj.confidence = Some(Confidence::medium(text::owned("clustered by top-level package directory"), cpath));
    obj.importance = module::importance_for(ps.len(), 20);
    obj
}

/// One subsystem memory per top-level package of the symbols' paths, ordered by id.
pub fn build_subsystems(symbols: &Vec<Symbol>, modules: &Vec<MemoryObject>) -> (r: Vec<MemoryObject>)
    requires
        subsystems_compressible(symbols@, modules@),
    ensures
        is_subsystem_list(r@, symbols@, modules@),
{
    let pkgs = sorted_packages(symbols);
    let ghost pv = graph::views(pkgs@);
    let mut out: Vec<MemoryObject> = Vec::new();
    let mut i: usize = 0;
    while i < pkgs.len()
        invariant
            i <= pkgs@.len(),
            pv == graph::views(pkgs@),
            pv == subsystem_packages(symbols@),
            subsystems_compressible(symbols@, modules@),
            out@.len() == i,
            forall|k: int|
                0 <= k < i ==> is_subsystem_memory(#[trigger] out@[k], pv[k], symbols@, modules@),
        decreases pkgs@.len() - i,
    {
        proof {
            lemma_sorted_members(packages_of(symbols@), pv[i as int]);
        }
        let obj = subsystem_for(&pkgs[i], symbols, modules);
        out.push(obj);
        i += 1;
    }
    out
}

proof fn lemma_insert_members(s: Seq<Seq<char>>, x: Seq<char>, y: Seq<char>)
    requires
        insert_sorted(s, x).contains(y),
    ensures
        y == x || s.contains(y),
    decreases s.len(),
{
    if s.len() == 0 || !compression::lex_lt(x, s.last()) {
        if y != x {
            let k = choose|k: int| 0 <= k < s.push(x).len() && s.push(x)[k] == y;
            assert(s[k] == y);
        }
    } else {
        let t = insert_sorted(s.drop_last(), x);
        let k = choose|k: int| 0 <= k < t.push(s.last()).len() && t.push(s.last())[k] == y;
        if k == t.len() {
            assert(s[s.len() - 1] == y);
        } else {
            assert(t[k] == y);
            lemma_insert_members(s.drop_last(), x, y);
            if y != x {
                let m = choose|m: int| 0 <= m < s.drop_last().len() && s.drop_last()[m] == y;
                assert(s[m] == y);
            }
        }
    }
}

/// Every entry of the sorted list is an entry of the list.
proof fn lemma_sorted_members(s: Seq<Seq<char>>, y: Seq<char>)
    requires
        sort_strs(s).contains(y),
    ensures
        s.contains(y),
    decreases s.len(),
{
    if s.len() > 0 {
        lemma_insert_members(sort_strs(s.drop_last()), s.last(), y);
        if y != s.last() {
            lemma_sorted_members(s.drop_last(), y);
            let m = choose|m: int| 0 <= m < s.drop_last().len() && s.drop_last()[m] == y;
            assert(s[m] == y);
        } else {
            assert(s[s.len() - 1] == y);
        }
    }
}


/// A list ordered strictly by code points.
pub open spec fn strictly_sorted(s: Seq<Seq<char>>) -> bool {
    forall|i: int, j: int| 0 <= i < j < s.len() ==> compression::lex_lt(#[trigger] s[i], #[trigger] s[j])
}

proof fn lemma_insert_sorted_sorted(s: Seq<Seq<char>>, x: Seq<char>)
    requires
        strictly_sorted(s),
        !s.contains(x),
    ensures
        strictly_sorted(insert_sorted(s, x)),
    decreases s.len(),
{
    if s.len() == 0 {
    } else if !compression::lex_lt(x, s.last()) {
        let n = s.len() - 1;
        assert(s[n] != x);
        compression::lemma_lex_total(x, s[n]);
        let t = s.push(x);
        assert forall|i: int, j: int| 0 <= i < j < t.len() implies compression::lex_lt(#[trigger] t[i], #[trigger] t[j]) by {
            if j == t.len() - 1 {
                if i < n {
                    compression::lemma_lex_transitive(s[i], s[n], x);
                }
            } else {
                assert(t[i] == s[i] && t[j] == s[j]);
            }
        }
    } else {
        let d = s.drop_last();
        let n = s.len() - 1;
        assert(!d.contains(x)) by {
            if d.contains(x) {
                let k = choose|k: int| 0 <= k < d.len() && d[k] == x;
                assert(s[k] == x);
            }
        }
        assert(strictly_sorted(d)) by {
            assert forall|i: int, j: int| 0 <= i < j < d.len() implies compression::lex_lt(#[trigger] d[i], #[trigger] d[j]) by {
                assert(d[i] == s[i] && d[j] == s[j]);
            }
        }
        lemma_insert_sorted_sorted(d, x);
        let t = insert_sorted(d, x);
        let u = t.push(s[n]);
        assert forall|k: int| 0 <= k < t.len() implies compression::lex_lt(#[trigger] t[k], s[n]) by {
            assert(t.contains(t[k]));
            lemma_insert_members(d, x, t[k]);
            if t[k] != x {
                let m = choose|m: int| 0 <= m < d.len() && d[m] == t[k];
                assert(s[m] == t[k]);
            }
        }
        assert forall|i: int, j: int| 0 <= i < j < u.len() implies compression::lex_lt(#[trigger] u[i], #[trigger] u[j]) by {
            if j == u.len() - 1 {
                assert(u[i] == t[i]);
            } else {
                assert(u[i] == t[i] && u[j] == t[j]);
            }
        }
    }
}

proof fn lemma_sort_strs_sorted(s: Seq<Seq<char>>)
    requires
        s.no_duplicates(),
    ensures
        strictly_sorted(sort_strs(s)),
    decreases s.len(),
{
    if s.len() > 0 {
        let d = s.drop_last();
        assert(d.no_duplicates()) by {
            assert forall|i: int, j: int| 0 <= i < d.len() && 0 <= j < d.len() && i != j implies d[i] != d[j] by {
                assert(d[i] == s[i] && d[j] == s[j]);
            }
        }
        lemma_sort_strs_sorted(d);
        assert(!sort_strs(d).contains(s.last())) by {
            if sort_strs(d).contains(s.last()) {
                lemma_sorted_members(d, s.last());
                let m = choose|m: int| 0 <= m < d.len() && d[m] == s.last();
                assert(s[m] == s[s.len() - 1]);
            }
        }
        lemma_insert_sorted_sorted(sort_strs(d), s.last());
    }
}

proof fn lemma_packages_distinct(syms: Seq<Symbol>)
    ensures
        packages_of(syms).no_duplicates(),
    decreases syms.len(),
{
    if syms.len() > 0 {
        lemma_packages_distinct(syms.drop_last());
    }
}

/// Subsystems come out ordered by id, strictly: one per package, in code-point order.
pub proof fn lemma_subsystems_ordered(subs: Seq<MemoryObject>, syms: Seq<Symbol>, mods: Seq<MemoryObject>)
    requires
        is_subsystem_list(subs, syms, mods),
    ensures
        forall|i: int, j: int|
            0 <= i < j < subs.len() ==> compression::lex_lt(#[trigger] subs[i].id@, #[trigger] subs[j].id@),
{
    lemma_packages_distinct(syms);
    lemma_sort_strs_sorted(packages_of(syms));
    let pk = subsystem_packages(syms);
    assert forall|i: int, j: int| 0 <= i < j < subs.len() implies compression::lex_lt(
        #[trigger] subs[i].id@,
        #[trigger] subs[j].id@,
    ) by {
        assert(is_subsystem_memory(subs[i], pk[i], syms, mods));
        assert(is_subsystem_memory(subs[j], pk[j], syms, mods));
        assert(compression::lex_lt(pk[i], pk[j]));
        compression::lemma_lex_prefix("subsystem:"@, pk[i], pk[j]);
    }
}

} // verus!
