//! L4 architecture memory: one overview of the whole repository.
use vstd::prelude::*;
use crate::compression;
use crate::graph::{self, DependencyGraph};
use crate::memory::Confidence;
use crate::module;
use crate::object::{MemoryKind, MemoryObject};
use crate::store;
use crate::symbol::Symbol;
use crate::text;

verus! {

/// How many subsystems the overview lists.
pub const TOP_SUBSYSTEMS: usize = 12;

// ---------------------------------------------------------------------------
// Specifications
// ---------------------------------------------------------------------------

/// What a subsystem is ranked by: its id and its number of symbols.
pub open spec fn size_rank(o: MemoryObject) -> (Seq<char>, nat) {
    (o.id@, o.symbols@.len())
}

/// `x` is listed before `y`: more symbols, or as many and a smaller id.
pub open spec fn listed_before(x: MemoryObject, y: MemoryObject) -> bool {
    compression::ranks_before(size_rank(x), size_rank(y))
}

/// Inserts `x` after every entry it is not listed before.
pub open spec fn insert_by_size(s: Seq<MemoryObject>, x: MemoryObject) -> Seq<MemoryObject>
    decreases s.len(),
{
    if s.len() == 0 || !listed_before(x, s.last()) {
        s.push(x)
    } else {
        insert_by_size(s.drop_last(), x).push(s.last())
    }
}

/// Subsystems by descending number of symbols, then by id (stable).
pub open spec fn sort_by_size(s: Seq<MemoryObject>) -> Seq<MemoryObject>
    decreases s.len(),
{
    if s.len() == 0 {
        Seq::empty()
    } else {
        insert_by_size(sort_by_size(s.drop_last()), s.last())
    }
}

/// The largest subsystems, at most twelve.
pub open spec fn top_subsystems(s: Seq<MemoryObject>) -> Seq<MemoryObject> {
    let t = sort_by_size(s);
    if t.len() <= TOP_SUBSYSTEMS {
        t
    } else {
        t.take(TOP_SUBSYSTEMS as int)
    }
}

/// A subsystem's path, or `?` when it has none.
pub open spec fn path_or_unknown(p: Option<String>) -> Seq<char> {
    match p {
        Some(s) => s@,
        None => "?"@,
    }
}

/// `- path (n symbols, m modules)`, with `?` for a subsystem without a path.
pub open spec fn subsystem_line(o: MemoryObject) -> Seq<char> {
    "- "@ + path_or_unknown(o.path) + " ("@ + text::decimal(o.symbols@.len())
        + " symbols, "@ + text::decimal(o.dependencies@.len()) + " modules)"@
}

/// The markdown overview.
pub open spec fn architecture_text(
    repo: Seq<char>,
    n_symbols: nat,
    n_subsystems: nat,
    n_nodes: nat,
    n_edges: nat,
    top: Seq<MemoryObject>,
) -> Seq<char> {
    "# Architecture: "@ + repo + "\n\n## Overview\nTrove-indexed repository with "@ + text::decimal(
        n_symbols,
    ) + " symbols across "@ + text::decimal(n_subsystems) + " subsystems.\nDependency graph: "@
        + text::decimal(n_nodes) + " nodes, "@ + text::decimal(n_edges) + " edges.\n\n## Subsystems\n"@
        + text::join(top.map_values(|o: MemoryObject| subsystem_line(o)), "\n"@)
        + "\n\n## Data flow\nRetrieval flows top-down: architecture -> subsystem -> module -> symbol -> source.\nDependency expansion follows graph neighbors only.\n\n## Patterns\n- Progressive context: summaries before source\n- Hash-tracked freshness on every object\n- Symbol index as the source of truth for structure\n"@
}

/// The raw text of the architecture memory.
pub open spec fn architecture_raw(
    repo: Seq<char>,
    syms: Seq<Symbol>,
    subs: Seq<MemoryObject>,
    g: DependencyGraph,
) -> Seq<char> {
    architecture_text(
        repo,
        syms.len(),
        subs.len(),
        g.nodes@.len(),
        g.edges@.len(),
        top_subsystems(subs),
    )
}

/// The architecture memory of a repository.
pub open spec fn is_architecture_memory(
    o: MemoryObject,
    repo: Seq<char>,
    syms: Seq<Symbol>,
    subs: Seq<MemoryObject>,
    g: DependencyGraph,
) -> bool {
    let raw = architecture_raw(repo, syms, subs, g);
    &&& o.id@ == "architecture:root"@
    &&& o.kind == MemoryKind::Architecture
    &&& text::opt_chars(o.path) == Some(repo)
    &&& module::compressed_from(o.text, raw)
    &&& graph::views(o.dependencies@) == top_subsystems(subs).map_values(|s: MemoryObject| s.id@)
    &&& o.symbols@.len() == 0
    &&& o.hash@ == store::content_hash_of(vstd::utf8::encode_utf8(raw))
    &&& o.importance == 1000
    &&& o.risk == 0
    &&& o.git_commit is None
    &&& (o.confidence matches Some(c) && c.score == 900 && c.reason@ == "synthesized from index"@
        && graph::views(c.retrieval_path@) == seq!["indexer"@, "architecture"@])
}

proof fn lemma_insert_by_size_at(s: Seq<MemoryObject>, x: MemoryObject, j: int)
    requires
        0 <= j <= s.len(),
        forall|k: int| j <= k < s.len() ==> listed_before(x, #[trigger] s[k]),
        j == 0 || !listed_before(x, s[j - 1]),
    ensures
        insert_by_size(s, x) == s.subrange(0, j).push(x) + s.subrange(j, s.len() as int),
    decreases s.len(),
{
    if s.len() == j {
        assert(s.subrange(0, j) =~= s);
        assert(s.push(x) =~= s.subrange(0, j).push(x) + s.subrange(j, s.len() as int));
    } else {
        assert(listed_before(x, s[s.len() - 1]));
        lemma_insert_by_size_at(s.drop_last(), x, j);
        assert(insert_by_size(s, x) =~= s.subrange(0, j).push(x) + s.subrange(j, s.len() as int));
    }
}

// ---------------------------------------------------------------------------
// Building
// ---------------------------------------------------------------------------

/// The largest subsystems, at most twelve, largest first.
fn top_of(subsystems: &Vec<MemoryObject>) -> (r: Vec<&MemoryObject>)
    ensures
        r@.map_values(|o: &MemoryObject| *o) == top_subsystems(subsystems@),
{
    let mut sorted: Vec<&MemoryObject> = Vec::new();
    let mut m: usize = 0;
    while m < subsystems.len()
        invariant
            m <= subsystems@.len(),
            sorted@.map_values(|o: &MemoryObject| *o) == sort_by_size(subsystems@.take(m as int)),
        decreases subsystems@.len() - m,
    {
        let x = &subsystems[m];
        let ghost prev = sorted@.map_values(|o: &MemoryObject| *o);
        let mut j = sorted.len();
        while j > 0 && (x.symbols.len() > sorted[j - 1].symbols.len() || (x.symbols.len()
            == sorted[j - 1].symbols.len() && compression::lex_less(&x.id, &sorted[j - 1].id)))
            invariant
                j <= sorted@.len(),
                prev == sorted@.map_values(|o: &MemoryObject| *o),
                forall|k: int| j <= k < sorted@.len() ==> listed_before(*x, #[trigger] prev[k]),
            decreases j,
        {
            j -= 1;
        }
        proof {
            assert(subsystems@.take(m + 1).drop_last() =~= subsystems@.take(m as int));
            assert(subsystems@.take(m + 1).last() == *x);
            lemma_insert_by_size_at(prev, *x, j as int);
        }
        let ghost olds = sorted@;
        sorted.insert(j, x);
        assert(sorted@ == olds.insert(j as int, x));
        assert(sorted@.map_values(|o: &MemoryObject| *o) =~= prev.subrange(0, j as int).push(*x)
            + prev.subrange(j as int, prev.len() as int));
        m += 1;
    }
    assert(subsystems@.take(subsystems@.len() as int) =~= subsystems@);
    let ghost sv = sorted@.map_values(|o: &MemoryObject| *o);
    let n = if sorted.len() <= TOP_SUBSYSTEMS {
        sorted.len()
    } else {
        TOP_SUBSYSTEMS
    };
    let mut out: Vec<&MemoryObject> = Vec::new();
    let mut k: usize = 0;
    while k < n
        invariant
            k <= n <= sorted@.len(),
            n == if sorted@.len() <= TOP_SUBSYSTEMS {
                sorted@.len()
            } else {
                TOP_SUBSYSTEMS as nat
            },
            sv == sorted@.map_values(|o: &MemoryObject| *o),
            out@.map_values(|o: &MemoryObject| *o) == sv.take(k as int),
        decreases n - k,
    {
        let ghost pre = out@.map_values(|o: &MemoryObject| *o);
        out.push(sorted[k]);
        assert(sv[k as int] == *sorted@[k as int]);
        assert(out@.map_values(|o: &MemoryObject| *o) =~= pre.push(*sorted@[k as int]));
        assert(sv.take(k + 1) =~= sv.take(k as int).push(sv[k as int]));
        k += 1;
    }
    assert(sv.take(n as int) =~= top_subsystems(subsystems@));
    out
}

/// The raw text of the architecture memory.
pub fn architecture_raw_text(
    repo_name: &str,
    symbols: &Vec<Symbol>,
    subsystems: &Vec<MemoryObject>,
    graph: &DependencyGraph,
) -> (r: String)
    ensures
        r@ == architecture_raw(repo_name@, symbols@, subsystems@, *graph),
{
    let top = top_of(subsystems);
    let ghost tv = top@.map_values(|o: &MemoryObject| *o);
    let mut lines: Vec<String> = Vec::new();
    let mut i: usize = 0;
    while i < top.len()
        invariant
            i <= top@.len(),
            tv == top@.map_values(|o: &MemoryObject| *o),
            graph::views(lines@) == tv.take(i as int).map_values(|o: MemoryObject| subsystem_line(o)),
        decreases top@.len() - i,
    {
        let s = top[i];
        let mut line = text::owned("- ");
        match &s.path {
            Some(p) => text::push_str(&mut line, p.as_str()),
            None => text::push_str(&mut line, "?"),
        }
        text::push_str(&mut line, " (");
        text::push_decimal(&mut line, s.symbols.len());
        text::push_str(&mut line, " symbols, ");
        text::push_decimal(&mut line, s.dependencies.len());
        text::push_str(&mut line, " modules)");
        let ghost pl = graph::views(lines@);
        lines.push(line);
        assert(graph::views(lines@) =~= pl.push(subsystem_line(*s)));
        assert(tv.take(i + 1) =~= tv.take(i as int).push(*s));
        assert(tv.take(i + 1).map_values(|o: MemoryObject| subsystem_line(o)) =~= tv.take(
            i as int,
        ).map_values(|o: MemoryObject| subsystem_line(o)).push(subsystem_line(*s)));
        i += 1;
    }
    assert(tv.take(top@.len() as int) =~= tv);
    let listing = text::join_strings(&lines, "\n");
    assert(lines@.map_values(|x: String| x@) =~= graph::views(lines@));

    let mut raw = text::owned("# Architecture: ");
    text::push_str(&mut raw, repo_name);
    text::push_str(&mut raw, "\n\n## Overview\nTrove-indexed repository with ");
    text::push_decimal(&mut raw, symbols.len());
    text::push_str(&mut raw, " symbols across ");
    text::push_decimal(&mut raw, subsystems.len());
    text::push_str(&mut raw, " subsystems.\nDependency graph: ");
    text::push_decimal(&mut raw, graph.nodes.len());
    text::push_str(&mut raw, " nodes, ");
    text::push_decimal(&mut raw, graph.edges.len());
    text::push_str(&mut raw, " edges.\n\n## Subsystems\n");
    text::push_str(&mut raw, listing.as_str());
    text::push_str(
        &mut raw,
        "\n\n## Data flow\nRetrieval flows top-down: architecture -> subsystem -> module -> symbol -> source.\nDependency expansion follows graph neighbors only.\n\n## Patterns\n- Progressive context: summaries before source\n- Hash-tracked freshness on every object\n- Symbol index as the source of truth for structure\n",
    );
    assert(raw@ =~= architecture_raw(repo_name@, symbols@, subsystems@, *graph));

    raw
}

/// Builds the architecture memory of a repository from its index.
pub fn build_architecture(
    repo_name: &str,
    symbols: &Vec<Symbol>,
    subsystems: &Vec<MemoryObject>,
    graph: &DependencyGraph,
) -> (r: MemoryObject)
    requires
        module::text_compressible(architecture_raw(repo_name@, symbols@, subsystems@, *graph)),
    ensures
        is_architecture_memory(r, repo_name@, symbols@, subsystems@, *graph),
{
    let top = top_of(subsystems);
    let ghost tv = top@.map_values(|o: &MemoryObject| *o);
    let mut ids: Vec<String> = Vec::new();
    let mut i: usize = 0;
    while i < top.len()
        invariant
            i <= top@.len(),
            tv == top@.map_values(|o: &MemoryObject| *o),
            graph::views(ids@) == tv.take(i as int).map_values(|o: MemoryObject| o.id@),
        decreases top@.len() - i,
    {
        let s = top[i];
        let ghost pi = graph::views(ids@);
        ids.push(s.id.clone());
        assert(graph::views(ids@) =~= pi.push(s.id@));
        assert(tv.take(i + 1) =~= tv.take(i as int).push(*s));
        assert(tv.take(i + 1).map_values(|o: MemoryObject| o.id@) =~= tv.take(i as int).map_values(
            |o: MemoryObject| o.id@,
        ).push(s.id@));
        i += 1;
    }
    assert(tv.take(top@.len() as int) =~= tv);
    let raw = architecture_raw_text(repo_name, symbols, subsystems, graph);
    let hash = store::text_hash(raw.as_str());
    let mut obj = MemoryObject::new(text::owned("architecture:root"), MemoryKind::Architecture, hash);
    obj.path = Some(text::owned(repo_name));
    obj.dependencies = ids;
    obj.text = module::compress_raw(raw);
    let mut cpath: Vec<String> = Vec::new();
    cpath.push(text::owned("indexer"));
    cpath.push(text::owned("architecture"));
    assert(graph::views(cpath@) =~= seq!["indexer"@, "architecture"@]);
    obj.confidence = Some(Confidence::high(text::owned("synthesized from index"), cpath));
    obj.importance = 1000;
    obj
}


// ---------------------------------------------------------------------------
// Order of the overview
// ---------------------------------------------------------------------------

proof fn lemma_listed_asymmetric(x: MemoryObject, y: MemoryObject)
    requires
        listed_before(x, y),
    ensures
        !listed_before(y, x),
{
    if x.symbols@.len() == y.symbols@.len() && compression::lex_lt(y.id@, x.id@) {
        compression::lemma_lex_transitive(x.id@, y.id@, x.id@);
        compression::lemma_lex_irreflexive(x.id@);
    }
}

/// Whatever `x` is listed before, either `x` is listed before `y` or `y` before it.
proof fn lemma_listed_split(x: MemoryObject, y: MemoryObject, z: MemoryObject)
    requires
        listed_before(x, z),
    ensures
        listed_before(x, y) || listed_before(y, z),
{
    let (a, b, c) = (x.symbols@.len(), y.symbols@.len(), z.symbols@.len());
    if a == c && b == a {
        if y.id@ == x.id@ {
        } else {
            compression::lemma_lex_total(x.id@, y.id@);
            if compression::lex_lt(y.id@, x.id@) {
                compression::lemma_lex_transitive(y.id@, x.id@, z.id@);
            }
        }
    }
}

/// No entry is listed before an earlier one.
pub open spec fn size_ordered(s: Seq<MemoryObject>) -> bool {
    forall|i: int, j: int| 0 <= i < j < s.len() ==> !listed_before(#[trigger] s[j], #[trigger] s[i])
}

proof fn lemma_insert_by_size_members(s: Seq<MemoryObject>, x: MemoryObject, k: int)
    requires
        0 <= k < insert_by_size(s, x).len(),
    ensures
        insert_by_size(s, x)[k] == x || exists|m: int| 0 <= m < s.len() && s[m] == insert_by_size(s, x)[k],
        insert_by_size(s, x).len() == s.len() + 1,
    decreases s.len(),
{
    if s.len() == 0 || !listed_before(x, s.last()) {
        if k < s.len() {
            assert(s[k] == insert_by_size(s, x)[k]);
        }
    } else {
        let d = s.drop_last();
        lemma_insert_by_size_members(d, x, 0);
        let t = insert_by_size(d, x);
        if k == t.len() {
            assert(s[s.len() - 1] == insert_by_size(s, x)[k]);
        } else {
            lemma_insert_by_size_members(d, x, k);
            if t[k] != x {
                let m = choose|m: int| 0 <= m < d.len() && d[m] == t[k];
                assert(s[m] == t[k]);
            }
        }
    }
}

proof fn lemma_insert_by_size_ordered(s: Seq<MemoryObject>, x: MemoryObject)
    requires
        size_ordered(s),
    ensures
        size_ordered(insert_by_size(s, x)),
    decreases s.len(),
{
    if s.len() == 0 {
    } else if !listed_before(x, s.last()) {
        let n = s.len() - 1;
        let t = s.push(x);
        assert forall|i: int, j: int| 0 <= i < j < t.len() implies !listed_before(#[trigger] t[j], #[trigger] t[i]) by {
            if j == t.len() - 1 {
                if i < n && listed_before(x, s[i]) {
                    lemma_listed_split(x, s[n], s[i]);
                }
            } else {
                assert(t[i] == s[i] && t[j] == s[j]);
            }
        }
    } else {
        let d = s.drop_last();
        let n = s.len() - 1;
        assert(size_ordered(d)) by {
            assert forall|i: int, j: int| 0 <= i < j < d.len() implies !listed_before(#[trigger] d[j], #[trigger] d[i]) by {
                assert(d[i] == s[i] && d[j] == s[j]);
            }
        }
        lemma_insert_by_size_ordered(d, x);
        let t = insert_by_size(d, x);
        let u = t.push(s[n]);
        assert forall|k: int| 0 <= k < t.len() implies !listed_before(s[n], #[trigger] t[k]) by {
            lemma_insert_by_size_members(d, x, k);
            if t[k] == x {
                lemma_listed_asymmetric(x, s[n]);
            } else {
                let m = choose|m: int| 0 <= m < d.len() && d[m] == t[k];
                assert(s[m] == t[k]);
            }
        }
        assert forall|i: int, j: int| 0 <= i < j < u.len() implies !listed_before(#[trigger] u[j], #[trigger] u[i]) by {
            if j == u.len() - 1 {
                assert(u[i] == t[i]);
            } else {
                assert(u[i] == t[i] && u[j] == t[j]);
            }
        }
    }
}

proof fn lemma_sort_by_size_ordered(s: Seq<MemoryObject>)
    ensures
        size_ordered(sort_by_size(s)),
    decreases s.len(),
{
    if s.len() > 0 {
        lemma_sort_by_size_ordered(s.drop_last());
        lemma_insert_by_size_ordered(sort_by_size(s.drop_last()), s.last());
    }
}

/// The overview lists at most twelve subsystems, largest first: none is listed before one
/// that comes earlier (more symbols, or as many and a smaller id).
pub proof fn lemma_top_subsystems_ordered(subs: Seq<MemoryObject>)
    ensures
        top_subsystems(subs).len() <= TOP_SUBSYSTEMS,
        size_ordered(top_subsystems(subs)),
{
    lemma_sort_by_size_ordered(subs);
    let t = sort_by_size(subs);
    if t.len() > TOP_SUBSYSTEMS {
        let top = t.take(TOP_SUBSYSTEMS as int);
        assert forall|i: int, j: int| 0 <= i < j < top.len() implies !listed_before(#[trigger] top[j], #[trigger] top[i]) by {
            assert(top[i] == t[i] && top[j] == t[j]);
        }
    }
}

} // verus!
