//! A whole index walk: the files the walk yielded, read, run through an index run one by one.
use vstd::prelude::*;
use crate::indexer::{self, IndexOptions, IndexRun};
use crate::graph;
use crate::module;
use crate::object::MemoryObject;
use crate::parser::{self, ParsedFile};
use crate::store;
use crate::symbol::Symbol;

verus! {

/// A file the walk yielded and read: its path as the parser is given it, its path relative to
/// the repository, and its content.
pub struct WalkedFile {
    pub path: String,
    pub rel: String,
    pub content: String,
}

/// Whether the walk skips a file by its relative path: under the store's own directory,
/// `target` or `.git`.
pub open spec fn skipped(rel: Seq<char>) -> bool {
    indexer::path_starts_with(rel, store::TROVE_DIR@) || indexer::path_starts_with(rel, "target"@)
        || indexer::path_starts_with(rel, ".git"@)
}

/// The files that are not skipped, in walk order.
pub open spec fn kept_files(files: Seq<WalkedFile>) -> Seq<WalkedFile>
    decreases files.len(),
{
    if files.len() == 0 {
        Seq::empty()
    } else if skipped(files.last().rel@) {
        kept_files(files.drop_last())
    } else {
        kept_files(files.drop_last()).push(files.last())
    }
}

/// The relative paths of the files.
pub open spec fn rels_of(files: Seq<WalkedFile>) -> Seq<Seq<char>> {
    files.map_values(|f: WalkedFile| f.rel@)
}

/// The contents of the files.
pub open spec fn contents_of(files: Seq<WalkedFile>) -> Seq<Seq<char>> {
    files.map_values(|f: WalkedFile| f.content@)
}

/// Every file has a stored module of its path carrying the hash of its present content.
pub open spec fn unchanged_files(mods: Seq<MemoryObject>, files: Seq<WalkedFile>) -> bool {
    forall|i: int|
        0 <= i < files.len() ==> (module_at_hash(mods, #[trigger] files[i]))
}

/// The stored module of the file's path carries the hash of the file's content.
pub open spec fn module_at_hash(mods: Seq<MemoryObject>, f: WalkedFile) -> bool {
    indexer::module_at(mods, f.rel@) matches Some(m) && m.hash@ == store::content_hash_of(
        vstd::utf8::encode_utf8(f.content@),
    )
}

/// Every stored symbol lies in one of the files.
pub open spec fn symbols_within(syms: Seq<Symbol>, files: Seq<WalkedFile>) -> bool {
    forall|i: int| 0 <= i < syms.len() ==> rels_of(files).contains(#[trigger] syms[i].path@)
}

proof fn lemma_kept_step(files: Seq<WalkedFile>, i: int)
    requires
        0 <= i < files.len(),
    ensures
        kept_files(files.take(i + 1)) == if skipped(files[i].rel@) {
            kept_files(files.take(i))
        } else {
            kept_files(files.take(i)).push(files[i])
        },
{
    assert(files.take(i + 1).drop_last() =~= files.take(i));
    assert(files.take(i + 1).last() == files[i]);
}

proof fn lemma_kept_prefix(files: Seq<WalkedFile>, i: int)
    requires
        0 <= i <= files.len(),
    ensures
        kept_files(files.take(i)).len() <= i,
        kept_files(files.take(i)).len() <= kept_files(files).len(),
        kept_files(files).take(kept_files(files.take(i)).len() as int) == kept_files(files.take(i)),
    decreases files.len() - i,
{
    if i == files.len() {
        assert(files.take(i) =~= files);
        assert(kept_files(files).take(kept_files(files).len() as int) =~= kept_files(files));
        lemma_kept_len(files);
    } else {
        lemma_kept_prefix(files, i + 1);
        lemma_kept_step(files, i);
        lemma_kept_len(files.take(i));
        let a = kept_files(files.take(i));
        let b = kept_files(files.take(i + 1));
        let all = kept_files(files);
        if !skipped(files[i].rel@) {
            assert(all.take(a.len() as int) =~= all.take(b.len() as int).take(a.len() as int));
            assert(b.take(a.len() as int) =~= a);
        }
    }
}

proof fn lemma_kept_len(files: Seq<WalkedFile>)
    ensures
        kept_files(files).len() <= files.len(),
    decreases files.len(),
{
    if files.len() > 0 {
        lemma_kept_len(files.drop_last());
    }
}

proof fn lemma_kept_not_skipped(files: Seq<WalkedFile>)
    ensures
        forall|i: int| 0 <= i < kept_files(files).len() ==> !skipped(#[trigger] kept_files(files)[i].rel@),
    decreases files.len(),
{
    if files.len() > 0 {
        lemma_kept_not_skipped(files.drop_last());
        let prev = kept_files(files.drop_last());
        let cur = kept_files(files);
        assert forall|i: int| 0 <= i < cur.len() implies !skipped(#[trigger] cur[i].rel@) by {
            if i < prev.len() {
                assert(cur[i] == prev[i]);
            }
        }
    }
}

/// A complete run over files with distinct paths leaves modules that find each of those
/// files unchanged when it is walked again with the same content.
pub proof fn lemma_same_files_are_unchanged(first: IndexRun, files: Seq<WalkedFile>)
    requires
        first.is_complete(),
        first.walked() == rels_of(files),
        first.contents@ == contents_of(files),
        rels_of(files).no_duplicates(),
    ensures
        unchanged_files(first.modules@, files),
{
    assert forall|i: int| 0 <= i < files.len() implies module_at_hash(first.modules@, #[trigger] files[i]) by {
        indexer::lemma_unchanged_files_are_reused(first, i);
        assert(first.walked()[i] == files[i].rel@);
        assert(first.contents@[i] == files[i].content@);
    }
}

/// The run a walk starts from: nothing visited, and the stored symbols and modules only when
/// the run is incremental.
pub open spec fn is_start(a: IndexRun, incremental: bool, syms: Seq<Symbol>, mods: Seq<MemoryObject>) -> bool {
    &&& a.files_scanned == 0
    &&& a.stale_rebuilt == 0
    &&& a.existing_symbols@ == if incremental { syms } else { Seq::empty() }
    &&& a.existing_modules@ == if incremental { mods } else { Seq::empty() }
    &&& a.all_symbols@.len() == 0
    &&& a.file_imports@.len() == 0
    &&& a.modules@.len() == 0
    &&& a.seen@.len() == 0
    &&& a.contents@.len() == 0
}

/// The hash of a file's content.
pub open spec fn file_hash(f: WalkedFile) -> Seq<char> {
    store::content_hash_of(vstd::utf8::encode_utf8(f.content@))
}

/// What visiting file `f` records in any case: one more file scanned, its path and content.
pub open spec fn visited(a: IndexRun, b: IndexRun, f: WalkedFile) -> bool {
    &&& b.existing_symbols@ == a.existing_symbols@
    &&& b.existing_modules@ == a.existing_modules@
    &&& b.files_scanned == a.files_scanned + 1
    &&& b.walked() == a.walked().push(f.rel@)
    &&& b.contents@ == a.contents@.push(f.content@)
}

/// File `f` is reused: its stored module is appended, and its stored symbols after the
/// symbols so far; nothing counts as rebuilt and no imports are recorded.
pub open spec fn reused(a: IndexRun, b: IndexRun, f: WalkedFile) -> bool {
    let fs = module::file_symbols(a.existing_symbols@, f.rel@);
    let n = a.all_symbols@.len();
    &&& indexer::module_at(a.existing_modules@, f.rel@) matches Some(m)
        && b.modules@.len() == a.modules@.len() + 1 && b.modules@.drop_last() == a.modules@
        && indexer::same_object(b.modules@.last(), m)
    &&& b.all_symbols@.len() == n + fs.len()
    &&& b.all_symbols@.take(n as int) == a.all_symbols@
    &&& forall|k: int| 0 <= k < fs.len() ==> indexer::same_symbol(#[trigger] b.all_symbols@[n + k], fs[k])
    &&& b.stale_rebuilt == a.stale_rebuilt
    &&& b.file_imports@ == a.file_imports@
}

/// The symbols after adding a parsed file.
pub open spec fn symbols_after(a: IndexRun, pf: Option<ParsedFile>) -> Seq<Symbol> {
    match pf {
        Some(p) => a.all_symbols@ + p.symbols@,
        None => a.all_symbols@,
    }
}

/// The recorded imports after adding a parsed file at `rel`.
pub open spec fn imports_after(a: IndexRun, rel: Seq<char>, pf: Option<ParsedFile>) -> Seq<(Seq<char>, Seq<Seq<char>>)> {
    match pf {
        Some(p) => indexer::record_imports(indexer::imports_views(a.file_imports@), rel, graph::views(p.imports@)),
        None => indexer::imports_views(a.file_imports@),
    }
}

/// File `f`, parsed to `pf`, is added: the parsed symbols follow the symbols so far, its
/// imports are recorded, and the stale count grows when a stored module was there.
pub open spec fn parsed_in(a: IndexRun, b: IndexRun, f: WalkedFile, pf: Option<ParsedFile>) -> bool {
    &&& parser::parse_outcome(pf, f.path@, f.rel@, f.content@, file_hash(f))
    &&& b.all_symbols@ == symbols_after(a, pf)
    &&& indexer::imports_views(b.file_imports@) == imports_after(a, f.rel@, pf)
    &&& b.stale_rebuilt == a.stale_rebuilt + if indexer::module_at(a.existing_modules@, f.rel@) is Some {
        1nat
    } else {
        0nat
    }
}

/// The module text of file `f` once parsed to `pf`.
pub open spec fn module_text_after(a: IndexRun, f: WalkedFile, pf: Option<ParsedFile>) -> Seq<char> {
    module::module_raw(
        f.rel@,
        f.content@,
        symbols_after(a, pf),
        indexer::imports_for(imports_after(a, f.rel@, pf), f.rel@),
    )
}

/// File `f` is parsed to `pf` and its module memory, over the symbols so far and its
/// imports, is appended.
pub open spec fn built(a: IndexRun, b: IndexRun, f: WalkedFile, pf: Option<ParsedFile>) -> bool {
    &&& parsed_in(a, b, f, pf)
    &&& module::text_compressible(module_text_after(a, f, pf))
    &&& b.modules@.len() == a.modules@.len() + 1
    &&& b.modules@.drop_last() == a.modules@
    &&& module::is_module_memory(
        b.modules@.last(),
        f.rel@,
        f.content@,
        symbols_after(a, pf),
        indexer::imports_for(imports_after(a, f.rel@, pf), f.rel@),
    )
}

/// File `f` is parsed to `pf`, but its module text cannot be summarised without cutting
/// inside a character: no module is appended.
pub open spec fn refused(a: IndexRun, b: IndexRun, f: WalkedFile, pf: Option<ParsedFile>) -> bool {
    &&& parsed_in(a, b, f, pf)
    &&& !module::text_compressible(module_text_after(a, f, pf))
    &&& b.modules@ == a.modules@
}

/// One step of a walk over the kept file `f`, from run `a` to run `b`: reuse when the stored
/// module of its path carries the hash of its content, else parse and build.
pub open spec fn walk_step(a: IndexRun, b: IndexRun, f: WalkedFile) -> bool {
    &&& visited(a, b, f)
    &&& if module_at_hash(a.existing_modules@, f) {
        reused(a, b, f)
    } else {
        exists|pf: Option<ParsedFile>| #[trigger] built(a, b, f, pf)
    }
}

/// The step that stops a walk at file `f`.
pub open spec fn walk_stop(a: IndexRun, b: IndexRun, f: WalkedFile) -> bool {
    &&& visited(a, b, f)
    &&& !module_at_hash(a.existing_modules@, f)
    &&& exists|pf: Option<ParsedFile>| #[trigger] refused(a, b, f, pf)
}

/// `t` is the sequence of runs a walk goes through over `files`, one step per file, from the
/// start given by the options and the stored symbols and modules.
pub open spec fn is_walk(
    t: Seq<IndexRun>,
    incremental: bool,
    syms: Seq<Symbol>,
    mods: Seq<MemoryObject>,
    files: Seq<WalkedFile>,
) -> bool {
    &&& t.len() == files.len() + 1
    &&& is_start(t[0], incremental, syms, mods)
    &&& forall|k: int| 0 <= k < files.len() ==> walk_step(#[trigger] t[k], t[k + 1], files[k])
}

/// `b` is run `a` with what the walk did not see pruned.
pub open spec fn pruned(a: IndexRun, b: IndexRun) -> bool {
    &&& b.modules@ == indexer::seen_modules(a.modules@, a.walked())
    &&& b.all_symbols@ == indexer::seen_symbols(a.all_symbols@, a.walked())
    &&& b.seen@ == a.seen@
    &&& b.contents@ == a.contents@
    &&& b.file_imports@ == a.file_imports@
    &&& b.existing_symbols@ == a.existing_symbols@
    &&& b.existing_modules@ == a.existing_modules@
    &&& b.files_scanned == a.files_scanned
    &&& b.stale_rebuilt == a.stale_rebuilt
}

/// Visits one kept file and, unless its stored module is reused, parses and adds it. `false`
/// when its module text cannot be summarised without cutting inside a character.
fn walk_file(run: &mut IndexRun, f: &WalkedFile) -> (r: bool)
    requires
        old(run).is_complete(),
        old(run).files_scanned < usize::MAX,
        f.content@.len() <= isize::MAX,
    ensures
        r ==> walk_step(*old(run), *final(run), *f) && final(run).is_complete(),
        !r ==> walk_stop(*old(run), *final(run), *f),
        old(run).gathers() && module_at_hash(old(run).existing_modules@, *f) ==> r && final(run).gathers(),
        module_at_hash(old(run).existing_modules@, *f) ==> final(run).stale_rebuilt == old(run).stale_rebuilt,
{
    let ghost pre = *run;
    match run.visit(f.rel.as_str(), f.content.as_str()) {
        None => {
            proof {
                assert(run.walked() =~= pre.walked().push(f.rel@));
                assert(reused(pre, *run, *f));
            }
            true
        },
        Some(hash) => {
            proof {
                assert(run.walked() =~= pre.walked().push(f.rel@));
            }
            let parsed = parser::parse_file(f.path.as_str(), f.rel.as_str(), f.content.as_str(), hash.as_str());
            let ghost pg = parsed;
            if !run.add_file(f.rel.clone(), f.content.as_str(), parsed) {
                proof {
                    assert(refused(pre, *run, *f, pg));
                }
                false
            } else {
                proof {
                    assert(built(pre, *run, *f, pg));
                }
                true
            }
        },
    }
}

impl IndexRun {
    /// Runs the files of a walk through a new run, skipping those under the store's directory,
    /// `target` and `.git`: each is visited and, unless its stored module is reused, parsed and
    /// added; then what the walk did not see is pruned. `Err` gives back the run as it stood
    /// when a file's module text could not be summarised without cutting inside a character.
    pub fn walk(
        options: IndexOptions,
        existing_symbols: Vec<Symbol>,
        existing_modules: Vec<MemoryObject>,
        files: &Vec<WalkedFile>,
    ) -> (r: Result<IndexRun, IndexRun>)
        requires
            forall|i: int| 0 <= i < files@.len() ==> (#[trigger] files@[i]).content@.len() <= isize::MAX,
        ensures
            ({
                let kept = kept_files(files@);
                match r {
                    Ok(run) => {
                        &&& exists|t: Seq<IndexRun>| #[trigger] is_walk(t, options.incremental, existing_symbols@, existing_modules@, kept)
                            && pruned(t.last(), run)
                        &&& run.is_complete()
                        &&& run.files_scanned == kept.len()
                        &&& run.walked() == rels_of(kept)
                        &&& run.contents@ == contents_of(kept)
                        &&& symbols_within(run.all_symbols@, kept)
                        &&& options.incremental && unchanged_files(existing_modules@, kept) ==> {
                            &&& run.stale_rebuilt == 0
                            &&& run.gathers()
                            &&& rels_of(kept).no_duplicates() && symbols_within(existing_symbols@, kept)
                                ==> run.all_symbols@.len() == existing_symbols@.len()
                        }
                    },
                    Err(run) => {
                        let k = run.files_scanned - 1;
                        &&& exists|t: Seq<IndexRun>| #[trigger] is_walk(t, options.incremental, existing_symbols@, existing_modules@, kept.take(k))
                            && walk_stop(t.last(), run, kept[k])
                        &&& 0 < run.files_scanned <= kept.len()
                        &&& run.walked() == rels_of(kept).take(run.files_scanned as int)
                        &&& run.contents@ == contents_of(kept).take(run.files_scanned as int)
                        &&& !(options.incremental && unchanged_files(existing_modules@, kept))
                    },
                }
            }),
    {
        let ghost kept = kept_files(files@);
        let ghost unchanged = options.incremental && unchanged_files(existing_modules@, kept);
        let ghost em = existing_modules@;
        let ghost es = existing_symbols@;
        let mut run = IndexRun::new(options, existing_symbols, existing_modules);
        let mut i: usize = 0;
        let ghost mut t: Seq<IndexRun> = seq![run];
        proof {
            assert(run.existing_symbols@ =~= if options.incremental { es } else { Seq::empty() });
            assert(run.existing_modules@ =~= if options.incremental { em } else { Seq::empty() });
            assert(is_start(run, options.incremental, es, em));
            assert(files@.take(0) =~= Seq::<WalkedFile>::empty());
            assert(run.walked() =~= rels_of(kept_files(files@.take(0))));
            assert(run.contents@ =~= contents_of(kept_files(files@.take(0))));
        }
        while i < files.len()
            invariant
                i <= files@.len(),
                kept == kept_files(files@),
                forall|j: int| 0 <= j < files@.len() ==> (#[trigger] files@[j]).content@.len() <= isize::MAX,
                run.is_complete(),
                run.files_scanned == kept_files(files@.take(i as int)).len(),
                run.walked() == rels_of(kept_files(files@.take(i as int))),
                run.contents@ == contents_of(kept_files(files@.take(i as int))),
                em == existing_modules@,
                es == existing_symbols@,
                kept == kept_files(files@),
                options.incremental ==> run.existing_modules@ == em,
                options.incremental ==> run.existing_symbols@ == es,
                unchanged == (options.incremental && unchanged_files(em, kept)),
                unchanged ==> run.gathers() && run.stale_rebuilt == 0,
                is_walk(t, options.incremental, es, em, kept_files(files@.take(i as int))),
                t.last() == run,
            decreases files@.len() - i,
        {
            let f = &files[i];
            proof {
                lemma_kept_step(files@, i as int);
                lemma_kept_prefix(files@, i as int);
            }
            let ghost before = kept_files(files@.take(i as int));
            if !indexer::is_skipped(f.rel.as_str()) {
                let ghost n = before.len() as int;
                proof {
                    lemma_kept_prefix(files@, i + 1);
                    assert(kept_files(files@.take(i + 1)) == before.push(files@[i as int]));
                    assert(kept.take(n + 1) == before.push(files@[i as int]));
                    assert(kept.take(n + 1)[n] == kept[n]);
                    assert(kept[n] == files@[i as int]);
                    assert(rels_of(before.push(*f)) =~= rels_of(before).push(f.rel@));
                    assert(contents_of(before.push(*f)) =~= contents_of(before).push(f.content@));
                    if unchanged {
                        assert(module_at_hash(em, kept[n]));
                    }
                }
                let ghost pre = run;
                if !walk_file(&mut run, f) {
                    proof {
                        lemma_kept_prefix(files@, i + 1);
                        assert(run.files_scanned == n + 1);
                        assert(kept.take(n + 1) == before.push(*f));
                        assert(rels_of(kept.take(n + 1)) =~= rels_of(kept).take(n + 1));
                        assert(contents_of(kept.take(n + 1)) =~= contents_of(kept).take(n + 1));
                        lemma_kept_len(files@);
                        assert(kept.take(n) =~= kept.take(n + 1).take(n));
                        assert(before.push(*f).take(n) =~= before);
                    }
                    return Err(run);
                }
                proof {
                    assert(walk_step(pre, run, *f));
                    let t0 = t;
                    t = t.push(run);
                    let b1 = before.push(*f);
                    assert forall|k: int| 0 <= k < b1.len() implies walk_step(#[trigger] t[k], t[k + 1], b1[k]) by {
                        if k < before.len() {
                            assert(t[k] == t0[k] && t[k + 1] == t0[k + 1] && b1[k] == before[k]);
                        } else {
                            assert(t[k] == pre && t[k + 1] == run && b1[k] == *f);
                        }
                    }
                    assert(is_walk(t, options.incremental, es, em, b1));
                }
            }
            i += 1;
        }
        proof {
            assert(files@.take(files@.len() as int) =~= files@);
        }
        let ghost last = run;
        run.prune();
        proof {
            assert(pruned(last, run));
            assert forall|j: int| 0 <= j < run.all_symbols@.len() implies rels_of(kept).contains(
                #[trigger] run.all_symbols@[j].path@,
            ) by {
                assert(run.walked().contains(run.all_symbols@[j].path@));
            }
            if unchanged && rels_of(kept).no_duplicates() && symbols_within(es, kept) {
                assert forall|j: int| 0 <= j < run.existing_symbols@.len() implies run.walked().contains(
                    #[trigger] run.existing_symbols@[j].path@,
                ) by {
                    assert(rels_of(kept).contains(es[j].path@));
                }
                indexer::lemma_reuse_keeps_symbol_count(run);
            }
        }
        Ok(run)
    }
}

} // verus!
