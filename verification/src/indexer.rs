//! The decisions of an index run: which files are reused, what each file adds, and what
//! the run builds at its end. Walking the repository, reading files and writing the store
//! is the application's part.
use vstd::prelude::*;
use crate::architecture;
use crate::compression::CompressedText;
use crate::graph::{self, DependencyGraph};
use crate::memory::Confidence;
use crate::module;
use crate::object::{MemoryKind, MemoryObject};
use crate::parser::ParsedFile;
use crate::store::{self, TroveManifest};
use crate::subsystem;
use crate::symbol::Symbol;
use crate::text;

verus! {

/// How an index run treats what an earlier run stored.
#[derive(Debug, Clone)]
pub struct IndexOptions {
    pub incremental: bool,
}

impl Default for IndexOptions {
    fn default() -> (r: Self)
        ensures
            r.incremental,
    {
        IndexOptions { incremental: true }
    }
}

/// What an index run did.
#[derive(Debug, Clone)]
pub struct IndexReport {
    pub files_scanned: usize,
    pub symbols_indexed: usize,
    pub modules_built: usize,
    pub subsystems_built: usize,
    pub stale_rebuilt: usize,
}

// ---------------------------------------------------------------------------
// Copies
// ---------------------------------------------------------------------------

/// Two symbols hold the same values.
pub open spec fn same_symbol(a: Symbol, b: Symbol) -> bool {
    &&& a.id == b.id
    &&& a.name == b.name
    &&& a.kind == b.kind
    &&& a.path == b.path
    &&& a.start_line == b.start_line
    &&& a.end_line == b.end_line
    &&& a.signature == b.signature
    &&& a.owner == b.owner
    &&& a.dependencies@ == b.dependencies@
    &&& a.references@ == b.references@
    &&& a.complexity == b.complexity
    &&& a.hash == b.hash
}

/// Two compressed texts hold the same values.
pub open spec fn same_text(a: CompressedText, b: CompressedText) -> bool {
    &&& a.raw == b.raw
    &&& a.summary == b.summary
    &&& a.ultra_summary == b.ultra_summary
    &&& a.keywords@ == b.keywords@
    &&& match (a.embedding, b.embedding) {
        (Some(x), Some(y)) => x@ == y@,
        (None, None) => true,
        _ => false,
    }
}

/// Two confidences hold the same values.
pub open spec fn same_confidence(a: Option<Confidence>, b: Option<Confidence>) -> bool {
    match (a, b) {
        (Some(x), Some(y)) => x.score == y.score && x.reason == y.reason && x.retrieval_path@
            == y.retrieval_path@ && x.distance == y.distance && x.last_verified == y.last_verified,
        (None, None) => true,
        _ => false,
    }
}

/// Two memory objects hold the same values.
pub open spec fn same_object(a: MemoryObject, b: MemoryObject) -> bool {
    &&& a.id == b.id
    &&& a.kind == b.kind
    &&& a.path == b.path
    &&& same_text(a.text, b.text)
    &&& a.dependencies@ == b.dependencies@
    &&& a.symbols@ == b.symbols@
    &&& a.hash == b.hash
    &&& a.updated_at == b.updated_at
    &&& a.importance == b.importance
    &&& same_confidence(a.confidence, b.confidence)
    &&& a.risk == b.risk
    &&& a.git_commit == b.git_commit
}

fn copy_opt_string(o: &Option<String>) -> (r: Option<String>)
    ensures
        r == *o,
{
    match o {
        Some(s) => Some(s.clone()),
        None => None,
    }
}

/// A copy of a symbol.
pub fn copy_symbol(s: &Symbol) -> (r: Symbol)
    ensures
        same_symbol(r, *s),
{
    Symbol {
        id: s.id.clone(),
        name: s.name.clone(),
        kind: s.kind,
        path: s.path.clone(),
        start_line: s.start_line,
        end_line: s.end_line,
        signature: copy_opt_string(&s.signature),
        owner: copy_opt_string(&s.owner),
        dependencies: text::clone_strings(&s.dependencies),
        references: text::clone_strings(&s.references),
        complexity: s.complexity,
        hash: s.hash.clone(),
    }
}

fn copy_u32s(v: &Vec<u32>) -> (r: Vec<u32>)
    ensures
        r@ == v@,
{
    let r = v.clone();
    assert(r@ =~= v@);
    r
}

/// A copy of a memory object.
pub fn copy_object(o: &MemoryObject) -> (r: MemoryObject)
    ensures
        same_object(r, *o),
{
    let embedding = match &o.text.embedding {
        Some(e) => Some(copy_u32s(e)),
        None => None,
    };
    let confidence = match &o.confidence {
        Some(c) => Some(
            Confidence {
                score: c.score,
                reason: c.reason.clone(),
                retrieval_path: text::clone_strings(&c.retrieval_path),
                distance: c.distance,
                last_verified: copy_opt_string(&c.last_verified),
            },
        ),
        None => None,
    };
    MemoryObject {
        id: o.id.clone(),
        kind: o.kind,
        path: copy_opt_string(&o.path),
        text: CompressedText {
            raw: copy_opt_string(&o.text.raw),
            summary: copy_opt_string(&o.text.summary),
            ultra_summary: copy_opt_string(&o.text.ultra_summary),
            keywords: text::clone_strings(&o.text.keywords),
            embedding,
        },
        dependencies: text::clone_strings(&o.dependencies),
        symbols: text::clone_strings(&o.symbols),
        hash: o.hash.clone(),
        updated_at: o.updated_at,
        importance: o.importance,
        confidence,
        risk: o.risk,
        git_commit: copy_opt_string(&o.git_commit),
    }
}

// ---------------------------------------------------------------------------
// Symbol memories
// ---------------------------------------------------------------------------

/// The text a symbol memory is made from: its signature, or `kind name`.
pub open spec fn symbol_raw(s: Symbol) -> Seq<char> {
    match s.signature {
        Some(sig) => sig@,
        None => s.kind.label_text() + " "@ + s.name@,
    }
}

/// The symbol memory of a symbol.
pub open spec fn is_symbol_memory(o: MemoryObject, s: Symbol) -> bool {
    &&& o.id == s.id
    &&& o.kind == MemoryKind::Symbol
    &&& o.path == Some(s.path)
    &&& module::compressed_from(o.text, symbol_raw(s))
    &&& o.dependencies@ == s.dependencies@
    &&& o.symbols@.len() == 0
    &&& o.hash == s.hash
    &&& o.importance == 500
    &&& o.confidence is None
    &&& o.risk == module::importance_per_symbol(s.complexity as nat, 20)
    &&& o.git_commit is None
}

/// Every symbol text can be summarised without cutting inside a character.
pub open spec fn symbols_compressible(syms: Seq<Symbol>) -> bool {
    forall|i: int| 0 <= i < syms.len() ==> module::text_compressible(symbol_raw(#[trigger] syms[i]))
}

fn symbol_raw_text(sym: &Symbol) -> (r: String)
    ensures
        r@ == symbol_raw(*sym),
{
    match &sym.signature {
        Some(sig) => sig.clone(),
        None => {
            let mut raw = text::owned(sym.kind.label());
            text::push_str(&mut raw, " ");
            text::push_str(&mut raw, sym.name.as_str());
            raw
        },
    }
}

/// The symbol memory of a symbol: its signature (or kind and name) compressed, its risk a
/// fiftieth per unit of complexity, capped at 1.
pub fn symbol_to_memory(sym: &Symbol) -> (r: MemoryObject)
    requires
        module::text_compressible(symbol_raw(*sym)),
    ensures
        is_symbol_memory(r, *sym),
{
    let mut obj = MemoryObject::new(sym.id.clone(), MemoryKind::Symbol, sym.hash.clone());
    obj.path = Some(sym.path.clone());
    obj.dependencies = text::clone_strings(&sym.dependencies);
    let raw = symbol_raw_text(sym);
    obj.text = module::compress_raw(raw);
    obj.risk = module::importance_for(sym.complexity, 20);
    obj
}

// ---------------------------------------------------------------------------
// The run
// ---------------------------------------------------------------------------

/// The state of an index run. A run made by `new` that visits each file and, whenever `visit`
/// hands back a hash, adds the file with `add_file` answering `true`, stays complete
/// (`is_complete`): one module per visited file, in the order of the walk, each carrying the
/// hash of the file's content. A run whose visits were all reused keeps `gathers`.
pub struct IndexRun {
    pub files_scanned: usize,
    pub stale_rebuilt: usize,
    pub existing_symbols: Vec<Symbol>,
    pub existing_modules: Vec<MemoryObject>,
    pub all_symbols: Vec<Symbol>,
    pub file_imports: Vec<(String, Vec<String>)>,
    pub modules: Vec<MemoryObject>,
    pub seen: Vec<String>,
    /// What each visited file held, in the order of `seen`.
    pub contents: Ghost<Seq<Seq<char>>>,
}

/// What an index run builds at its end.
pub struct IndexOutput {
    pub symbols: Vec<Symbol>,
    pub symbol_objects: Vec<MemoryObject>,
    pub modules: Vec<MemoryObject>,
    pub subsystems: Vec<MemoryObject>,
    pub architecture: MemoryObject,
    pub graph: DependencyGraph,
    pub manifest: TroveManifest,
    pub report: IndexReport,
}

/// The stored module of file `path`: the last of the stored modules with that path.
pub open spec fn module_at(mods: Seq<MemoryObject>, path: Seq<char>) -> Option<MemoryObject>
    decreases mods.len(),
{
    if mods.len() == 0 {
        None
    } else if mods.last().path matches Some(p) && p@ == path {
        Some(mods.last())
    } else {
        module_at(mods.drop_last(), path)
    }
}

/// The import views of the recorded files.
pub open spec fn imports_views(v: Seq<(String, Vec<String>)>) -> Seq<(Seq<char>, Seq<Seq<char>>)> {
    v.map_values(|p: (String, Vec<String>)| graph::imports_view(p))
}

/// Position of the entry of file `path`.
pub open spec fn imports_index(files: Seq<(Seq<char>, Seq<Seq<char>>)>, path: Seq<char>) -> Option<int>
    decreases files.len(),
{
    if files.len() == 0 {
        None
    } else {
        match imports_index(files.drop_last(), path) {
            Some(i) => Some(i),
            None => if files.last().0 == path {
                Some(files.len() - 1)
            } else {
                None
            },
        }
    }
}

/// The imports recorded for file `path`, none when it has no entry.
pub open spec fn imports_for(files: Seq<(Seq<char>, Seq<Seq<char>>)>, path: Seq<char>) -> Seq<Seq<char>> {
    match imports_index(files, path) {
        Some(i) => files[i].1,
        None => Seq::empty(),
    }
}

/// The entry of file `path` set to `imports`: replaced where it is, appended otherwise.
pub open spec fn record_imports(
    files: Seq<(Seq<char>, Seq<Seq<char>>)>,
    path: Seq<char>,
    imports: Seq<Seq<char>>,
) -> Seq<(Seq<char>, Seq<Seq<char>>)> {
    match imports_index(files, path) {
        Some(i) => files.update(i, (path, imports)),
        None => files.push((path, imports)),
    }
}

/// The modules whose path a run has seen.
pub open spec fn seen_modules(mods: Seq<MemoryObject>, seen: Seq<Seq<char>>) -> Seq<MemoryObject>
    decreases mods.len(),
{
    if mods.len() == 0 {
        Seq::empty()
    } else {
        let prev = seen_modules(mods.drop_last(), seen);
        if mods.last().path matches Some(p) && seen.contains(p@) {
            prev.push(mods.last())
        } else {
            prev
        }
    }
}

/// The symbols whose path a run has seen.
pub open spec fn seen_symbols(syms: Seq<Symbol>, seen: Seq<Seq<char>>) -> Seq<Symbol>
    decreases syms.len(),
{
    if syms.len() == 0 {
        Seq::empty()
    } else {
        let prev = seen_symbols(syms.drop_last(), seen);
        if seen.contains(syms.last().path@) {
            prev.push(syms.last())
        } else {
            prev
        }
    }
}

/// The name a repository is known by: its directory's name, or `repository`.
pub open spec fn repo_name_of(dir_name: Option<String>) -> Seq<char> {
    match dir_name {
        Some(n) => n@,
        None => "repository"@,
    }
}

/// Module `i` lies in the `i`-th file of `paths` and carries the hash of `contents[i]`, what
/// that file held.
pub open spec fn modules_match(mods: Seq<MemoryObject>, paths: Seq<Seq<char>>, contents: Seq<Seq<char>>) -> bool {
    &&& mods.len() <= paths.len()
    &&& mods.len() <= contents.len()
    &&& forall|i: int|
        0 <= i < mods.len() ==> text::opt_chars(#[trigger] mods[i].path) == Some(paths[i])
            && mods[i].hash@ == store::content_hash_of(vstd::utf8::encode_utf8(contents[i]))
}

impl IndexRun {
    /// The paths of the files the run has visited, in order.
    pub open spec fn walked(self) -> Seq<Seq<char>> {
        self.seen@.map_values(|s: String| s@)
    }

    /// Every file the run visited has exactly one module, in the order of the walk: module `i`
    /// lies in the `i`-th visited file and carries the hash of what that file held.
    pub open spec fn is_complete(self) -> bool {
        &&& self.seen@.len() == self.files_scanned
        &&& self.contents@.len() == self.files_scanned
        &&& self.modules@.len() == self.files_scanned
        &&& self.stale_rebuilt <= self.files_scanned
        &&& modules_match(self.modules@, self.walked(), self.contents@)
    }

    /// The run has just visited file `path`, which held `content`, and every file before it
    /// has its module.
    pub open spec fn awaits(self, path: Seq<char>, content: Seq<char>) -> bool {
        &&& self.files_scanned > 0
        &&& self.seen@.len() == self.files_scanned
        &&& self.contents@.len() == self.files_scanned
        &&& self.modules@.len() + 1 == self.files_scanned
        &&& self.stale_rebuilt <= self.files_scanned
        &&& self.walked().last() == path
        &&& self.contents@.last() == content
        &&& modules_match(self.modules@, self.walked(), self.contents@)
    }
}

/// How many symbols a run gathers when it reuses, file by file, the stored symbols of each
/// of `paths`.
pub open spec fn gathered_count(syms: Seq<Symbol>, paths: Seq<Seq<char>>) -> nat
    decreases paths.len(),
{
    if paths.len() == 0 {
        0
    } else {
        gathered_count(syms, paths.drop_last()) + module::file_symbols(syms, paths.last()).len()
    }
}

/// How many times `p` occurs in `paths`.
pub open spec fn path_count(paths: Seq<Seq<char>>, p: Seq<char>) -> nat
    decreases paths.len(),
{
    if paths.len() == 0 {
        0
    } else {
        path_count(paths.drop_last(), p) + if paths.last() == p {
            1nat
        } else {
            0nat
        }
    }
}

impl IndexRun {
    /// Every file the run visited so far was reused: it holds the stored symbols of each
    /// visited file, and nothing else.
    pub open spec fn gathers(self) -> bool {
        &&& self.all_symbols@.len() == gathered_count(self.existing_symbols@, self.walked())
        &&& forall|i: int| 0 <= i < self.all_symbols@.len() ==> self.walked().contains(#[trigger] self.all_symbols@[i].path@)
    }
}

proof fn lemma_file_symbols_path(syms: Seq<Symbol>, path: Seq<char>)
    ensures
        forall|k: int| 0 <= k < module::file_symbols(syms, path).len() ==> (#[trigger] module::file_symbols(syms, path)[k]).path@ == path,
    decreases syms.len(),
{
    if syms.len() > 0 {
        lemma_file_symbols_path(syms.drop_last(), path);
        let prev = module::file_symbols(syms.drop_last(), path);
        let cur = module::file_symbols(syms, path);
        assert forall|k: int| 0 <= k < cur.len() implies (#[trigger] cur[k]).path@ == path by {
            if k < prev.len() {
                assert(cur[k] == prev[k]);
            }
        }
    }
}

proof fn lemma_gathered_step(syms: Seq<Symbol>, paths: Seq<Seq<char>>)
    requires
        syms.len() > 0,
    ensures
        gathered_count(syms, paths) == gathered_count(syms.drop_last(), paths) + path_count(paths, syms.last().path@),
    decreases paths.len(),
{
    if paths.len() > 0 {
        lemma_gathered_step(syms, paths.drop_last());
    }
}

proof fn lemma_path_count_absent(paths: Seq<Seq<char>>, p: Seq<char>)
    requires
        !paths.contains(p),
    ensures
        path_count(paths, p) == 0,
    decreases paths.len(),
{
    if paths.len() > 0 {
        let d = paths.drop_last();
        if d.contains(p) {
            let k = choose|k: int| 0 <= k < d.len() && d[k] == p;
            assert(paths[k] == p);
        }
        assert(paths[paths.len() - 1] == paths.last());
        lemma_path_count_absent(d, p);
    }
}

proof fn lemma_path_count_once(paths: Seq<Seq<char>>, p: Seq<char>)
    requires
        paths.no_duplicates(),
        paths.contains(p),
    ensures
        path_count(paths, p) == 1,
    decreases paths.len(),
{
    let d = paths.drop_last();
    let n = paths.len() - 1;
    if paths.last() == p {
        if d.contains(p) {
            let k = choose|k: int| 0 <= k < d.len() && d[k] == p;
            assert(paths[k] == paths[n]);
        }
        lemma_path_count_absent(d, p);
    } else {
        let k = choose|k: int| 0 <= k < paths.len() && paths[k] == p;
        assert(k != n);
        assert(d[k] == p);
        assert forall|i: int, j: int| 0 <= i < d.len() && 0 <= j < d.len() && i != j implies d[i] != d[j] by {
            assert(d[i] == paths[i] && d[j] == paths[j]);
        }
        lemma_path_count_once(d, p);
    }
}

/// Reusing, file by file over distinct paths, the stored symbols of each file gathers as many
/// symbols as were stored, when every stored symbol lies in one of those files.
pub proof fn lemma_reuse_gathers_every_symbol(syms: Seq<Symbol>, paths: Seq<Seq<char>>)
    requires
        paths.no_duplicates(),
        forall|i: int| 0 <= i < syms.len() ==> paths.contains(#[trigger] syms[i].path@),
    ensures
        gathered_count(syms, paths) == syms.len(),
    decreases syms.len(),
{
    if syms.len() == 0 {
        lemma_gathered_empty(paths);
        assert(syms =~= Seq::empty());
    } else {
        let d = syms.drop_last();
        assert forall|i: int| 0 <= i < d.len() implies paths.contains(#[trigger] d[i].path@) by {
            assert(d[i] == syms[i]);
        }
        lemma_reuse_gathers_every_symbol(d, paths);
        lemma_gathered_step(syms, paths);
        assert(paths.contains(syms[syms.len() - 1].path@));
        lemma_path_count_once(paths, syms.last().path@);
    }
}

proof fn lemma_gathered_empty(paths: Seq<Seq<char>>)
    ensures
        gathered_count(Seq::empty(), paths) == 0,
    decreases paths.len(),
{
    if paths.len() > 0 {
        lemma_gathered_empty(paths.drop_last());
    }
}

proof fn lemma_seen_symbols_all(syms: Seq<Symbol>, paths: Seq<Seq<char>>)
    requires
        forall|i: int| 0 <= i < syms.len() ==> paths.contains(#[trigger] syms[i].path@),
    ensures
        seen_symbols(syms, paths) == syms,
    decreases syms.len(),
{
    if syms.len() > 0 {
        let d = syms.drop_last();
        assert forall|i: int| 0 <= i < d.len() implies paths.contains(#[trigger] d[i].path@) by {
            assert(d[i] == syms[i]);
        }
        lemma_seen_symbols_all(d, paths);
        assert(paths.contains(syms[syms.len() - 1].path@));
        assert(d.push(syms.last()) =~= syms);
    }
}

proof fn lemma_module_at_path(mods: Seq<MemoryObject>, path: Seq<char>)
    ensures
        module_at(mods, path) matches Some(m) ==> text::opt_chars(m.path) == Some(path),
    decreases mods.len(),
{
    if mods.len() > 0 {
        lemma_module_at_path(mods.drop_last(), path);
    }
}

proof fn lemma_seen_modules_all(mods: Seq<MemoryObject>, paths: Seq<Seq<char>>)
    requires
        mods.len() <= paths.len(),
        forall|i: int| 0 <= i < mods.len() ==> text::opt_chars(#[trigger] mods[i].path) == Some(paths[i]),
    ensures
        seen_modules(mods, paths) == mods,
    decreases mods.len(),
{
    if mods.len() > 0 {
        let d = mods.drop_last();
        assert forall|i: int| 0 <= i < d.len() implies text::opt_chars(#[trigger] d[i].path) == Some(paths[i]) by {
            assert(d[i] == mods[i]);
        }
        lemma_seen_modules_all(d, paths);
        let n = mods.len() - 1;
        assert(text::opt_chars(mods[n].path) == Some(paths[n]));
        assert(paths.contains(paths[n]));
        assert(d.push(mods.last()) =~= mods);
    }
}

proof fn lemma_imports_index_prefix(files: Seq<(Seq<char>, Seq<Seq<char>>)>, path: Seq<char>, j: int)
    requires
        0 <= j <= files.len(),
        imports_index(files.take(j), path) is None,
        j < files.len() ==> files[j].0 == path,
    ensures
        j < files.len() ==> imports_index(files, path) == Some(j),
        j == files.len() ==> imports_index(files, path) is None,
    decreases files.len(),
{
    if j == files.len() {
        assert(files.take(j) =~= files);
    } else if j == files.len() - 1 {
        assert(files.drop_last() =~= files.take(j));
    } else {
        assert(files.drop_last().take(j) =~= files.take(j));
        lemma_imports_index_prefix(files.drop_last(), path, j);
    }
}

proof fn lemma_imports_index_in(files: Seq<(Seq<char>, Seq<Seq<char>>)>, path: Seq<char>)
    ensures
        imports_index(files, path) matches Some(i) ==> 0 <= i < files.len() && files[i].0 == path,
    decreases files.len(),
{
    if files.len() > 0 {
        lemma_imports_index_in(files.drop_last(), path);
    }
}

impl IndexRun {
    /// A run over what an earlier run stored: the stored symbols and modules are used only
    /// when the run is incremental.
    pub fn new(options: IndexOptions, existing_symbols: Vec<Symbol>, existing_modules: Vec<MemoryObject>) -> (r:
        IndexRun)
        ensures
            r.files_scanned == 0,
            r.stale_rebuilt == 0,
            options.incremental ==> r.existing_symbols@ == existing_symbols@,
            options.incremental ==> r.existing_modules@ == existing_modules@,
            !options.incremental ==> r.existing_symbols@.len() == 0,
            !options.incremental ==> r.existing_modules@.len() == 0,
            r.all_symbols@.len() == 0,
            r.file_imports@.len() == 0,
            r.modules@.len() == 0,
            r.seen@.len() == 0,
            r.contents@.len() == 0,
            r.is_complete(),
            r.gathers(),
    {
        let (syms, mods) = if options.incremental {
            (existing_symbols, existing_modules)
        } else {
            (Vec::new(), Vec::new())
        };
        IndexRun {
            files_scanned: 0,
            stale_rebuilt: 0,
            existing_symbols: syms,
            existing_modules: mods,
            all_symbols: Vec::new(),
            file_imports: Vec::new(),
            modules: Vec::new(),
            seen: Vec::new(),
            contents: Ghost(Seq::empty()),
        }
    }

    fn stored_module(&self, rel: &str) -> (r: Option<usize>)
        ensures
            match module_at(self.existing_modules@, rel@) {
                Some(m) => r matches Some(i) && i < self.existing_modules@.len()
                    && self.existing_modules@[i as int] == m,
                None => r is None,
            },
    {
        let mut i = self.existing_modules.len();
        assert(self.existing_modules@.take(i as int) =~= self.existing_modules@);
        while i > 0
            invariant
                i <= self.existing_modules@.len(),
                module_at(self.existing_modules@, rel@) == module_at(self.existing_modules@.take(i as int), rel@),
            decreases i,
        {
            let ghost t = self.existing_modules@.take(i as int);
            assert(t.drop_last() =~= self.existing_modules@.take(i - 1));
            assert(t.last() == self.existing_modules@[i - 1]);
            match &self.existing_modules[i - 1].path {
                Some(p) => {
                    if text::str_eq(p.as_str(), rel) {
                        return Some(i - 1);
                    }
                },
                None => {},
            }
            i -= 1;
        }
        None
    }

    /// Takes note of a file read during the walk. When a stored module of the same path has
    /// the same content hash, its module and symbols are reused and `None` comes back;
    /// otherwise the content hash comes back and the file is to be parsed.
    pub fn visit(&mut self, rel: &str, content: &str) -> (r: Option<String>)
        requires
            old(self).files_scanned < usize::MAX,
            old(self).stale_rebuilt < usize::MAX,
        ensures
            final(self).files_scanned == old(self).files_scanned + 1,
            final(self).seen@.len() == old(self).seen@.len() + 1,
            final(self).seen@.drop_last() == old(self).seen@,
            final(self).seen@.last()@ == rel@,
            final(self).existing_symbols@ == old(self).existing_symbols@,
            final(self).existing_modules@ == old(self).existing_modules@,
            final(self).file_imports@ == old(self).file_imports@,
            final(self).contents@ == old(self).contents@.push(content@),
            old(self).is_complete() && r is None ==> final(self).is_complete(),
            old(self).is_complete() && r is Some ==> final(self).awaits(rel@, content@),
            old(self).gathers() && r is None ==> final(self).gathers(),
            ({
                let h = store::content_hash_of(vstd::utf8::encode_utf8(content@));
                let fs = module::file_symbols(old(self).existing_symbols@, rel@);
                match module_at(old(self).existing_modules@, rel@) {
                    Some(m) => if m.hash@ == h {
                        &&& r is None
                        &&& final(self).stale_rebuilt == old(self).stale_rebuilt
                        &&& final(self).modules@.len() == old(self).modules@.len() + 1
                        &&& final(self).modules@.drop_last() == old(self).modules@
                        &&& same_object(final(self).modules@.last(), m)
                        &&& final(self).all_symbols@.len() == old(self).all_symbols@.len() + fs.len()
                        &&& final(self).all_symbols@.take(old(self).all_symbols@.len() as int)
                            == old(self).all_symbols@
                        &&& forall|k: int|
                            0 <= k < fs.len() ==> same_symbol(
                                #[trigger] final(self).all_symbols@[old(self).all_symbols@.len() + k],
                                fs[k],
                            )
                    } else {
                        &&& r matches Some(x) && x@ == h
                        &&& final(self).stale_rebuilt == old(self).stale_rebuilt + 1
                        &&& final(self).modules@ == old(self).modules@
                        &&& final(self).all_symbols@ == old(self).all_symbols@
                    },
                    None => {
                        &&& r matches Some(x) && x@ == h
                        &&& final(self).stale_rebuilt == old(self).stale_rebuilt
                        &&& final(self).modules@ == old(self).modules@
                        &&& final(self).all_symbols@ == old(self).all_symbols@
                    },
                }
            }),
    {
        self.files_scanned = self.files_scanned + 1;
        let hash = store::text_hash(content);
        self.seen.push(text::owned(rel));
        self.contents = Ghost(self.contents@.push(content@));
        proof {
            assert(self.walked() =~= old(self).walked().push(rel@));
            lemma_module_at_path(old(self).existing_modules@, rel@);
        }
        match self.stored_module(rel) {
            Some(i) => {
                if text::str_eq(self.existing_modules[i].hash.as_str(), hash.as_str()) {
                    let ghost start = self.all_symbols@;
                    let ghost fs = module::file_symbols(self.existing_symbols@, rel@);
                    let mut j: usize = 0;
                    while j < self.existing_symbols.len()
                        invariant
                            j <= self.existing_symbols@.len(),
                            self.existing_symbols@ == old(self).existing_symbols@,
                            self.existing_modules@ == old(self).existing_modules@,
                            self.modules@ == old(self).modules@,
                            self.file_imports@ == old(self).file_imports@,
                            self.files_scanned == old(self).files_scanned + 1,
                            self.stale_rebuilt == old(self).stale_rebuilt,
                            self.seen@.len() == old(self).seen@.len() + 1,
                            self.seen@.drop_last() == old(self).seen@,
                            self.seen@.last()@ == rel@,
                            self.contents@ == old(self).contents@.push(content@),
                            self.walked() == old(self).walked().push(rel@),
                            fs == module::file_symbols(self.existing_symbols@, rel@),
                            start == old(self).all_symbols@,
                            i < self.existing_modules@.len(),
                            ({
                                let fj = module::file_symbols(self.existing_symbols@.take(j as int), rel@);
                                &&& self.all_symbols@.len() == start.len() + fj.len()
                                &&& self.all_symbols@.take(start.len() as int) == start
                                &&& forall|k: int|
                                    0 <= k < fj.len() ==> same_symbol(
                                        #[trigger] self.all_symbols@[start.len() + k],
                                        fj[k],
                                    )
                            }),
                        decreases self.existing_symbols@.len() - j,
                    {
                        let ghost es = self.existing_symbols@;
                        assert(es.take(j + 1).drop_last() =~= es.take(j as int));
                        assert(es.take(j + 1).last() == es[j as int]);
                        if text::str_eq(self.existing_symbols[j].path.as_str(), rel) {
                            let c = copy_symbol(&self.existing_symbols[j]);
                            let ghost pre = self.all_symbols@;
                            self.all_symbols.push(c);
                            assert(self.all_symbols@.take(start.len() as int) =~= pre.take(start.len() as int));
                        }
                        j += 1;
                    }
                    assert(self.existing_symbols@.take(self.existing_symbols@.len() as int) =~= self.existing_symbols@);
                    let m = copy_object(&self.existing_modules[i]);
                    self.modules.push(m);
                    proof {
                        if old(self).gathers() {
                            let n = old(self).all_symbols@.len() as int;
                            assert(self.walked().drop_last() =~= old(self).walked());
                            assert(self.walked().last() == rel@);
                            lemma_file_symbols_path(self.existing_symbols@, rel@);
                            assert forall|k: int| 0 <= k < self.all_symbols@.len() implies self.walked().contains(
                                #[trigger] self.all_symbols@[k].path@,
                            ) by {
                                if k < n {
                                    assert(self.all_symbols@[k] == self.all_symbols@.take(n)[k]);
                                    assert(old(self).walked().contains(old(self).all_symbols@[k].path@));
                                    let j = choose|j: int| 0 <= j < old(self).walked().len() && old(self).walked()[j]
                                        == old(self).all_symbols@[k].path@;
                                    assert(self.walked()[j] == old(self).walked()[j]);
                                } else {
                                    assert(same_symbol(self.all_symbols@[n + (k - n)], fs[k - n]));
                                    assert(self.walked()[self.walked().len() - 1] == rel@);
                                }
                            }
                        }
                        if old(self).is_complete() {
                            let n = old(self).modules@.len() as int;
                            assert forall|k: int| 0 <= k < self.modules@.len() implies text::opt_chars(
                                #[trigger] self.modules@[k].path,
                            ) == Some(self.walked()[k]) && self.modules@[k].hash@ == store::content_hash_of(
                                vstd::utf8::encode_utf8(self.contents@[k]),
                            ) by {
                                if k < n {
                                    assert(self.modules@[k] == old(self).modules@[k]);
                                }
                            }
                        }
                    }
                    None
                } else {
                    self.stale_rebuilt = self.stale_rebuilt + 1;
                    proof {
                        if old(self).is_complete() {
                            assert forall|k: int| 0 <= k < self.modules@.len() implies text::opt_chars(
                                #[trigger] self.modules@[k].path,
                            ) == Some(self.walked()[k]) && self.modules@[k].hash@ == store::content_hash_of(
                                vstd::utf8::encode_utf8(self.contents@[k]),
                            ) by {
                                assert(self.modules@[k] == old(self).modules@[k]);
                            }
                        }
                    }
                    Some(hash)
                }
            },
            None => {
                proof {
                    if old(self).is_complete() {
                        assert forall|k: int| 0 <= k < self.modules@.len() implies text::opt_chars(
                            #[trigger] self.modules@[k].path,
                        ) == Some(self.walked()[k]) && self.modules@[k].hash@ == store::content_hash_of(
                            vstd::utf8::encode_utf8(self.contents@[k]),
                        ) by {
                            assert(self.modules@[k] == old(self).modules@[k]);
                        }
                    }
                }
                Some(hash)
            },
        }
    }

    fn insert_imports(&mut self, rel: &String, imports: Vec<String>)
        ensures
            imports_views(final(self).file_imports@) == record_imports(
                imports_views(old(self).file_imports@),
                rel@,
                graph::views(imports@),
            ),
            final(self).all_symbols@ == old(self).all_symbols@,
            final(self).modules@ == old(self).modules@,
            final(self).existing_symbols@ == old(self).existing_symbols@,
            final(self).existing_modules@ == old(self).existing_modules@,
            final(self).seen@ == old(self).seen@,
            final(self).contents@ == old(self).contents@,
            final(self).files_scanned == old(self).files_scanned,
            final(self).stale_rebuilt == old(self).stale_rebuilt,
    {
        let ghost fv = imports_views(self.file_imports@);
        let mut j: usize = 0;
        while j < self.file_imports.len() && !text::str_eq(self.file_imports[j].0.as_str(), rel.as_str())
            invariant
                j <= self.file_imports@.len(),
                fv == imports_views(self.file_imports@),
                imports_index(fv.take(j as int), rel@) is None,
            decreases self.file_imports@.len() - j,
        {
            assert(fv.take(j + 1).drop_last() =~= fv.take(j as int));
            j += 1;
        }
        proof {
            lemma_imports_index_prefix(fv, rel@, j as int);
        }
        if j < self.file_imports.len() {
            self.file_imports.set(j, (rel.clone(), imports));
            assert(imports_views(self.file_imports@) =~= fv.update(j as int, (rel@, graph::views(imports@))));
        } else {
            self.file_imports.push((rel.clone(), imports));
            assert(imports_views(self.file_imports@) =~= fv.push((rel@, graph::views(imports@))));
        }
    }

    fn recorded_imports(&self, rel: &String) -> (r: Vec<String>)
        ensures
            graph::views(r@) == imports_for(imports_views(self.file_imports@), rel@),
    {
        let ghost fv = imports_views(self.file_imports@);
        let mut j: usize = 0;
        while j < self.file_imports.len() && !text::str_eq(self.file_imports[j].0.as_str(), rel.as_str())
            invariant
                j <= self.file_imports@.len(),
                fv == imports_views(self.file_imports@),
                imports_index(fv.take(j as int), rel@) is None,
            decreases self.file_imports@.len() - j,
        {
            assert(fv.take(j + 1).drop_last() =~= fv.take(j as int));
            j += 1;
        }
        proof {
            lemma_imports_index_prefix(fv, rel@, j as int);
        }
        if j < self.file_imports.len() {
            text::clone_strings(&self.file_imports[j].1)
        } else {
            Vec::new()
        }
    }

    /// Adds a file to parse: its imports and symbols when the grammar gave any, then its
    /// module memory over all symbols so far. Answers `false`, and builds no module, when the
    /// module text cannot be summarised without cutting inside a character.
    pub fn add_file(&mut self, rel: String, content: &str, parsed: Option<ParsedFile>) -> (r: bool)
        ensures
            ({
                let syms = match parsed {
                    Some(pf) => old(self).all_symbols@ + pf.symbols@,
                    None => old(self).all_symbols@,
                };
                let files = match parsed {
                    Some(pf) => record_imports(
                        imports_views(old(self).file_imports@),
                        rel@,
                        graph::views(pf.imports@),
                    ),
                    None => imports_views(old(self).file_imports@),
                };
                let imports = imports_for(files, rel@);
                &&& final(self).all_symbols@ == syms
                &&& imports_views(final(self).file_imports@) == files
                &&& r == module::text_compressible(module::module_raw(rel@, content@, syms, imports))
                &&& r ==> final(self).modules@.len() == old(self).modules@.len() + 1
                    && final(self).modules@.drop_last() == old(self).modules@
                    && module::is_module_memory(final(self).modules@.last(), rel@, content@, syms, imports)
                &&& !r ==> final(self).modules@ == old(self).modules@
            }),
            final(self).existing_symbols@ == old(self).existing_symbols@,
            final(self).existing_modules@ == old(self).existing_modules@,
            final(self).seen@ == old(self).seen@,
            final(self).contents@ == old(self).contents@,
            final(self).files_scanned == old(self).files_scanned,
            final(self).stale_rebuilt == old(self).stale_rebuilt,
            old(self).awaits(rel@, content@) && r ==> final(self).is_complete(),
    {
        match parsed {
            Some(pf) => {
                let ParsedFile { symbols, imports } = pf;
                let mut symbols = symbols;
                self.insert_imports(&rel, imports);
                self.all_symbols.append(&mut symbols);
            },
            None => {},
        }
        let imports = self.recorded_imports(&rel);
        let raw = module::module_raw_text(rel.as_str(), content, &self.all_symbols, &imports);
        if !module::compressible(raw.as_str()) {
            return false;
        }
        let m = module::build_module_memory(rel.as_str(), content, &self.all_symbols, &imports);
        self.modules.push(m);
        proof {
            if old(self).awaits(rel@, content@) {
                let n = old(self).modules@.len() as int;
                assert forall|k: int| 0 <= k < self.modules@.len() implies text::opt_chars(
                    #[trigger] self.modules@[k].path,
                ) == Some(self.walked()[k]) && self.modules@[k].hash@ == store::content_hash_of(
                    vstd::utf8::encode_utf8(self.contents@[k]),
                ) by {
                    if k < n {
                        assert(self.modules@[k] == old(self).modules@[k]);
                    }
                }
            }
        }
        true
    }

    /// Drops the modules and symbols of files the walk did not see.
    pub fn prune(&mut self)
        ensures
            final(self).modules@ == seen_modules(old(self).modules@, old(self).seen@.map_values(|s: String| s@)),
            final(self).all_symbols@ == seen_symbols(old(self).all_symbols@, old(self).seen@.map_values(|s: String| s@)),
            final(self).seen@ == old(self).seen@,
            final(self).file_imports@ == old(self).file_imports@,
            final(self).existing_symbols@ == old(self).existing_symbols@,
            final(self).existing_modules@ == old(self).existing_modules@,
            final(self).contents@ == old(self).contents@,
            final(self).files_scanned == old(self).files_scanned,
            final(self).stale_rebuilt == old(self).stale_rebuilt,
            old(self).is_complete() ==> final(self).modules@ == old(self).modules@ && final(self).is_complete(),
            old(self).gathers() ==> final(self).all_symbols@ == old(self).all_symbols@ && final(self).gathers(),
            forall|i: int| 0 <= i < final(self).modules@.len() ==> path_seen(#[trigger] final(self).modules@[i], final(self).walked()),
            forall|i: int| 0 <= i < final(self).all_symbols@.len() ==> final(self).walked().contains(#[trigger] final(self).all_symbols@[i].path@),
    {
        proof {
            if old(self).is_complete() {
                lemma_seen_modules_all(old(self).modules@, old(self).walked());
            }
            if old(self).gathers() {
                lemma_seen_symbols_all(old(self).all_symbols@, old(self).walked());
            }
            lemma_prune_keeps_seen_files(old(self).modules@, old(self).all_symbols@, old(self).walked());
        }
        let ghost sv = self.seen@.map_values(|s: String| s@);
        let mut mods: Vec<MemoryObject> = Vec::new();
        std::mem::swap(&mut mods, &mut self.modules);
        let ghost om = mods@;
        let mut kept: Vec<MemoryObject> = Vec::new();
        for m in it: mods
            invariant
                it.seq() == om,
                sv == self.seen@.map_values(|s: String| s@),
                kept@ == seen_modules(om.take(it.index() as int), sv),
        {
            let ghost k = it.index();
            assert(om.take(k + 1).drop_last() =~= om.take(k as int));
            assert(om.take(k + 1).last() == m);
            let keep = match &m.path {
                Some(p) => self.seen_has(p),
                None => false,
            };
            if keep {
                kept.push(m);
            }
        }
        assert(om.take(om.len() as int) =~= om);
        self.modules = kept;

        let mut syms: Vec<Symbol> = Vec::new();
        std::mem::swap(&mut syms, &mut self.all_symbols);
        let ghost os = syms@;
        let mut kept_syms: Vec<Symbol> = Vec::new();
        for s in it: syms
            invariant
                it.seq() == os,
                sv == self.seen@.map_values(|s: String| s@),
                kept_syms@ == seen_symbols(os.take(it.index() as int), sv),
        {
            let ghost k = it.index();
            assert(os.take(k + 1).drop_last() =~= os.take(k as int));
            assert(os.take(k + 1).last() == s);
            if self.seen_has(&s.path) {
                kept_syms.push(s);
            }
        }
        assert(os.take(os.len() as int) =~= os);
        self.all_symbols = kept_syms;
        proof {
            assert forall|i: int| 0 <= i < self.modules@.len() implies path_seen(#[trigger] self.modules@[i], self.walked()) by {
                assert(self.modules@.contains(self.modules@[i]));
            }
            assert forall|i: int| 0 <= i < self.all_symbols@.len() implies self.walked().contains(#[trigger] self.all_symbols@[i].path@) by {
                assert(self.all_symbols@.contains(self.all_symbols@[i]));
            }
        }
    }

    fn seen_has(&self, p: &String) -> (r: bool)
        ensures
            r == self.seen@.map_values(|s: String| s@).contains(p@),
    {
        let ghost sv = self.seen@.map_values(|s: String| s@);
        let mut j: usize = 0;
        while j < self.seen.len()
            invariant
                j <= self.seen@.len(),
                sv == self.seen@.map_values(|s: String| s@),
                forall|k: int| 0 <= k < j ==> sv[k] != p@,
            decreases self.seen@.len() - j,
        {
            if text::str_eq(self.seen[j].as_str(), p.as_str()) {
                assert(sv[j as int] == p@);
                return true;
            }
            j += 1;
        }
        false
    }

    /// Whether the run found neither symbols nor modules.
    pub fn is_empty(&self) -> (r: bool)
        ensures
            r == (self.all_symbols@.len() == 0 && self.modules@.len() == 0),
    {
        self.all_symbols.len() == 0 && self.modules.len() == 0
    }
}

/// `g` is the dependency graph of the symbols and the files' imports.
pub open spec fn is_graph_of(
    g: DependencyGraph,
    syms: Seq<Symbol>,
    files: Seq<(Seq<char>, Seq<Seq<char>>)>,
) -> bool {
    &&& g.node_views() == graph::nodes_for(syms)
    &&& g.edge_views() == graph::import_edges(files) + graph::reference_edges(syms)
}

/// `objs` are the symbol memories of the symbols, in order.
pub open spec fn is_symbol_list(objs: Seq<MemoryObject>, syms: Seq<Symbol>) -> bool {
    &&& objs.len() == syms.len()
    &&& forall|i: int| 0 <= i < objs.len() ==> is_symbol_memory(#[trigger] objs[i], syms[i])
}

/// The symbol memories of the symbols, or `None` when one of their texts cannot be
/// summarised without cutting inside a character.
pub fn symbol_memories(symbols: &Vec<Symbol>) -> (r: Option<Vec<MemoryObject>>)
    ensures
        r is Some <==> symbols_compressible(symbols@),
        r matches Some(objs) ==> is_symbol_list(objs@, symbols@),
{
    let mut out: Vec<MemoryObject> = Vec::new();
    let mut i: usize = 0;
    while i < symbols.len()
        invariant
            i <= symbols@.len(),
            out@.len() == i,
            forall|k: int| 0 <= k < i ==> module::text_compressible(symbol_raw(#[trigger] symbols@[k])),
            forall|k: int| 0 <= k < i ==> is_symbol_memory(#[trigger] out@[k], symbols@[k]),
        decreases symbols@.len() - i,
    {
        let raw = symbol_raw_text(&symbols[i]);
        if !module::compressible(raw.as_str()) {
            return None;
        }
        out.push(symbol_to_memory(&symbols[i]));
        i += 1;
    }
    Some(out)
}

impl IndexRun {
    /// Builds what the run ends with: subsystems, dependency graph, architecture and symbol
    /// memories, the manifest and the report. `None` when one of the texts cannot be
    /// summarised without cutting inside a character. The manifest counts what the report
    /// counts, and after a complete run, such as a walk gives, one module per scanned file.
    pub fn finish(self, repo_root: String, dir_name: Option<String>, indexed_at: String) -> (r: Option<
        IndexOutput,
    >)
        ensures
            ({
                let syms = self.all_symbols@;
                let mods = self.modules@;
                let files = imports_views(self.file_imports@);
                let name = repo_name_of(dir_name);
                match r {
                    Some(out) => {
                        &&& subsystem::subsystems_compressible(syms, mods)
                        &&& symbols_compressible(syms)
                        &&& out.symbols@ == syms
                        &&& out.modules@ == mods
                        &&& subsystem::is_subsystem_list(out.subsystems@, syms, mods)
                        &&& is_graph_of(out.graph, syms, files)
                        &&& module::text_compressible(architecture::architecture_raw(name, syms, out.subsystems@, out.graph))
                        &&& architecture::is_architecture_memory(out.architecture, name, syms, out.subsystems@, out.graph)
                        &&& is_symbol_list(out.symbol_objects@, syms)
                        &&& out.manifest.version@ == "0.2.0"@
                        &&& out.manifest.repo_root == repo_root
                        &&& out.manifest.indexed_at == indexed_at
                        &&& out.manifest.symbol_count == syms.len()
                        &&& out.manifest.module_count == mods.len()
                        &&& out.manifest.subsystem_count == out.subsystems@.len()
                        &&& out.report.files_scanned == self.files_scanned
                        &&& out.report.symbols_indexed == syms.len()
                        &&& out.report.modules_built == mods.len()
                        &&& out.report.subsystems_built == out.subsystems@.len()
                        &&& out.report.stale_rebuilt == self.stale_rebuilt
                        &&& out.manifest.symbol_count == out.report.symbols_indexed
                        &&& out.manifest.module_count == out.report.modules_built
                        &&& out.manifest.subsystem_count == out.report.subsystems_built
                        &&& self.is_complete() ==> out.report.modules_built == out.report.files_scanned
                            && out.report.stale_rebuilt <= out.report.files_scanned
                            && modules_match(out.modules@, self.walked(), self.contents@)
                    },
                    None => {
                        ||| !subsystem::subsystems_compressible(syms, mods)
                        ||| !symbols_compressible(syms)
                        ||| exists|subs: Seq<MemoryObject>, g: DependencyGraph|
                            subsystem::is_subsystem_list(subs, syms, mods) && is_graph_of(g, syms, files)
                                && !module::text_compressible(#[trigger] architecture::architecture_raw(name, syms, subs, g))
                    },
                }
            }),
    {
        let IndexRun { files_scanned, stale_rebuilt, all_symbols, file_imports, modules, .. } = self;
        if !subsystem::subsystems_ready(&all_symbols, &modules) {
            return None;
        }
        let subsystems = subsystem::build_subsystems(&all_symbols, &modules);
        let graph = DependencyGraph::from_symbols(&all_symbols, &file_imports);
        let ghost name = repo_name_of(dir_name);
        let repo_name = match dir_name {
            Some(n) => n,
            None => text::owned("repository"),
        };
        let arch_raw = architecture::architecture_raw_text(repo_name.as_str(), &all_symbols, &subsystems, &graph);
        if !module::compressible(arch_raw.as_str()) {
            assert(repo_name@ == name);
            assert(is_graph_of(graph, all_symbols@, imports_views(file_imports@)));
            assert(subsystem::is_subsystem_list(subsystems@, all_symbols@, modules@));
            assert(!module::text_compressible(architecture::architecture_raw(name, all_symbols@, subsystems@, graph)));
            return None;
        }
        let architecture = architecture::build_architecture(repo_name.as_str(), &all_symbols, &subsystems, &graph);
        let symbol_objects = match symbol_memories(&all_symbols) {
            Some(objs) => objs,
            None => {
                return None;
            },
        };
        let manifest = TroveManifest {
            version: text::owned("0.2.0"),
            repo_root,
            indexed_at,
            symbol_count: all_symbols.len(),
            module_count: modules.len(),
            subsystem_count: subsystems.len(),
        };
        let report = IndexReport {
            files_scanned,
            symbols_indexed: all_symbols.len(),
            modules_built: modules.len(),
            subsystems_built: subsystems.len(),
            stale_rebuilt,
        };
        Some(
            IndexOutput {
                symbols: all_symbols,
                symbol_objects,
                modules,
                subsystems,
                architecture,
                graph,
                manifest,
                report,
            },
        )
    }
}

/// Whether `Path::starts_with` holds of `path` and `base`: `base` is a prefix of `path` by
/// whole components, under the path syntax of the platform the crate is built for.
pub uninterp spec fn path_starts_with(path: Seq<char>, base: Seq<char>) -> bool;

/// Calls `std::path::Path::starts_with`; the result is named by `path_starts_with`.
#[verifier::external_body]
fn path_has_prefix(path: &str, base: &str) -> (r: bool)
    ensures
        r == path_starts_with(path@, base@),
{
    std::path::Path::new(path).starts_with(base)
}

/// Whether the walk skips a file, by its path relative to the repository: files under the
/// store's own directory, `target` and `.git` are not indexed.
pub fn is_skipped(rel: &str) -> (r: bool)
    ensures
        r == (path_starts_with(rel@, store::TROVE_DIR@) || path_starts_with(rel@, "target"@)
            || path_starts_with(rel@, ".git"@)),
{
    path_has_prefix(rel, store::TROVE_DIR) || path_has_prefix(rel, "target") || path_has_prefix(rel, ".git")
}

/// The report of a run that found nothing, from what the manifest of the last run recorded.
pub fn report_from_manifest(manifest: &TroveManifest) -> (r: IndexReport)
    ensures
        r.files_scanned == 0,
        r.symbols_indexed == manifest.symbol_count,
        r.modules_built == manifest.module_count,
        r.subsystems_built == manifest.subsystem_count,
        r.stale_rebuilt == 0,
{
    IndexReport {
        files_scanned: 0,
        symbols_indexed: manifest.symbol_count,
        modules_built: manifest.module_count,
        subsystems_built: manifest.subsystem_count,
        stale_rebuilt: 0,
    }
}


proof fn lemma_module_at_walked(mods: Seq<MemoryObject>, paths: Seq<Seq<char>>, i: int)
    requires
        mods.len() == paths.len(),
        forall|j: int| 0 <= j < mods.len() ==> text::opt_chars(#[trigger] mods[j].path) == Some(paths[j]),
        paths.no_duplicates(),
        0 <= i < mods.len(),
    ensures
        module_at(mods, paths[i]) == Some(mods[i]),
    decreases mods.len(),
{
    let n = mods.len() - 1;
    assert(text::opt_chars(mods[n].path) == Some(paths[n]));
    if i < n {
        let d = mods.drop_last();
        let dp = paths.drop_last();
        assert(paths[n] != paths[i]);
        assert forall|j: int| 0 <= j < d.len() implies text::opt_chars(#[trigger] d[j].path) == Some(dp[j]) by {
            assert(d[j] == mods[j]);
        }
        lemma_module_at_walked(d, dp, i);
        assert(dp[i] == paths[i]);
        assert(d[i] == mods[i]);
    }
}

/// The modules a complete run built over files with distinct paths find each of those files:
/// the stored module of the `i`-th visited file is the one built from it, carrying the hash of
/// what the file held then. A later run that starts from these modules and visits the file
/// with the same content reuses that module, counts nothing as rebuilt and hands back no file
/// to parse.
pub proof fn lemma_unchanged_files_are_reused(first: IndexRun, i: int)
    requires
        first.is_complete(),
        first.walked().no_duplicates(),
        0 <= i < first.files_scanned,
    ensures
        module_at(first.modules@, first.walked()[i]) == Some(first.modules@[i]),
        first.modules@[i].hash@ == store::content_hash_of(vstd::utf8::encode_utf8(first.contents@[i])),
{
    lemma_module_at_walked(first.modules@, first.walked(), i);
}

/// A run that reused every file it visited holds exactly as many symbols as were stored,
/// once it has visited, over distinct paths, every file in which a stored symbol lies.
pub proof fn lemma_reuse_keeps_symbol_count(run: IndexRun)
    requires
        run.gathers(),
        run.walked().no_duplicates(),
        forall|i: int| 0 <= i < run.existing_symbols@.len() ==> run.walked().contains(#[trigger] run.existing_symbols@[i].path@),
    ensures
        run.all_symbols@.len() == run.existing_symbols@.len(),
{
    lemma_reuse_gathers_every_symbol(run.existing_symbols@, run.walked());
}

/// The module lies in a seen file.
pub open spec fn path_seen(m: MemoryObject, seen: Seq<Seq<char>>) -> bool {
    m.path matches Some(p) && seen.contains(p@)
}

/// Pruning drops exactly the modules and symbols of files the walk did not see: every kept
/// module and symbol lies in a seen file, and every module or symbol in a seen file is kept.
pub proof fn lemma_prune_keeps_seen_files(mods: Seq<MemoryObject>, syms: Seq<Symbol>, seen: Seq<Seq<char>>)
    ensures
        forall|m: MemoryObject| #[trigger] seen_modules(mods, seen).contains(m) <==> (mods.contains(m)
            && path_seen(m, seen)),
        forall|s: Symbol| #[trigger] seen_symbols(syms, seen).contains(s) <==> (syms.contains(s)
            && seen.contains(s.path@)),
    decreases mods.len() + syms.len(),
{
    if mods.len() > 0 {
        lemma_prune_keeps_seen_files(mods.drop_last(), syms, seen);
        let prev = seen_modules(mods.drop_last(), seen);
        assert forall|m: MemoryObject| #[trigger] seen_modules(mods, seen).contains(m) <==> (mods.contains(m)
            && path_seen(m, seen)) by {
            let d = mods.drop_last();
            if mods.contains(m) && !d.contains(m) {
                let k = choose|k: int| 0 <= k < mods.len() && mods[k] == m;
                if k < d.len() {
                    assert(d[k] == m);
                }
                assert(m == mods.last());
            }
            if d.contains(m) {
                let k = choose|k: int| 0 <= k < d.len() && d[k] == m;
                assert(mods[k] == m);
            }
            if seen_modules(mods, seen).contains(m) && m != mods.last() {
                let t = seen_modules(mods, seen);
                let k = choose|k: int| 0 <= k < t.len() && t[k] == m;
                if t.len() > prev.len() && k == t.len() - 1 {
                    assert(t[k] == mods.last());
                } else {
                    assert(prev[k] == m);
                }
            }
            if m == mods.last() && path_seen(m, seen) {
                let t = seen_modules(mods, seen);
                assert(t[t.len() - 1] == m);
            }
            if prev.contains(m) {
                let t = seen_modules(mods, seen);
                let k = choose|k: int| 0 <= k < prev.len() && prev[k] == m;
                assert(t[k] == m);
            }
        }
    } else if syms.len() > 0 {
        lemma_prune_keeps_seen_files(mods, syms.drop_last(), seen);
        let prev = seen_symbols(syms.drop_last(), seen);
        assert forall|s: Symbol| #[trigger] seen_symbols(syms, seen).contains(s) <==> (syms.contains(s)
            && seen.contains(s.path@)) by {
            let d = syms.drop_last();
            if syms.contains(s) && !d.contains(s) {
                let k = choose|k: int| 0 <= k < syms.len() && syms[k] == s;
                if k < d.len() {
                    assert(d[k] == s);
                }
                assert(s == syms.last());
            }
            if d.contains(s) {
                let k = choose|k: int| 0 <= k < d.len() && d[k] == s;
                assert(syms[k] == s);
            }
            if seen_symbols(syms, seen).contains(s) && s != syms.last() {
                let t = seen_symbols(syms, seen);
                let k = choose|k: int| 0 <= k < t.len() && t[k] == s;
                if t.len() > prev.len() && k == t.len() - 1 {
                    assert(t[k] == syms.last());
                } else {
                    assert(prev[k] == s);
                }
            }
            if s == syms.last() && seen.contains(s.path@) {
                let t = seen_symbols(syms, seen);
                assert(t[t.len() - 1] == s);
            }
            if prev.contains(s) {
                let t = seen_symbols(syms, seen);
                let k = choose|k: int| 0 <= k < prev.len() && prev[k] == s;
                assert(t[k] == s);
            }
        }
    } else {
        assert forall|m: MemoryObject| !#[trigger] seen_modules(mods, seen).contains(m) by {}
        assert forall|s: Symbol| !#[trigger] seen_symbols(syms, seen).contains(s) by {}
    }
}
} // verus!
