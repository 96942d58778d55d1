//! Historical memory imported from trove entry files.
use vstd::prelude::*;
use crate::graph;
use crate::memory::Confidence;
use crate::module;
use crate::object::{MemoryKind, MemoryObject};
use crate::store;
use crate::text;

verus! {

/// Whether a file with this extension is an entry: `md` or `json`.
pub fn is_entry_file(ext: Option<&str>) -> (r: bool)
    ensures
        r == (ext matches Some(e) && (e@ == "md"@ || e@ == "json"@)),
{
    match ext {
        Some(e) => text::str_eq(e, "md") || text::str_eq(e, "json"),
        None => false,
    }
}

/// The slug of an entry: its file stem, or `entry`.
pub fn entry_slug(stem: Option<String>) -> (r: String)
    ensures
        r@ == match stem {
            Some(s) => s@,
            None => "entry"@,
        },
{
    match stem {
        Some(s) => s,
        None => text::owned("entry"),
    }
}

/// Notes a slug as imported: `true` the first time, `false` when it was seen before.
pub fn admit_slug(seen: &mut Vec<String>, slug: &str) -> (r: bool)
    ensures
        r == !graph::views(old(seen)@).contains(slug@),
        r ==> graph::views(final(seen)@) == graph::views(old(seen)@).push(slug@),
        !r ==> final(seen)@ == old(seen)@,
{
    let ghost sv = graph::views(seen@);
    let mut j: usize = 0;
    while j < seen.len()
        invariant
            j <= seen@.len(),
            sv == graph::views(seen@),
            forall|k: int| 0 <= k < j ==> sv[k] != slug@,
        decreases seen@.len() - j,
    {
        if text::str_eq(seen[j].as_str(), slug) {
            assert(sv[j as int] == slug@);
            return false;
        }
        j += 1;
    }
    seen.push(text::owned(slug));
    assert(graph::views(seen@) =~= sv.push(slug@));
    true
}

/// The historical memory of an entry.
pub open spec fn is_historical_object(o: MemoryObject, slug: Seq<char>, path: Seq<char>, content: Seq<char>) -> bool {
    &&& o.id@ == "historical:"@ + slug
    &&& o.kind == MemoryKind::Historical
    &&& text::opt_chars(o.path) == Some(path)
    &&& module::compressed_from(o.text, content)
    &&& o.hash@ == store::content_hash_of(vstd::utf8::encode_utf8(content))
    &&& o.dependencies@.len() == 0
    &&& o.symbols@.len() == 0
    &&& o.importance == 500
    &&& o.risk == 0
    &&& (o.confidence matches Some(c) && c.score == 900 && c.reason@
        == "imported from personal trove entries"@ && graph::views(c.retrieval_path@) == seq![
        "import"@,
        slug,
    ])
}

/// The repository memory of a trove index.
pub open spec fn is_repository_index(o: MemoryObject, index: Seq<char>) -> bool {
    &&& o.id@ == "repository:index"@
    &&& o.kind == MemoryKind::Repository
    &&& o.path is None
    &&& module::compressed_from(o.text, index)
    &&& o.hash@ == store::content_hash_of(vstd::utf8::encode_utf8(index))
    &&& o.dependencies@.len() == 0
    &&& o.symbols@.len() == 0
    &&& o.importance == 500
    &&& o.risk == 0
    &&& o.confidence is None
}

/// The historical memory of an entry file.
pub fn historical_object(slug: &str, path: String, content: String) -> (r: MemoryObject)
    requires
        module::text_compressible(content@),
    ensures
        is_historical_object(r, slug@, path@, content@),
{
    let hash = store::text_hash(content.as_str());
    let mut id = text::owned("historical:");
    text::push_str(&mut id, slug);
    let mut obj = MemoryObject::new(id, MemoryKind::Historical, hash);
    obj.path = Some(path);
    obj.text = module::compress_raw(content);
    let mut cpath: Vec<String> = Vec::new();
    cpath.push(text::owned("import"));
    cpath.push(text::owned(slug));
    assert(graph::views(cpath@) =~= seq!["import"@, slug@]);
    obj.confidence = Some(Confidence::high(text::owned("imported from personal trove entries"), cpath));
    obj
}

/// The repository memory of a trove index file.
pub fn repository_index_object(index: String) -> (r: MemoryObject)
    requires
        module::text_compressible(index@),
    ensures
        is_repository_index(r, index@),
{
    let hash = store::text_hash(index.as_str());
    let mut obj = MemoryObject::new(text::owned("repository:index"), MemoryKind::Repository, hash);
    obj.text = module::compress_raw(index);
    obj
}

} // verus!
