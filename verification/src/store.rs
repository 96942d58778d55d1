//! The decisions of the durable store: what each request is answered, given what the
//! database held. The database itself is driven by the application around this library.
use vstd::prelude::*;
use crate::clock::Timestamp;
use crate::object::MemoryKind;
use crate::reflection::{MemoryRecord, NewRecord, RecordKind, ReflectionEvent};
use crate::text;

verus! {

/// Name of the directory that holds the store inside a repository.
pub const TROVE_DIR: &'static str = ".trove";

/// Attempts after the first that a busy database is retried.
pub const MAX_BUSY_RETRIES: usize = 8;

/// Errors the store answers with. `Sqlite` and `Json` carry the message of the underlying error.
#[derive(Debug, Clone, PartialEq, Eq)]
pub enum StoreError {
    RevisionConflict { record_id: String, expected: u64, actual: u64 },
    RecordNotFound(String),
    RecordExists(String),
    InvalidInput(String),
    CorruptData(String),
    Sqlite(String),
    Json(String),
}

/// Summary of an index run as persisted.
#[derive(Debug, Clone)]
pub struct TroveManifest {
    pub version: String,
    pub repo_root: String,
    pub indexed_at: String,
    pub symbol_count: usize,
    pub module_count: usize,
    pub subsystem_count: usize,
}

impl Default for TroveManifest {
    fn default() -> (r: Self)
        ensures
            r.version@ == "0.2.0"@,
            r.repo_root@.len() == 0,
            r.indexed_at@.len() == 0,
            r.symbol_count == 0,
            r.module_count == 0,
            r.subsystem_count == 0,
    {
        TroveManifest {
            version: text::owned("0.2.0"),
            repo_root: String::new(),
            indexed_at: String::new(),
            symbol_count: 0,
            module_count: 0,
            subsystem_count: 0,
        }
    }
}

/// Counts from a legacy migration; `errors` lists files that could not be parsed.
#[derive(Debug, Clone, Default)]
pub struct MigrationReport {
    pub objects: usize,
    pub kv_entries: usize,
    pub patches: usize,
    pub execution_events: usize,
    pub errors: Vec<String>,
}

/// The event id a submission is stored under.
pub open spec fn event_id_of(submission_id: Seq<char>) -> Seq<char> {
    "evt:"@ + submission_id
}

/// Validates a submission id and derives the id of the event stored for it.
/// Fails exactly when the submission id is empty.
pub fn event_id_for(submission_id: &str) -> (r: Result<String, StoreError>)
    ensures
        submission_id@.len() == 0 <==> r is Err,
        r matches Ok(id) ==> id@ == event_id_of(submission_id@),
        r matches Err(e) ==> (e matches StoreError::InvalidInput(m) && m@
            == "submission_id must not be empty"@),
{
    if submission_id.is_empty() {
        return Err(StoreError::InvalidInput(text::owned("submission_id must not be empty")));
    }
    let mut id = text::owned("evt:");
    text::push_str(&mut id, submission_id);
    Ok(id)
}

/// Event ids are a function of the submission id alone, so a resubmission addresses the
/// stored event and distinct submissions address distinct events.
pub proof fn lemma_event_id_injective(a: Seq<char>, b: Seq<char>)
    ensures
        event_id_of(a) == event_id_of(b) <==> a == b,
{
    reveal_strlit("evt:");
    if event_id_of(a) == event_id_of(b) {
        assert(a =~= event_id_of(a).skip(4));
        assert(b =~= event_id_of(b).skip(4));
    }
}

/// Fails exactly when a record id is empty.
pub fn check_record_id(record_id: &str) -> (r: Result<(), StoreError>)
    ensures
        record_id@.len() == 0 <==> r is Err,
        r matches Err(e) ==> (e matches StoreError::InvalidInput(m) && m@
            == "record_id must not be empty"@),
{
    if record_id.is_empty() {
        Err(StoreError::InvalidInput(text::owned("record_id must not be empty")))
    } else {
        Ok(())
    }
}

/// The answer to a submission, given the event stored under its submission id after the
/// conditional insert: that event, whatever body the retry carried.
pub fn submit_outcome(stored: Option<ReflectionEvent>) -> (r: Result<ReflectionEvent, StoreError>)
    ensures
        stored matches Some(e) ==> r == Ok::<ReflectionEvent, StoreError>(e),
        stored is None ==> (r matches Err(StoreError::CorruptData(m)) && m@
            == "event vanished after insert"@),
{
    match stored {
        Some(e) => Ok(e),
        None => Err(StoreError::CorruptData(text::owned("event vanished after insert"))),
    }
}

/// The record a successful creation stores: revision 1, created and updated `now`.
pub open spec fn is_created(r: MemoryRecord, rec: NewRecord, now: Timestamp) -> bool {
    &&& r.record_id@ == rec.record_id@
    &&& r.revision == 1
    &&& r.kind == rec.kind
    &&& r.body@ == rec.body@
    &&& r.provenance == rec.provenance
    &&& r.created_at == now
    &&& r.updated_at == now
}

/// The answer to a creation request, given whether the insert hit the uniqueness constraint.
pub fn create_outcome(record: NewRecord, now: Timestamp, id_taken: bool) -> (r: Result<
    MemoryRecord,
    StoreError,
>)
    ensures
        id_taken ==> (r matches Err(StoreError::RecordExists(id)) && id@ == record.record_id@),
        !id_taken ==> (r matches Ok(m) && is_created(m, record, now)),
{
    if id_taken {
        Err(StoreError::RecordExists(record.record_id))
    } else {
        Ok(
            MemoryRecord {
                record_id: record.record_id,
                revision: 1,
                kind: record.kind,
                body: record.body,
                provenance: record.provenance,
                created_at: now,
                updated_at: now,
            },
        )
    }
}

/// The answer to an update guarded by `expected_revision`, given how many rows the guarded
/// update changed and the record as it stands afterwards. Never last-writer-wins: when no
/// row changed, an existing record is a conflict that reports both revisions.
pub fn update_outcome(
    record_id: &str,
    expected_revision: u64,
    changed: usize,
    current: Option<MemoryRecord>,
) -> (r: Result<MemoryRecord, StoreError>)
    ensures
        changed == 1 && current is Some ==> r == Ok::<MemoryRecord, StoreError>(current->0),
        changed == 1 && current is None ==> (r matches Err(StoreError::CorruptData(m)) && m@
            == "record vanished after update"@),
        changed != 1 && current is Some ==> match r {
            Err(StoreError::RevisionConflict { record_id: id, expected: ex, actual: ac }) => id@
                == record_id@ && ex == expected_revision && ac == current->0.revision,
            _ => false,
        },
        changed != 1 && current is None ==> (r matches Err(StoreError::RecordNotFound(id)) && id@
            == record_id@),
{
    if changed == 1 {
        match current {
            Some(rec) => Ok(rec),
            None => Err(StoreError::CorruptData(text::owned("record vanished after update"))),
        }
    } else {
        match current {
            Some(existing) => Err(
                StoreError::RevisionConflict {
                    record_id: text::owned(record_id),
                    expected: expected_revision,
                    actual: existing.revision,
                },
            ),
            None => Err(StoreError::RecordNotFound(text::owned(record_id))),
        }
    }
}

/// What `format!("{:?}", s)` renders for a string slice (quoted, with escapes).
pub uninterp spec fn debug_quoted(s: Seq<char>) -> Seq<char>;

/// Renders a string slice with `Debug` formatting; the result is named by `debug_quoted`.
#[verifier::external_body]
fn debug_str(s: &str) -> (r: String)
    ensures
        r@ == debug_quoted(s@),
{
    format!("{:?}", s)
}

/// Parses a stored record kind; an unknown name means the stored data is corrupt.
pub fn parse_kind(s: &str) -> (r: Result<RecordKind, StoreError>)
    ensures
        RecordKind::named(s@) matches Some(k) ==> r == Ok::<RecordKind, StoreError>(k),
        RecordKind::named(s@) is None ==> (r matches Err(StoreError::CorruptData(m)) && m@
            == "unknown record kind "@ + debug_quoted(s@)),
{
    match RecordKind::from_name(s) {
        Some(k) => Ok(k),
        None => {
            let mut m = text::owned("unknown record kind ");
            let q = debug_str(s);
            text::push_str(&mut m, q.as_str());
            Err(StoreError::CorruptData(m))
        },
    }
}

/// Whether a failed attempt is retried, and if so the attempt count afterwards and the
/// delay before the next attempt in milliseconds (25 ms times the attempt count).
pub fn retry_after(busy: bool, attempts: usize) -> (r: Option<(usize, u64)>)
    ensures
        (busy && attempts < MAX_BUSY_RETRIES) <==> r is Some,
        r matches Some(p) ==> p.0 == attempts + 1 && p.1 == 25 * (attempts + 1),
{
    if busy && attempts < MAX_BUSY_RETRIES {
        let n = attempts + 1;
        Some((n, 25 * (n as u64)))
    } else {
        None
    }
}

/// Name of the legacy directory that held one JSON file per object of a kind.
pub open spec fn legacy_dir_name(kind: MemoryKind) -> Seq<char> {
    match kind {
        MemoryKind::Symbol => "symbols"@,
        MemoryKind::Module => "modules"@,
        MemoryKind::Subsystem => "subsystems"@,
        MemoryKind::Architecture => "architecture"@,
        MemoryKind::Historical => "historical"@,
        MemoryKind::Repository => "repository"@,
        MemoryKind::Working => "working"@,
        MemoryKind::Patch => "patches"@,
        MemoryKind::Execution => "execution"@,
    }
}

pub fn legacy_dir_for(kind: MemoryKind) -> (r: &'static str)
    ensures
        r@ == legacy_dir_name(kind),
{
    match kind {
        MemoryKind::Symbol => "symbols",
        MemoryKind::Module => "modules",
        MemoryKind::Subsystem => "subsystems",
        MemoryKind::Architecture => "architecture",
        MemoryKind::Historical => "historical",
        MemoryKind::Repository => "repository",
        MemoryKind::Working => "working",
        MemoryKind::Patch => "patches",
        MemoryKind::Execution => "execution",
    }
}

/// Whether a legacy file, by its extension, holds JSON.
pub fn is_json_file(extension: Option<&str>) -> (r: bool)
    ensures
        r == (extension matches Some(e) && e@ == "json"@),
{
    match extension {
        Some(e) => text::str_eq(e, "json"),
        None => false,
    }
}

/// The counts of a migration that imported the given numbers of items.
pub fn migration_report(
    kv_entries: usize,
    objects: usize,
    patches: usize,
    execution_events: usize,
    errors: Vec<String>,
) -> (r: MigrationReport)
    ensures
        r.kv_entries == kv_entries,
        r.objects == objects,
        r.patches == patches,
        r.execution_events == execution_events,
        r.errors == errors,
{
    MigrationReport { objects, kv_entries, patches, execution_events, errors }
}

/// The SHA-256 digest of a byte sequence.
pub uninterp spec fn sha256_digest(data: Seq<u8>) -> Seq<u8>;

/// Computes SHA-256 with `sha2::Sha256::digest`; the result is named by `sha256_digest`.
#[verifier::external_body]
fn sha256(data: &[u8]) -> (r: Vec<u8>)
    ensures
        r@ == sha256_digest(data@),
{
    <sha2::Sha256 as sha2::Digest>::digest(data).to_vec()
}

/// Content hash: the lower-case hexadecimal SHA-256 digest.
pub open spec fn content_hash_of(content: Seq<u8>) -> Seq<char> {
    text::hex(sha256_digest(content))
}

pub fn content_hash(content: &[u8]) -> (r: String)
    ensures
        r@ == content_hash_of(content@),
{
    let digest = sha256(content);
    text::hex_string(&digest)
}

/// Content hash of a text: the hash of its UTF-8 bytes.
pub fn text_hash(s: &str) -> (r: String)
    ensures
        r@ == content_hash_of(vstd::utf8::encode_utf8(s@)),
{
    content_hash(s.as_bytes())
}

} // verus!
