use trove::clock::Timestamp;
use trove::reflection::{MemoryRecord, NewRecord, Provenance, RecordKind};
use trove::store::{
    check_record_id, content_hash, create_outcome, event_id_for, is_json_file, legacy_dir_for,
    migration_report, parse_kind, retry_after, submit_outcome, update_outcome, StoreError,
};
use trove::object::MemoryKind;

fn record(id: &str, revision: u64) -> MemoryRecord {
    MemoryRecord {
        record_id: id.to_string(),
        revision,
        kind: RecordKind::Decision,
        body: "body".to_string(),
        provenance: Provenance::default(),
        created_at: Timestamp { secs: 0, nanos: 0 },
        updated_at: Timestamp { secs: 0, nanos: 0 },
    }
}

#[test]
fn event_ids_derive_from_submission_ids() {
    assert_eq!(event_id_for("s-1"), Ok("evt:s-1".to_string()));
    assert_eq!(
        event_id_for(""),
        Err(StoreError::InvalidInput("submission_id must not be empty".to_string()))
    );
    assert_ne!(event_id_for("a").unwrap(), event_id_for("b").unwrap());
}

#[test]
fn record_ids_must_not_be_empty() {
    assert_eq!(check_record_id("r"), Ok(()));
    assert_eq!(
        check_record_id(""),
        Err(StoreError::InvalidInput("record_id must not be empty".to_string()))
    );
}

#[test]
fn resubmission_returns_the_stored_event() {
    assert_eq!(
        submit_outcome(None).unwrap_err(),
        StoreError::CorruptData("event vanished after insert".to_string())
    );
}

#[test]
fn creating_a_taken_id_fails() {
    let new = NewRecord {
        record_id: "dup".to_string(),
        kind: RecordKind::Observation,
        body: "b".to_string(),
        provenance: Provenance::default(),
    };
    let now = Timestamp { secs: 5, nanos: 1 };
    assert_eq!(create_outcome(new.clone(), now, true).unwrap_err(), StoreError::RecordExists("dup".to_string()));
    let r = create_outcome(new, now, false).unwrap();
    assert_eq!(r.revision, 1);
    assert_eq!(r.created_at, now);
    assert_eq!(r.updated_at, now);
}

#[test]
fn stale_revision_is_a_conflict() {
    match update_outcome("r", 1, 0, Some(record("r", 2))) {
        Err(StoreError::RevisionConflict { record_id, expected, actual }) => {
            assert_eq!(record_id, "r");
            assert_eq!(expected, 1);
            assert_eq!(actual, 2);
        }
        other => panic!("expected RevisionConflict, got {other:?}"),
    }
    assert_eq!(update_outcome("missing", 1, 0, None).unwrap_err(), StoreError::RecordNotFound("missing".to_string()));
    assert_eq!(
        update_outcome("r", 1, 1, None).unwrap_err(),
        StoreError::CorruptData("record vanished after update".to_string())
    );
    assert_eq!(update_outcome("r", 1, 1, Some(record("r", 2))).unwrap().revision, 2);
}

#[test]
fn unknown_kinds_are_corrupt_data() {
    assert_eq!(parse_kind("decision"), Ok(RecordKind::Decision));
    assert_eq!(
        parse_kind("bogus"),
        Err(StoreError::CorruptData("unknown record kind \"bogus\"".to_string()))
    );
    for k in [RecordKind::Observation, RecordKind::Hypothesis, RecordKind::Decision] {
        assert_eq!(RecordKind::from_name(k.as_str()), Some(k));
        assert_eq!(k.as_str().parse::<RecordKind>(), Ok(k));
    }
}

#[test]
fn busy_retries_back_off_then_give_up() {
    assert_eq!(retry_after(true, 0), Some((1, 25)));
    assert_eq!(retry_after(true, 7), Some((8, 200)));
    assert_eq!(retry_after(true, 8), None);
    assert_eq!(retry_after(false, 0), None);
}

#[test]
fn content_hash_is_hex_sha256() {
    assert_eq!(
        content_hash(b"abc"),
        "ba7816bf8f01cfea414140de5dae2223b00361a396177a9cb410ff61f20015ad"
    );
    assert_eq!(content_hash(b"").len(), 64);
}

#[test]
fn legacy_layout_names() {
    assert_eq!(legacy_dir_for(MemoryKind::Patch), "patches");
    assert_eq!(legacy_dir_for(MemoryKind::Symbol), "symbols");
    assert!(is_json_file(Some("json")));
    assert!(!is_json_file(Some("md")));
    assert!(!is_json_file(None));
    let r = migration_report(1, 2, 3, 4, vec!["x".to_string()]);
    assert_eq!((r.kv_entries, r.objects, r.patches, r.execution_events), (1, 2, 3, 4));
    assert_eq!(r.errors, vec!["x".to_string()]);
}
