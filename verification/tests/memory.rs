use trove::clock::Timestamp;
use trove::execution::{ExecutionEvent, ExecutionMemory};
use trove::freshness::Freshness;
use trove::historical::{admit_slug, entry_slug, historical_object, is_entry_file, repository_index_object};
use trove::object::{MemoryKind, MemoryObject};
use trove::reflect::Reflection;
use trove::semantic::SemanticIndex;
use trove::store::content_hash;

fn at() -> Timestamp {
    Timestamp { secs: 1_700_000_000, nanos: 0 }
}

#[test]
fn execution_memory_keeps_the_newest_five_hundred() {
    let mut m = ExecutionMemory::default();
    for i in 0..505 {
        m.record(ExecutionEvent::Search { query: format!("q{i}"), at: at() });
    }
    assert_eq!(m.events.len(), 500);
    match &m.events[0] {
        ExecutionEvent::Search { query, .. } => assert_eq!(query, "q5"),
        other => panic!("unexpected event {other:?}"),
    }
    match &m.events[499] {
        ExecutionEvent::Search { query, .. } => assert_eq!(query, "q504"),
        other => panic!("unexpected event {other:?}"),
    }
}

#[test]
fn recent_paths_are_newest_first_and_distinct() {
    let mut m = ExecutionMemory::default();
    m.record(ExecutionEvent::OpenedFile { path: "a.rs".into(), at: at() });
    m.record(ExecutionEvent::Command { cmd: "ls".into(), at: at() });
    m.record(ExecutionEvent::ModifiedFile { path: "b.rs".into(), at: at() });
    m.record(ExecutionEvent::OpenedFile { path: "a.rs".into(), at: at() });
    m.record(ExecutionEvent::TestRun { cmd: "t".into(), passed: true, at: at() });
    assert_eq!(m.recent_paths(), vec!["a.rs", "b.rs"]);
    for i in 0..60 {
        m.record(ExecutionEvent::Failure { message: format!("f{i}"), at: at() });
    }
    assert!(m.recent_paths().is_empty());
}

#[test]
fn staleness_follows_the_hash() {
    let f = Freshness::new("h1".to_string());
    assert_eq!(f.confidence, 1000);
    assert!(f.git_commit.is_none());
    let s = f.staleness("h1");
    assert_eq!((s.score, s.reason.as_str()), (0, "hash matches"));
    let s = f.staleness("h2");
    assert_eq!((s.score, s.reason.as_str()), (1000, "content hash changed"));
}

#[test]
fn reflection_collects_keyword_bullets() {
    let r = Reflection::from_session_summary(
        "- Lesson: keep it small\n  - decision: use sqlite  \nnothing here\n- ARCHITECTURE moved\n-\n",
    );
    assert_eq!(r.lessons, vec!["Lesson: keep it small".to_string()]);
    assert_eq!(r.decisions, vec!["decision: use sqlite".to_string()]);
    assert_eq!(r.architecture_changes, vec!["ARCHITECTURE moved".to_string()]);
    assert!(r.mistakes.is_empty());
    assert!(!r.is_empty());
    assert!(Reflection::from_session_summary("just text").is_empty());
}

#[test]
fn reflection_keeps_five_bullets_per_kind() {
    let text: Vec<String> = (0..8).map(|i| format!("- lesson {i}")).collect();
    let r = Reflection::from_session_summary(&text.join("\n"));
    assert_eq!(r.lessons.len(), 5);
    assert_eq!(r.lessons[4], "lesson 4");
}

fn object(id: &str, keywords: &[&str], summary: Option<&str>) -> MemoryObject {
    let mut o = MemoryObject::new(id.to_string(), MemoryKind::Module, "h".to_string());
    o.text.keywords = keywords.iter().map(|k| k.to_string()).collect();
    o.text.summary = summary.map(|s| s.to_string());
    o
}

#[test]
fn semantic_overlap_counts_terms_hit() {
    let objs = vec![
        object("a", &["vendor", "onboarding"], None),
        object("b", &[], Some("Vendor Payment flow and more words here to fill it up well")),
        object("a", &["billing"], None),
    ];
    let idx = SemanticIndex::from_objects(&objs);
    let terms = vec!["vendor".to_string(), "pay".to_string(), "zzz".to_string()];
    assert_eq!(idx.score("b", &terms), (2, 3));
    assert_eq!(idx.score("a", &terms), (0, 3));
    assert_eq!(idx.score("a", &vec!["bill".to_string()]), (1, 1));
    assert_eq!(idx.score("missing", &terms), (0, 3));
    assert_eq!(idx.score("b", &Vec::new()), (0, 0));
}

#[test]
fn historical_entries_become_memory() {
    assert!(is_entry_file(Some("md")));
    assert!(is_entry_file(Some("json")));
    assert!(!is_entry_file(Some("txt")));
    assert!(!is_entry_file(None));
    assert_eq!(entry_slug(Some("use-pgx".to_string())), "use-pgx");
    assert_eq!(entry_slug(None), "entry");
    let mut seen = Vec::new();
    assert!(admit_slug(&mut seen, "a"));
    assert!(!admit_slug(&mut seen, "a"));
    assert!(admit_slug(&mut seen, "b"));
    assert_eq!(seen, vec!["a".to_string(), "b".to_string()]);

    let o = historical_object("use-pgx", "/t/entries/use-pgx.md".to_string(), "Use pgx, not an ORM.".to_string());
    assert_eq!(o.id, "historical:use-pgx");
    assert_eq!(o.kind, MemoryKind::Historical);
    assert_eq!(o.hash, content_hash(b"Use pgx, not an ORM."));
    assert_eq!(o.text.summary.as_deref(), Some("Use pgx, not an ORM."));
    let c = o.confidence.unwrap();
    assert_eq!(c.retrieval_path, vec!["import".to_string(), "use-pgx".to_string()]);

    let r = repository_index_object("- entry one\n".to_string());
    assert_eq!(r.id, "repository:index");
    assert_eq!(r.kind, MemoryKind::Repository);
    assert!(r.confidence.is_none());
}

#[test]
fn reflection_is_empty_without_keyword_lines() {
    assert!(Reflection::from_session_summary("").is_empty());
    assert!(Reflection::from_session_summary("alpha\nbeta\n- \n").is_empty());
    assert!(!Reflection::from_session_summary("alpha\n  MISTAKE made").is_empty());
}
