use trove::compression::{CompressedText, CompressionTier};

#[test]
fn compression_tier_chain() {
    assert_eq!(CompressionTier::Raw.next(), Some(CompressionTier::Summary));
    assert_eq!(CompressionTier::Embedding.next(), None);
}

#[test]
fn heuristic_compression_populates_tiers() {
    let mut text = CompressedText::from_raw(
        "fn authenticate(user: &User) -> Result<Session> {\n    verify_password(user)\n}".to_string(),
    );
    text.compress_heuristic();
    assert!(text.summary.is_some());
    assert!(text.ultra_summary.is_some());
    assert!(!text.keywords.is_empty());
}

use trove::compression::heuristic_summary;

#[test]
fn summary_is_cut_to_its_byte_budget() {
    let line = "a".repeat(100);
    let raw = format!("{line}\n{line}\n{line}\n{line}\n{line}");
    let s = heuristic_summary(&raw, 400);
    assert_eq!(s.len(), 400);
    assert!(s.ends_with("..."));
    assert!(s.starts_with(&"a".repeat(100)));
}

#[test]
fn summary_skips_comments_and_headings() {
    let raw = "# Title\n// note\n  let x = 1;  \n\nfoo()";
    assert_eq!(heuristic_summary(raw, 400), "let x = 1; foo()");
}

#[test]
fn summary_keeps_at_most_twelve_lines() {
    let raw: Vec<String> = (0..20).map(|i| format!("l{i}")).collect();
    let s = heuristic_summary(&raw.join("\n"), 400);
    assert_eq!(s, "l0 l1 l2 l3 l4 l5 l6 l7 l8 l9 l10 l11");
}

#[test]
fn keywords_rank_by_count_then_word() {
    let mut t = CompressedText::from_raw(
        "alpha beta beta gamma gamma gamma delta epsilon zeta eta".to_string(),
    );
    t.compress_heuristic();
    assert_eq!(t.keywords, vec!["gamma", "beta", "alpha", "delta", "epsilon"]);
}

#[test]
fn keywords_are_lowercased_and_skip_stopwords() {
    let mut t = CompressedText::from_raw("The the THE Widget widget".to_string());
    t.compress_heuristic();
    assert_eq!(t.keywords, vec!["widget"]);
    assert_eq!(t.keywords_line(), "widget");
}

#[test]
fn tiers_fall_back_to_larger_text() {
    let t = CompressedText::from_raw("raw text".to_string());
    assert_eq!(t.at_tier(CompressionTier::Raw), Some("raw text"));
    assert_eq!(t.at_tier(CompressionTier::Summary), Some("raw text"));
    assert_eq!(t.at_tier(CompressionTier::UltraSummary), Some("raw text"));
    assert_eq!(t.at_tier(CompressionTier::Keywords), None);
    assert_eq!(t.at_tier(CompressionTier::Embedding), None);
}

#[test]
fn tier_targets_shrink() {
    assert_eq!(CompressionTier::Raw.target_tokens(), usize::MAX);
    assert_eq!(CompressionTier::Summary.target_tokens(), 400);
    assert_eq!(CompressionTier::UltraSummary.target_tokens(), 100);
    assert_eq!(CompressionTier::Keywords.target_tokens(), 20);
    assert_eq!(CompressionTier::Embedding.target_tokens(), 0);
    let mut t = CompressionTier::Raw;
    let mut steps = 0;
    while let Some(n) = t.next() {
        assert!(n.target_tokens() < t.target_tokens());
        t = n;
        steps += 1;
    }
    assert_eq!(steps, 4);
}

#[test]
fn compressing_keeps_existing_summaries() {
    let mut t = CompressedText::from_raw("line one\nline two".to_string());
    t.summary = Some("given".to_string());
    t.compress_heuristic();
    assert_eq!(t.summary.as_deref(), Some("given"));
    assert_eq!(t.ultra_summary.as_deref(), Some("given"));
}

#[test]
fn heuristic_compression_is_idempotent() {
    let mut text = CompressedText::from_raw("pub fn alpha() {}\npub fn beta() {}\n".repeat(40));
    text.compress_heuristic();
    let (summary, ultra, keywords) = (text.summary.clone(), text.ultra_summary.clone(), text.keywords.clone());
    text.compress_heuristic();
    assert_eq!(text.summary, summary);
    assert_eq!(text.ultra_summary, ultra);
    assert_eq!(text.keywords, keywords);
    let mut empty = CompressedText::from_raw(String::new());
    empty.raw = None;
    empty.compress_heuristic();
    assert!(empty.summary.is_none() && empty.ultra_summary.is_none() && empty.keywords.is_empty());
}
