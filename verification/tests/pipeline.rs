use trove::budget::ContextBudget;
use trove::compression::CompressionTier;
use trove::graph::DependencyGraph;
use trove::hierarchy::MemoryLevel;
use trove::object::{MemoryKind, MemoryObject};
use trove::pipeline::RetrievalPipeline;
use trove::symbol::{Symbol, SymbolKind};

fn object(id: &str, kind: MemoryKind, summary: &str) -> MemoryObject {
    let mut o = MemoryObject::new(id.to_string(), kind, "h".to_string());
    o.text.raw = Some(summary.to_string());
    o.text.summary = Some(summary.to_string());
    o
}

fn pipeline() -> RetrievalPipeline {
    let symbol = Symbol {
        id: "src/vendor.rs:function:onboard_vendor:1".to_string(),
        name: "onboard_vendor".to_string(),
        kind: SymbolKind::Function,
        path: "src/vendor.rs".to_string(),
        start_line: 1,
        end_line: 3,
        signature: Some("fn onboard_vendor()".to_string()),
        owner: None,
        dependencies: Vec::new(),
        references: Vec::new(),
        complexity: 0,
        hash: "h".to_string(),
    };
    RetrievalPipeline::new(
        DependencyGraph { nodes: Vec::new(), edges: Vec::new() },
        vec![symbol],
        vec![object("architecture:root", MemoryKind::Architecture, "Overview of vendor onboarding")],
        vec![object("subsystem:src", MemoryKind::Subsystem, "src stuff")],
        Vec::new(),
        Vec::new(),
    )
}

#[test]
fn retrieval_goes_top_down_within_budget() {
    let ctx = pipeline().query("modify vendor onboarding", ContextBudget::for_total(10_000));
    let got: Vec<(&str, MemoryLevel, CompressionTier)> =
        ctx.items.iter().map(|i| (i.object_id.as_str(), i.level, i.tier)).collect();
    assert_eq!(
        got,
        vec![
            ("architecture:root", MemoryLevel::L4Architecture, CompressionTier::Summary),
            ("subsystem:src", MemoryLevel::L3Subsystem, CompressionTier::Summary),
            ("src/vendor.rs:function:onboard_vendor:1", MemoryLevel::L1ActiveSymbols, CompressionTier::Summary),
        ]
    );
    assert_eq!(ctx.estimated_tokens, 16);
    let sum: usize = ctx.items.iter().map(|i| ContextBudget::estimate_tokens(&i.content)).sum();
    assert_eq!(sum, ctx.estimated_tokens);
    assert!(!ctx.stopped_early);
    assert_eq!(ctx.items[0].confidence_reason, "indexed");
    assert_eq!(ctx.items[2].confidence_reason, "symbol name/path match");
    assert_eq!(ctx.items[2].retrieval_path, vec!["query", "src/vendor.rs", "onboard_vendor"]);
    assert_eq!(ctx.query, "modify vendor onboarding");
}

#[test]
fn retrieval_stops_early_on_a_small_budget() {
    let ctx = pipeline().query("vendor", ContextBudget::for_total(10));
    assert_eq!(ctx.items.len(), 1);
    assert_eq!(ctx.items[0].tier, CompressionTier::UltraSummary);
    assert_eq!(ctx.estimated_tokens, 8);
    assert!(ctx.stopped_early);
}

#[test]
fn queries_without_matches_retrieve_summaries_only() {
    let ctx = pipeline().query("zz", ContextBudget::for_total(10_000));
    let ids: Vec<&str> = ctx.items.iter().map(|i| i.object_id.as_str()).collect();
    assert_eq!(ids, vec!["architecture:root", "subsystem:src"]);
}

#[test]
fn query_terms_are_lowercased_alphanumeric_runs() {
    let ctx = pipeline().query("VENDOR!!", ContextBudget::for_total(10_000));
    assert!(ctx.items.iter().any(|i| i.object_id == "src/vendor.rs:function:onboard_vendor:1"));
    let ctx = pipeline().query("ve-nd-or", ContextBudget::for_total(10_000));
    assert!(!ctx.items.iter().any(|i| i.level == MemoryLevel::L1ActiveSymbols));
}

#[test]
fn pipelines_accept_ordinary_queries() {
    assert!(pipeline().accepts("modify vendor onboarding"));
    assert!(pipeline().accepts(""));
}

#[test]
fn long_queries_with_few_terms_are_accepted() {
    let mut module = object("module:a", MemoryKind::Module, "a module");
    module.text.keywords = vec!["k".to_string(); 1_000_000];
    let p = RetrievalPipeline::new(
        DependencyGraph { nodes: Vec::new(), edges: Vec::new() },
        Vec::new(),
        Vec::new(),
        Vec::new(),
        vec![module],
        Vec::new(),
    );
    let query = format!("{}vendor", " ".repeat(5_000));
    assert!(p.accepts(&query));
    let many_terms = "vendor ".repeat(2_000);
    assert!(!p.accepts(&many_terms));
}
