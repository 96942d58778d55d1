use trove::architecture::build_architecture;
use trove::graph::DependencyGraph;
use trove::indexer::{report_from_manifest, symbol_to_memory, IndexOptions, IndexRun};
use trove::module::{build_module_memory, package_of};
use trove::object::{MemoryKind, MemoryObject};
use trove::parser::ParsedFile;
use trove::store::{content_hash, TroveManifest};
use trove::subsystem::build_subsystems;
use trove::symbol::{Symbol, SymbolKind};

fn sym(path: &str, name: &str, kind: SymbolKind, line: usize) -> Symbol {
    Symbol {
        id: Symbol::make_id(path, name, kind, line),
        name: name.to_string(),
        kind,
        path: path.to_string(),
        start_line: line,
        end_line: line,
        signature: None,
        owner: None,
        dependencies: Vec::new(),
        references: Vec::new(),
        complexity: 0,
        hash: "h".to_string(),
    }
}

fn module_at(path: &str, hash: &str) -> MemoryObject {
    let mut m = MemoryObject::new(format!("module:{path}"), MemoryKind::Module, hash.to_string());
    m.path = Some(path.to_string());
    m
}

#[test]
fn symbol_ids_join_path_kind_name_line() {
    assert_eq!(Symbol::make_id("src/a.rs", "main", SymbolKind::Function, 12), "src/a.rs:function:main:12");
    assert_eq!(SymbolKind::Interface.label(), "interface");
}

#[test]
fn symbol_kind_labels_are_distinct() {
    let kinds = [
        SymbolKind::Function,
        SymbolKind::Class,
        SymbolKind::Interface,
        SymbolKind::Enum,
        SymbolKind::Method,
        SymbolKind::Struct,
        SymbolKind::Trait,
        SymbolKind::Module,
        SymbolKind::Route,
        SymbolKind::Query,
        SymbolKind::Migration,
        SymbolKind::Model,
        SymbolKind::Command,
        SymbolKind::Test,
        SymbolKind::Variable,
        SymbolKind::Import,
        SymbolKind::Other,
    ];
    let mut labels: Vec<&str> = kinds.iter().map(|k| k.label()).collect();
    assert_eq!(SymbolKind::Migration.label(), "migration");
    assert_eq!(SymbolKind::Other.label(), "other");
    assert!(labels.iter().all(|l| !l.is_empty() && l.chars().all(|c| c.is_ascii_lowercase())));
    labels.sort();
    labels.dedup();
    assert_eq!(labels.len(), kinds.len());
}

#[test]
fn packages_are_top_level_directories() {
    assert_eq!(package_of("src/a/b.rs"), "src");
    assert_eq!(package_of("main.rs"), "main.rs");
    assert_eq!(package_of("/abs"), "");
}

#[test]
fn module_memory_summarises_a_file() {
    let symbols = vec![
        sym("src/a.rs", "main", SymbolKind::Function, 1),
        sym("src/other.rs", "x", SymbolKind::Struct, 1),
    ];
    let imports = vec!["use std::fs;".to_string()];
    let m = build_module_memory("src/a.rs", "fn main() { let x = y.unwrap(); }", &symbols, &imports);
    let raw = "# Module: src/a.rs\n\n## Responsibilities\n- Package area: src\n- 1 function(s)\n\n## Exports\n- main (function)\n\n## Dependencies\n- use std::fs;\n\n## Assumptions\n- Uses infallible unwrap/expect in places\n";
    assert_eq!(m.id, "module:src/a.rs");
    assert_eq!(m.kind, MemoryKind::Module);
    assert_eq!(m.text.raw.as_deref(), Some(raw));
    assert_eq!(m.hash, content_hash("fn main() { let x = y.unwrap(); }".as_bytes()));
    assert_ne!(m.hash, content_hash(raw.as_bytes()));
    assert_eq!(m.symbols, vec!["src/a.rs:function:main:1".to_string()]);
    assert_eq!(m.dependencies, imports);
    assert_eq!(m.importance, 100);
    let c = m.confidence.unwrap();
    assert_eq!(c.score, 900);
    assert_eq!(c.reason, "derived from symbol index");
    assert_eq!(c.retrieval_path, vec!["indexer".to_string(), "src/a.rs".to_string()]);
    assert_eq!(
        m.text.summary.as_deref(),
        Some("- Package area: src - 1 function(s) - main (function) - use std::fs; - Uses infallible unwrap/expect in places")
    );
}

#[test]
fn module_without_symbols_is_supporting() {
    let m = build_module_memory("docs/x.md", "query the db. via http; TODO", &Vec::new(), &Vec::new());
    let raw = "# Module: docs/x.md\n\n## Responsibilities\n- Package area: docs\n- Supporting module\n\n## Exports\n\n## Dependencies\n\n## Assumptions\n- Contains TODO/FIXME markers\n\n## Side effects\n- Database access\n- Network I/O\n";
    assert_eq!(m.text.raw.as_deref(), Some(raw));
    assert_eq!(m.importance, 0);
}

#[test]
fn subsystems_cluster_by_package_in_id_order() {
    let symbols = vec![
        sym("src/a.rs", "main", SymbolKind::Function, 1),
        sym("src/b.rs", "Foo", SymbolKind::Struct, 3),
        sym("lib/c.rs", "f", SymbolKind::Function, 2),
    ];
    let modules = vec![module_at("src/a.rs", "m1"), module_at("lib/c.rs", "m2")];
    let subs = build_subsystems(&symbols, &modules);
    let ids: Vec<&str> = subs.iter().map(|s| s.id.as_str()).collect();
    assert_eq!(ids, vec!["subsystem:lib", "subsystem:src"]);
    let src = &subs[1];
    assert_eq!(
        src.text.raw.as_deref(),
        Some("# Subsystem: src\n\nFiles: 1\nSymbols: 2\n\n## Composition\n- 1 function\n- 1 struct\n\n## Modules\n- src/a.rs")
    );
    assert_eq!(src.path.as_deref(), Some("src"));
    assert_eq!(src.dependencies, vec!["src/a.rs".to_string()]);
    assert_eq!(src.symbols.len(), 2);
    assert_eq!(src.importance, 40);
    assert_eq!(src.confidence.as_ref().unwrap().score, 600);
    assert_eq!(subs[0].importance, 20);
}

#[test]
fn architecture_lists_largest_subsystems_first() {
    let symbols = vec![
        sym("src/a.rs", "main", SymbolKind::Function, 1),
        sym("src/b.rs", "Foo", SymbolKind::Struct, 3),
        sym("lib/c.rs", "f", SymbolKind::Function, 2),
    ];
    let modules = vec![module_at("src/a.rs", "m1"), module_at("lib/c.rs", "m2")];
    let subs = build_subsystems(&symbols, &modules);
    let graph = DependencyGraph::from_symbols(&symbols, &Vec::new());
    assert_eq!(graph.nodes.len(), 6);
    let arch = build_architecture("repo", &symbols, &subs, &graph);
    assert_eq!(arch.id, "architecture:root");
    assert_eq!(arch.dependencies, vec!["subsystem:src".to_string(), "subsystem:lib".to_string()]);
    assert_eq!(arch.importance, 1000);
    let raw = arch.text.raw.unwrap();
    assert!(raw.starts_with("# Architecture: repo\n\n## Overview\nTrove-indexed repository with 3 symbols across 2 subsystems.\nDependency graph: 6 nodes, 0 edges.\n\n## Subsystems\n- src (2 symbols, 1 modules)\n- lib (1 symbols, 1 modules)\n\n## Data flow\n"));
}

#[test]
fn architecture_keeps_twelve_subsystems() {
    let symbols: Vec<Symbol> = (0..15).map(|i| sym(&format!("p{i:02}/x.rs"), "f", SymbolKind::Function, 1)).collect();
    let subs = build_subsystems(&symbols, &Vec::new());
    assert_eq!(subs.len(), 15);
    let arch = build_architecture("r", &symbols, &subs, &DependencyGraph::from_symbols(&symbols, &Vec::new()));
    assert_eq!(arch.dependencies.len(), 12);
    assert_eq!(arch.dependencies[0], "subsystem:p00");
    assert_eq!(arch.dependencies[11], "subsystem:p11");
}

#[test]
fn symbol_memory_risk_grows_with_complexity() {
    let mut s = sym("a.rs", "f", SymbolKind::Function, 1);
    s.complexity = 10;
    let o = symbol_to_memory(&s);
    assert_eq!(o.id, s.id);
    assert_eq!(o.kind, MemoryKind::Symbol);
    assert_eq!(o.risk, 200);
    assert_eq!(o.text.raw.as_deref(), Some("function f"));
    s.complexity = 80;
    s.signature = Some("fn f()".to_string());
    let o = symbol_to_memory(&s);
    assert_eq!(o.risk, 1000);
    assert_eq!(o.text.raw.as_deref(), Some("fn f()"));
}

#[test]
fn unchanged_files_reuse_stored_memory() {
    let content = "fn kept() {}";
    let hash = content_hash(content.as_bytes());
    let existing_symbols = vec![sym("a.rs", "kept", SymbolKind::Function, 1), sym("b.rs", "old", SymbolKind::Function, 1)];
    let existing_modules = vec![module_at("a.rs", &hash), module_at("b.rs", "stale")];
    let mut run = IndexRun::new(IndexOptions::default(), existing_symbols, existing_modules);
    assert_eq!(run.visit("a.rs", content), None);
    assert_eq!(run.all_symbols.len(), 1);
    assert_eq!(run.all_symbols[0].name, "kept");
    assert_eq!(run.modules.len(), 1);
    assert_eq!(run.modules[0].hash, hash);

    let new_hash = run.visit("b.rs", "fn fresh() {}").unwrap();
    assert_eq!(new_hash, content_hash(b"fn fresh() {}"));
    assert_eq!(run.stale_rebuilt, 1);
    let parsed = ParsedFile {
        symbols: vec![sym("b.rs", "fresh", SymbolKind::Function, 1)],
        imports: vec!["use a;".to_string()],
    };
    assert!(run.add_file("b.rs".to_string(), "fn fresh() {}", Some(parsed)));
    assert_eq!(run.modules.len(), 2);
    assert_eq!(run.modules[1].dependencies, vec!["use a;".to_string()]);
    assert_eq!(run.file_imports.len(), 1);

    assert!(run.visit("c.rs", "").is_some());
    assert_eq!(run.stale_rebuilt, 1);
    assert!(run.add_file("c.rs".to_string(), "", None));

    run.prune();
    assert!(!run.is_empty());
    let out = run.finish("/repo".to_string(), Some("repo".to_string()), "now".to_string()).unwrap();
    assert_eq!(out.report.files_scanned, 3);
    assert_eq!(out.report.symbols_indexed, 2);
    assert_eq!(out.report.modules_built, 3);
    assert_eq!(out.report.subsystems_built, 2);
    assert_eq!(out.report.stale_rebuilt, 1);
    assert_eq!(out.manifest.version, "0.2.0");
    assert_eq!(out.manifest.symbol_count, 2);
    assert_eq!(out.symbol_objects.len(), 2);
    assert_eq!(out.architecture.path.as_deref(), Some("repo"));
    assert_eq!(out.graph.edges.len(), 1);
}

#[test]
fn full_runs_ignore_stored_memory() {
    let existing_modules = vec![module_at("a.rs", &content_hash(b"x"))];
    let mut run = IndexRun::new(IndexOptions { incremental: false }, Vec::new(), existing_modules);
    assert!(run.visit("a.rs", "x").is_some());
    assert!(run.is_empty());
    let out = run.finish("/r".to_string(), None, "t".to_string()).unwrap();
    assert_eq!(out.architecture.path.as_deref(), Some("repository"));
}

#[test]
fn empty_runs_report_the_last_manifest() {
    let m = TroveManifest { symbol_count: 7, module_count: 3, subsystem_count: 2, ..TroveManifest::default() };
    let r = report_from_manifest(&m);
    assert_eq!((r.files_scanned, r.symbols_indexed, r.modules_built, r.subsystems_built, r.stale_rebuilt), (0, 7, 3, 2, 0));
    assert_eq!(TroveManifest::default().version, "0.2.0");
}

#[test]
fn modules_whose_summary_would_split_a_character_are_refused() {
    let rel = "é".repeat(200);
    let raw = trove::module::module_raw_text(&rel, "", &Vec::new(), &Vec::new());
    assert!(!trove::module::compressible(&raw));
    let mut run = IndexRun::new(IndexOptions::default(), Vec::new(), Vec::new());
    assert!(run.visit(&rel, "").is_some());
    assert!(!run.add_file(rel, "", None));
    assert!(run.modules.is_empty());
    assert_eq!(run.files_scanned, 1);
}

#[test]
fn runs_whose_overview_would_split_a_character_give_nothing() {
    let path = format!("x{}", "é".repeat(200));
    let mut run = IndexRun::new(IndexOptions { incremental: false }, Vec::new(), Vec::new());
    assert!(run.visit("a.rs", "").is_some());
    let parsed = ParsedFile { symbols: vec![sym(&path, "f", SymbolKind::Function, 1)], imports: Vec::new() };
    assert!(run.add_file("a.rs".to_string(), "", Some(parsed)));
    assert!(run.finish("/r".to_string(), None, "t".to_string()).is_none());
}

#[test]
fn store_build_and_vcs_directories_are_skipped() {
    assert!(trove::indexer::is_skipped(".trove/store.db"));
    assert!(trove::indexer::is_skipped("target/debug/x"));
    assert!(trove::indexer::is_skipped(".git/HEAD"));
    assert!(trove::indexer::is_skipped("target"));
    assert!(!trove::indexer::is_skipped("targets/x.rs"));
    assert!(!trove::indexer::is_skipped("src/target/x.rs"));
    assert!(trove::indexer::is_skipped(".trove"));
    assert!(!trove::indexer::is_skipped(".gitignore"));
    assert!(!trove::indexer::is_skipped(".trove-old/x"));
}

#[test]
fn pruning_drops_files_not_seen() {
    let mut run = IndexRun::new(IndexOptions { incremental: false }, Vec::new(), Vec::new());
    assert!(run.visit("a.rs", "").is_some());
    assert!(run.add_file("a.rs".to_string(), "", None));
    run.modules.push(module_at("gone.rs", "x"));
    run.all_symbols.push(sym("gone.rs", "g", SymbolKind::Function, 1));
    run.all_symbols.push(sym("a.rs", "k", SymbolKind::Function, 1));
    let mut pathless = MemoryObject::new("m".to_string(), MemoryKind::Module, "h".to_string());
    pathless.path = None;
    run.modules.push(pathless);
    run.prune();
    let paths: Vec<&str> = run.modules.iter().map(|m| m.path.as_deref().unwrap()).collect();
    assert_eq!(paths, vec!["a.rs"]);
    let names: Vec<&str> = run.all_symbols.iter().map(|s| s.name.as_str()).collect();
    assert_eq!(names, vec!["k"]);
}

fn first_run(files: &[(&str, &str, Vec<Symbol>)]) -> trove::indexer::IndexOutput {
    let mut run = IndexRun::new(IndexOptions::default(), Vec::new(), Vec::new());
    for (rel, content, symbols) in files {
        let hash = run.visit(rel, content).unwrap();
        assert_eq!(hash, content_hash(content.as_bytes()));
        let parsed = ParsedFile { symbols: symbols.clone(), imports: Vec::new() };
        assert!(run.add_file(rel.to_string(), content, Some(parsed)));
    }
    run.prune();
    run.finish("/repo".to_string(), Some("repo".to_string()), "t1".to_string()).unwrap()
}

#[test]
fn a_second_run_over_unchanged_files_rebuilds_nothing() {
    let files = vec![
        ("src/a.rs", "fn a() {}", vec![sym("src/a.rs", "a", SymbolKind::Function, 1)]),
        ("src/b.rs", "fn b() {}", vec![sym("src/b.rs", "b", SymbolKind::Function, 1)]),
        ("README.md", "# repo", Vec::new()),
    ];
    let out1 = first_run(&files);
    assert_eq!(out1.report.files_scanned, 3);
    assert_eq!(out1.report.modules_built, 3);
    let paths: Vec<&str> = out1.modules.iter().map(|m| m.path.as_deref().unwrap()).collect();
    assert_eq!(paths, vec!["src/a.rs", "src/b.rs", "README.md"]);
    assert_eq!(out1.modules[0].hash, content_hash(b"fn a() {}"));

    let mut run = IndexRun::new(IndexOptions::default(), out1.symbols.clone(), out1.modules.clone());
    for (rel, content, _) in &files {
        assert_eq!(run.visit(rel, content), None);
    }
    run.prune();
    let out2 = run.finish("/repo".to_string(), Some("repo".to_string()), "t2".to_string()).unwrap();
    assert_eq!(out2.report.stale_rebuilt, 0);
    assert_eq!(out2.report.files_scanned, 3);
    assert_eq!(out2.report.modules_built, out1.report.modules_built);
    assert_eq!(out2.report.symbols_indexed, out1.report.symbols_indexed);
}

#[test]
fn a_changed_file_is_rebuilt_on_the_second_run() {
    let files = vec![
        ("src/a.rs", "fn a() {}", vec![sym("src/a.rs", "a", SymbolKind::Function, 1)]),
        ("src/b.rs", "fn b() {}", Vec::new()),
    ];
    let out1 = first_run(&files);
    let mut run = IndexRun::new(IndexOptions::default(), out1.symbols.clone(), out1.modules.clone());
    assert_eq!(run.visit("src/a.rs", "fn a() {}"), None);
    assert_eq!(run.visit("src/b.rs", "fn b() { 1 }"), Some(content_hash(b"fn b() { 1 }")));
    assert_eq!(run.stale_rebuilt, 1);
    assert!(run.add_file("src/b.rs".to_string(), "fn b() { 1 }", None));
    assert_eq!(run.modules.len(), run.files_scanned);
}

fn walked(path: &str, content: &str) -> trove::walk::WalkedFile {
    trove::walk::WalkedFile { path: format!("/repo/{path}"), rel: path.to_string(), content: content.to_string() }
}

#[test]
fn a_walk_builds_one_module_per_kept_file() {
    let files = vec![
        walked("src/lib.rs", "pub fn alpha() {}\npub struct Beta;\n"),
        walked(".git/HEAD", "ref: refs/heads/main"),
        walked("target/debug/out.rs", "fn gone() {}"),
        walked("README.md", "# repo"),
    ];
    let run = IndexRun::walk(IndexOptions { incremental: false }, Vec::new(), Vec::new(), &files).ok().unwrap();
    assert_eq!(run.files_scanned, 2);
    assert_eq!(run.stale_rebuilt, 0);
    let paths: Vec<&str> = run.modules.iter().map(|m| m.path.as_deref().unwrap()).collect();
    assert_eq!(paths, vec!["src/lib.rs", "README.md"]);
    assert!(run.all_symbols.iter().all(|s| s.path == "src/lib.rs"));
    let names: Vec<&str> = run.all_symbols.iter().map(|s| s.name.as_str()).collect();
    assert!(names.contains(&"alpha"));
    assert_eq!(run.modules[0].symbols.len(), run.all_symbols.len());
    let out = run.finish("/repo".to_string(), Some("repo".to_string()), "t".to_string()).unwrap();
    assert_eq!(out.report.modules_built, out.report.files_scanned);
    assert_eq!(out.manifest.module_count, out.report.modules_built);
    assert_eq!(out.manifest.symbol_count, out.report.symbols_indexed);
    assert_eq!(out.manifest.subsystem_count, out.report.subsystems_built);
}

#[test]
fn a_second_walk_over_unchanged_files_reuses_every_module() {
    let files = vec![
        walked("src/lib.rs", "pub fn alpha() {}\npub struct Beta;\n"),
        walked("src/util.rs", "pub fn gamma() {}\n"),
        walked("notes.md", "# notes"),
    ];
    let first = IndexRun::walk(IndexOptions::default(), Vec::new(), Vec::new(), &files).ok().unwrap();
    let out1 = first.finish("/repo".to_string(), None, "t1".to_string()).unwrap();
    let second =
        IndexRun::walk(IndexOptions::default(), out1.symbols.clone(), out1.modules.clone(), &files).ok().unwrap();
    let out2 = second.finish("/repo".to_string(), None, "t2".to_string()).unwrap();
    assert_eq!(out2.report.stale_rebuilt, 0);
    assert_eq!(out2.report.files_scanned, out1.report.files_scanned);
    assert_eq!(out2.report.modules_built, out1.report.modules_built);
    assert_eq!(out2.report.symbols_indexed, out1.report.symbols_indexed);

    let mut changed = files;
    changed[1] = walked("src/util.rs", "pub fn gamma() {}\npub fn delta() {}\n");
    let third = IndexRun::walk(IndexOptions::default(), out1.symbols, out1.modules, &changed).ok().unwrap();
    assert_eq!(third.stale_rebuilt, 1);
    assert_eq!(third.modules.len(), 3);
}

#[test]
fn a_walk_stops_at_a_module_it_cannot_summarise() {
    let rel = "é".repeat(200);
    let files = vec![walked("a.md", "x"), walked(&rel, "")];
    let run = match IndexRun::walk(IndexOptions::default(), Vec::new(), Vec::new(), &files) {
        Ok(_) => panic!("expected the walk to stop"),
        Err(run) => run,
    };
    assert_eq!(run.files_scanned, 2);
    assert_eq!(run.modules.len(), 1);
}
