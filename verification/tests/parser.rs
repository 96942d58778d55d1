use trove::parser::{
    estimate_complexity, extract_name, first_line, language_of_extension, map_kind, parse_file,
    parsed_from_captures, Capture, SourceLanguage,
};
use trove::symbol::SymbolKind;

#[test]
fn parses_rust_fn() {
    let src = "pub fn hello() {}\n";
    let parsed = parse_file("lib.rs", "lib.rs", src, "abc").unwrap();
    assert!(!parsed.symbols.is_empty());
    assert_eq!(parsed.symbols[0].kind, SymbolKind::Function);
}

#[test]
fn parsed_rust_symbols_carry_ids_and_imports() {
    let src = "use std::fs;\n\npub struct Point {\n    x: i32,\n}\n\nfn area(p: &Point) -> i32 {\n    if p.x > 0 { p.x } else { 0 }\n}\n";
    let parsed = parse_file("src/geo.rs", "src/geo.rs", src, "h1").unwrap();
    assert_eq!(parsed.imports, vec!["use std::fs;".to_string()]);
    let names: Vec<&str> = parsed.symbols.iter().map(|s| s.name.as_str()).collect();
    // The last word of `pub struct Point {` is the brace, which trimming leaves empty.
    assert_eq!(names, vec!["", "area"]);
    let area = &parsed.symbols[1];
    assert_eq!(area.id, "src/geo.rs:function:area:7");
    assert_eq!(area.start_line, 7);
    assert_eq!(area.end_line, 9);
    assert_eq!(area.signature.as_deref(), Some("fn area(p: &Point) -> i32 {"));
    assert_eq!(area.complexity, 1);
    assert_eq!(area.hash, "h1");
    assert_eq!(parsed.symbols[0].signature.as_deref(), Some("pub struct Point {"));
}

#[test]
fn python_classes_and_functions() {
    let src = "import os\n\nclass Greeter:\n    def hello(self):\n        return 1\n";
    let parsed = parse_file("app/greet.py", "app/greet.py", src, "h").unwrap();
    assert_eq!(parsed.imports, vec!["import os".to_string()]);
    let mut got: Vec<(&str, SymbolKind)> = parsed.symbols.iter().map(|s| (s.name.as_str(), s.kind)).collect();
    got.sort_by(|a, b| a.0.cmp(b.0));
    assert_eq!(got, vec![("Greeter", SymbolKind::Class), ("hello", SymbolKind::Function)]);
}

#[test]
fn unknown_extensions_are_not_parsed() {
    assert!(parse_file("README", "README", "fn x() {}", "h").is_none());
    assert!(parse_file("notes.txt", "notes.txt", "fn x() {}", "h").is_none());
}

#[test]
fn languages_by_extension() {
    assert_eq!(SourceLanguage::detect("a/b.rs"), Some(SourceLanguage::Rust));
    assert_eq!(SourceLanguage::detect("x.tsx"), Some(SourceLanguage::TypeScript));
    assert_eq!(SourceLanguage::detect("x.mjs"), Some(SourceLanguage::JavaScript));
    assert_eq!(SourceLanguage::detect("run.sh"), Some(SourceLanguage::Bash));
    assert_eq!(SourceLanguage::detect("main.go"), Some(SourceLanguage::Go));
    assert_eq!(SourceLanguage::detect("Makefile"), None);
    assert_eq!(SourceLanguage::detect(".rs"), None);
    assert_eq!(language_of_extension(Some("py")), Some(SourceLanguage::Python));
    assert_eq!(language_of_extension(None), None);
    assert_eq!(SourceLanguage::TypeScript.query_source(), SourceLanguage::JavaScript.query_source());
}

#[test]
fn capture_names_map_to_kinds() {
    assert_eq!(map_kind("function"), Some(SymbolKind::Function));
    assert_eq!(map_kind("route"), Some(SymbolKind::Route));
    assert_eq!(map_kind("name"), None);
    assert_eq!(map_kind("import"), None);
}

#[test]
fn names_from_node_text() {
    assert_eq!(extract_name("pub fn hello(a: u32) {}", SymbolKind::Function), "hello");
    assert_eq!(extract_name("async fn go<T>(x: T)", SymbolKind::Method), "go<T>");
    assert_eq!(extract_name("pub struct Foo {\n  a: u8\n}", SymbolKind::Struct), "");
    assert_eq!(extract_name("pub struct Foo;", SymbolKind::Struct), "Foo;");
    assert_eq!(extract_name("class Foo:", SymbolKind::Class), "Foo");
    assert_eq!(extract_name("enum E{", SymbolKind::Enum), "E");
    let long = "x".repeat(70);
    assert_eq!(extract_name(&long, SymbolKind::Command), "x".repeat(60));
    assert_eq!(extract_name("ls -la", SymbolKind::Command), "ls -la");
    assert_eq!(first_line("  a b  \nsecond"), "a b");
}

#[test]
fn complexity_counts_branches_in_the_span() {
    let content = "if a {\n}\nfor x in y {\nwhile z {}\n}";
    assert_eq!(estimate_complexity(content, 1, 2), 1);
    assert_eq!(estimate_complexity(content, 3, 100), 2);
    assert_eq!(estimate_complexity(content, 0, 0), 3);
    let many: Vec<&str> = std::iter::repeat("x").take(25).collect();
    assert_eq!(estimate_complexity(&many.join("\n"), 0, 0), 2);
}

fn cap(name: &str, text: &str, start_row: usize, end_row: usize) -> Capture {
    Capture { name: name.to_string(), text: text.to_string(), start_row, end_row }
}

#[test]
fn symbols_from_captures() {
    let content = "fn a() {}\nuse x;\n";
    let caps = vec![
        cap("function", "fn a() {}", 0, 0),
        cap("name", "a", 0, 0),
        cap("import", "  use x;  ", 1, 1),
        cap("function", "   ", 2, 2),
        cap("trait", "trait T", 1, 1),
    ];
    let parsed = parsed_from_captures("lib.rs", content, "h", &caps);
    assert_eq!(parsed.imports, vec!["use x;".to_string()]);
    assert_eq!(parsed.symbols.len(), 2);
    let a = &parsed.symbols[0];
    assert_eq!(a.id, "lib.rs:function:a:1");
    assert_eq!(a.signature.as_deref(), Some("fn a() {}"));
    assert_eq!((a.start_line, a.end_line, a.complexity), (1, 1, 0));
    let t = &parsed.symbols[1];
    assert_eq!(t.kind, SymbolKind::Trait);
    assert_eq!(t.name, "T");
    assert_eq!(t.signature, None);
    assert_eq!(t.start_line, 2);
}
