use trove::graph::DependencyGraph;
use trove::symbol::{Symbol, SymbolKind};

fn sym(id: &str, path: &str, deps: &[&str]) -> Symbol {
    Symbol {
        id: id.to_string(),
        name: id.to_string(),
        kind: SymbolKind::Function,
        path: path.to_string(),
        start_line: 1,
        end_line: 1,
        signature: None,
        owner: None,
        dependencies: deps.iter().map(|d| d.to_string()).collect(),
        references: Vec::new(),
        complexity: 0,
        hash: String::new(),
    }
}

fn sorted(mut v: Vec<String>) -> Vec<String> {
    v.sort();
    v
}

fn sample() -> DependencyGraph {
    let symbols = vec![sym("A", "src/a.rs", &["B"]), sym("B", "src/b.rs", &[]), sym("C", "src/b.rs", &["B"])];
    let imports = vec![("src/a.rs".to_string(), vec!["use crate::b;".to_string()])];
    DependencyGraph::from_symbols(&symbols, &imports)
}

#[test]
fn graph_has_file_and_symbol_nodes() {
    let g = sample();
    let ids: Vec<(&str, &str)> = g.nodes.iter().map(|n| (n.id.as_str(), n.kind.as_str())).collect();
    assert_eq!(ids, vec![("src/a.rs", "file"), ("A", "function"), ("src/b.rs", "file"), ("B", "function"), ("C", "function")]);
    let edges: Vec<(&str, &str, &str)> = g.edges.iter().map(|e| (e.from.as_str(), e.to.as_str(), e.kind.as_str())).collect();
    assert_eq!(edges, vec![("src/a.rs", "crate::b", "import"), ("A", "B", "reference"), ("C", "B", "reference")]);
}

#[test]
fn relative_imports_resolve_against_the_directory() {
    let symbols = vec![sym("X", "web/app.js", &[])];
    let imports = vec![(
        "web/app.js".to_string(),
        vec!["import x from './util';".to_string(), "from . import y".to_string(), "\"lodash\"".to_string()],
    )];
    let g = DependencyGraph::from_symbols(&symbols, &imports);
    let targets: Vec<&str> = g.edges.iter().map(|e| e.to.as_str()).collect();
    assert_eq!(targets, vec!["web/./util", "y", "lodash"]);
}

#[test]
fn neighbors_follow_edges_both_ways() {
    let g = sample();
    let n: Vec<&str> = g.neighbors("B").iter().map(|n| n.id.as_str()).collect();
    assert_eq!(n, vec!["A", "C"]);
    let n: Vec<&str> = g.neighbors("A").iter().map(|n| n.id.as_str()).collect();
    assert_eq!(n, vec!["B"]);
    assert!(g.neighbors("nowhere").is_empty());
}

#[test]
fn expansion_stays_within_depth() {
    let g = sample();
    assert_eq!(sorted(g.expand(&vec!["A".to_string()], 0)), vec!["A"]);
    assert_eq!(sorted(g.expand(&vec!["A".to_string()], 1)), vec!["A", "B"]);
    assert_eq!(sorted(g.expand(&vec!["A".to_string()], 2)), vec!["A", "B", "C"]);
    assert_eq!(sorted(g.expand(&vec!["src/a.rs".to_string()], 3)), vec!["crate::b", "src/a.rs"]);
    assert!(g.expand(&Vec::new(), 5).is_empty());
}

#[test]
fn expansion_names_each_id_once() {
    let g = sample();
    let r = g.expand(&vec!["A".to_string(), "A".to_string(), "B".to_string()], 3);
    let mut d = r.clone();
    d.sort();
    d.dedup();
    assert_eq!(r.len(), d.len());
    assert_eq!(sorted(r), vec!["A", "B", "C"]);
    let one = sorted(g.expand(&vec!["A".to_string()], 1));
    let two = sorted(g.expand(&vec!["A".to_string()], 2));
    assert!(one.iter().all(|x| two.contains(x)));
}

#[test]
fn neighbourhood_is_symmetric() {
    let g = sample();
    let ids: Vec<String> = g.nodes.iter().map(|n| n.id.clone()).collect();
    for a in &ids {
        for b in &ids {
            let a_of_b = g.neighbors(b).iter().any(|n| &n.id == a);
            let b_of_a = g.neighbors(a).iter().any(|n| &n.id == b);
            assert_eq!(a_of_b, b_of_a);
        }
    }
}
