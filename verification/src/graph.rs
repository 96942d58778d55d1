//! The dependency graph: files and symbols as nodes, imports and references as edges.
use vstd::prelude::*;
use vstd::hash_set::StringHashSet;
use crate::symbol::Symbol;
use crate::text;

verus! {

/// A node: a file or a symbol.
#[derive(Debug, Clone)]
pub struct GraphNode {
    pub id: String,
    pub path: String,
    pub kind: String,
}

/// A directed edge: an import of a file or a reference of a symbol.
#[derive(Debug, Clone)]
pub struct GraphEdge {
    pub from: String,
    pub to: String,
    pub kind: String,
}

/// The graph as lists of nodes and edges.
#[derive(Debug, Clone)]
pub struct DependencyGraph {
    pub nodes: Vec<GraphNode>,
    pub edges: Vec<GraphEdge>,
}

/// A node's content.
pub struct NodeView {
    pub id: Seq<char>,
    pub path: Seq<char>,
    pub kind: Seq<char>,
}

/// An edge's content.
pub struct EdgeView {
    pub from: Seq<char>,
    pub to: Seq<char>,
    pub kind: Seq<char>,
}

impl View for GraphNode {
    type V = NodeView;

    open spec fn view(&self) -> NodeView {
        NodeView { id: self.id@, path: self.path@, kind: self.kind@ }
    }
}

impl View for GraphEdge {
    type V = EdgeView;

    open spec fn view(&self) -> EdgeView {
        EdgeView { from: self.from@, to: self.to@, kind: self.kind@ }
    }
}

impl DependencyGraph {
    /// The nodes' contents.
    pub open spec fn node_views(self) -> Seq<NodeView> {
        self.nodes@.map_values(|n: GraphNode| n@)
    }

    /// The edges' contents.
    pub open spec fn edge_views(self) -> Seq<EdgeView> {
        self.edges@.map_values(|e: GraphEdge| e@)
    }
}

/// What `Path::parent` gives for a path, as text (`None` for a root or an empty path), under
/// the path syntax of the platform the crate is built for.
pub uninterp spec fn path_parent_of(path: Seq<char>) -> Option<Seq<char>>;

/// Calls `std::path::Path::parent`; the result is named by `path_parent_of`.
#[verifier::external_body]
fn path_parent(path: &str) -> (r: Option<String>)
    ensures
        text::opt_chars(r) == path_parent_of(path@),
{
    match std::path::Path::new(path).parent() {
        Some(p) => Some(p.to_string_lossy().into_owned()),
        None => None,
    }
}

/// The graph target an import statement of `from_file` points at: the last word of the
/// statement without its `use`/`import`/`from` keyword, trailing `;`, quotes and braces;
/// a relative (`.`) or absolute (`/`) target is prefixed with the importing file's directory.
pub open spec fn resolve_import_of(from_file: Seq<char>, import_text: Seq<char>) -> Seq<char> {
    let parent = match path_parent_of(from_file) {
        Some(p) => p,
        None => Seq::empty(),
    };
    let stripped = text::strip_suffix_char(
        text::strip_prefix_all(
            text::strip_prefix_all(text::strip_prefix_all(text::trim(import_text), "use "@), "import "@),
            "from "@,
        ),
        ';',
    );
    let ws = text::words(stripped);
    let last = if ws.len() > 0 {
        ws.last()
    } else {
        import_text
    };
    let cleaned = text::strip_quotes_braces(last);
    if text::starts_with_char(cleaned, '.') || text::starts_with_char(cleaned, '/') {
        parent + "/"@ + cleaned
    } else {
        cleaned
    }
}

fn resolve_import(from_file: &str, import_text: &str) -> (r: String)
    ensures
        r@ == resolve_import_of(from_file@, import_text@),
{
    let parent = match path_parent(from_file) {
        Some(p) => p,
        None => String::new(),
    };
    let t = text::trim_str(import_text);
    let t = text::strip_prefix_all_str(t.as_str(), "use ");
    let t = text::strip_prefix_all_str(t.as_str(), "import ");
    let t = text::strip_prefix_all_str(t.as_str(), "from ");
    let t = text::strip_suffix_char_str(t.as_str(), ';');
    let ws = text::words_of(t.as_str());
    let ghost wv = ws@.map_values(|x: String| x@);
    let cleaned = if ws.len() > 0 {
        assert(wv.last() == ws@[ws@.len() - 1]@);
        text::strip_quotes_braces_str(ws[ws.len() - 1].as_str())
    } else {
        text::strip_quotes_braces_str(import_text)
    };
    if text::str_starts_with_char(cleaned.as_str(), '.') || text::str_starts_with_char(
        cleaned.as_str(),
        '/',
    ) {
        let mut out = parent;
        text::push_str(&mut out, "/");
        text::push_str(&mut out, cleaned.as_str());
        out
    } else {
        cleaned
    }
}

// ---------------------------------------------------------------------------
// Building the graph
// ---------------------------------------------------------------------------

/// Some symbol of `syms` lies in file `p`.
pub open spec fn has_path(syms: Seq<Symbol>, p: Seq<char>) -> bool {
    exists|i: int| 0 <= i < syms.len() && syms[i].path@ == p
}

/// The file node for a path.
pub open spec fn file_node(p: Seq<char>) -> NodeView {
    NodeView { id: p, path: p, kind: "file"@ }
}

/// The node for a symbol.
pub open spec fn symbol_node(s: Symbol) -> NodeView {
    NodeView { id: s.id@, path: s.path@, kind: s.kind.label_text() }
}

/// Nodes for a list of symbols: each file once, before its first symbol, then every symbol.
pub open spec fn nodes_for(syms: Seq<Symbol>) -> Seq<NodeView>
    decreases syms.len(),
{
    if syms.len() == 0 {
        Seq::empty()
    } else {
        let prev = nodes_for(syms.drop_last());
        let s = syms.last();
        let with_file = if has_path(syms.drop_last(), s.path@) {
            prev
        } else {
            prev.push(file_node(s.path@))
        };
        with_file.push(symbol_node(s))
    }
}

/// Import edges of one file, one per import statement.
pub open spec fn import_edges_of(file: Seq<char>, imports: Seq<Seq<char>>) -> Seq<EdgeView>
    decreases imports.len(),
{
    if imports.len() == 0 {
        Seq::empty()
    } else {
        import_edges_of(file, imports.drop_last()).push(
            EdgeView {
                from: file,
                to: resolve_import_of(file, imports.last()),
                kind: "import"@,
            },
        )
    }
}

/// A file's import list as text.
pub open spec fn imports_view(p: (String, Vec<String>)) -> (Seq<char>, Seq<Seq<char>>) {
    (p.0@, p.1@.map_values(|s: String| s@))
}

/// Import edges of all files, file by file.
pub open spec fn import_edges(files: Seq<(Seq<char>, Seq<Seq<char>>)>) -> Seq<EdgeView>
    decreases files.len(),
{
    if files.len() == 0 {
        Seq::empty()
    } else {
        import_edges(files.drop_last()) + import_edges_of(files.last().0, files.last().1)
    }
}

/// Reference edges of one symbol, one per dependency.
pub open spec fn reference_edges_of(id: Seq<char>, deps: Seq<Seq<char>>) -> Seq<EdgeView>
    decreases deps.len(),
{
    if deps.len() == 0 {
        Seq::empty()
    } else {
        reference_edges_of(id, deps.drop_last()).push(
            EdgeView { from: id, to: deps.last(), kind: "reference"@ },
        )
    }
}

/// Reference edges of all symbols, symbol by symbol.
pub open spec fn reference_edges(syms: Seq<Symbol>) -> Seq<EdgeView>
    decreases syms.len(),
{
    if syms.len() == 0 {
        Seq::empty()
    } else {
        reference_edges(syms.drop_last()) + reference_edges_of(
            syms.last().id@,
            syms.last().dependencies@.map_values(|s: String| s@),
        )
    }
}

/// Appends one edge.
fn push_edge(edges: &mut Vec<GraphEdge>, from: String, to: String, kind: &str)
    ensures
        final(edges)@.map_values(|e: GraphEdge| e@) == old(edges)@.map_values(|e: GraphEdge| e@).push(
            EdgeView { from: from@, to: to@, kind: kind@ },
        ),
{
    let ghost pre = edges@.map_values(|e: GraphEdge| e@);
    edges.push(GraphEdge { from, to, kind: text::owned(kind) });
    assert(edges@.map_values(|e: GraphEdge| e@) =~= pre.push(EdgeView { from: from@, to: to@, kind: kind@ }));
}

impl DependencyGraph {
    /// Builds the graph of `symbols`; `file_imports` lists each file with its import statements.
    pub fn from_symbols(symbols: &Vec<Symbol>, file_imports: &Vec<(String, Vec<String>)>) -> (r:
        DependencyGraph)
        ensures
            r.node_views() == nodes_for(symbols@),
            r.edge_views() == import_edges(file_imports@.map_values(|p: (String, Vec<String>)| imports_view(p)))
                + reference_edges(symbols@),
    {
        let mut nodes: Vec<GraphNode> = Vec::new();
        let mut seen = StringHashSet::new();
        let mut i: usize = 0;
        while i < symbols.len()
            invariant
                i <= symbols@.len(),
                nodes@.map_values(|n: GraphNode| n@) == nodes_for(symbols@.take(i as int)),
                forall|p: Seq<char>| seen@.contains(p) <==> has_path(symbols@.take(i as int), p),
            decreases symbols@.len() - i,
        {
            let s = &symbols[i];
            let ghost pre = nodes@.map_values(|n: GraphNode| n@);
            let ghost pre_syms = symbols@.take(i as int);
            assert(symbols@.take(i + 1).drop_last() =~= pre_syms);
            assert(symbols@.take(i + 1).last() == *s);
            if !seen.contains(s.path.as_str()) {
                seen.insert(s.path.clone());
                nodes.push(GraphNode { id: s.path.clone(), path: s.path.clone(), kind: text::owned("file") });
            }
            let ghost mid = nodes@.map_values(|n: GraphNode| n@);
            nodes.push(GraphNode { id: s.id.clone(), path: s.path.clone(), kind: text::owned(s.kind.label()) });
            assert(nodes@.map_values(|n: GraphNode| n@) =~= mid.push(symbol_node(*s)));
            assert forall|p: Seq<char>| seen@.contains(p) <==> has_path(symbols@.take(i + 1), p) by {
                if has_path(symbols@.take(i + 1), p) {
                    let k = choose|k: int| #![trigger symbols@.take(i + 1)[k]] 0 <= k < i + 1 && symbols@.take(i + 1)[k].path@ == p;
                    if k < i {
                        assert(pre_syms[k].path@ == p);
                    }
                }
                if has_path(pre_syms, p) {
                    let k = choose|k: int| #![trigger pre_syms[k]] 0 <= k < i && pre_syms[k].path@ == p;
                    assert(symbols@.take(i + 1)[k].path@ == p);
                }
            }
            i += 1;
        }
        assert(symbols@.take(symbols@.len() as int) =~= symbols@);

        let mut edges: Vec<GraphEdge> = Vec::new();
        let ghost fviews = file_imports@.map_values(|p: (String, Vec<String>)| imports_view(p));
        let mut f: usize = 0;
        while f < file_imports.len()
            invariant
                f <= file_imports@.len(),
                fviews == file_imports@.map_values(|p: (String, Vec<String>)| imports_view(p)),
                edges@.map_values(|e: GraphEdge| e@) == import_edges(fviews.take(f as int)),
            decreases file_imports@.len() - f,
        {
            let file = &file_imports[f].0;
            let imports = &file_imports[f].1;
            let ghost base = edges@.map_values(|e: GraphEdge| e@);
            let ghost iv = imports@.map_values(|s: String| s@);
            let mut j: usize = 0;
            while j < imports.len()
                invariant
                    j <= imports@.len(),
                    iv == imports@.map_values(|s: String| s@),
                    edges@.map_values(|e: GraphEdge| e@) == base + import_edges_of(file@, iv.take(j as int)),
                decreases imports@.len() - j,
            {
                let target = resolve_import(file.as_str(), imports[j].as_str());
                let ghost before = edges@.map_values(|e: GraphEdge| e@);
                push_edge(&mut edges, file.clone(), target, "import");
                assert(iv.take(j + 1).drop_last() =~= iv.take(j as int));
                assert(iv.take(j + 1).last() == imports@[j as int]@);
                assert(edges@.map_values(|e: GraphEdge| e@) =~= base + import_edges_of(file@, iv.take(j + 1)));
                j += 1;
            }
            assert(iv.take(imports@.len() as int) =~= iv);
            assert(fviews.take(f + 1).drop_last() =~= fviews.take(f as int));
            assert(fviews.take(f + 1).last() == imports_view(file_imports@[f as int]));
            f += 1;
        }
        assert(fviews.take(file_imports@.len() as int) =~= fviews);

        let ghost imp = edges@.map_values(|e: GraphEdge| e@);
        let mut i: usize = 0;
        while i < symbols.len()
            invariant
                i <= symbols@.len(),
                edges@.map_values(|e: GraphEdge| e@) == imp + reference_edges(symbols@.take(i as int)),
            decreases symbols@.len() - i,
        {
            let s = &symbols[i];
            let ghost base = edges@.map_values(|e: GraphEdge| e@);
            let ghost dv = s.dependencies@.map_values(|x: String| x@);
            let mut j: usize = 0;
            while j < s.dependencies.len()
                invariant
                    j <= s.dependencies@.len(),
                    dv == s.dependencies@.map_values(|x: String| x@),
                    edges@.map_values(|e: GraphEdge| e@) == base + reference_edges_of(s.id@, dv.take(j as int)),
                decreases s.dependencies@.len() - j,
            {
                push_edge(&mut edges, s.id.clone(), s.dependencies[j].clone(), "reference");
                assert(dv.take(j + 1).drop_last() =~= dv.take(j as int));
                assert(dv.take(j + 1).last() == s.dependencies@[j as int]@);
                assert(edges@.map_values(|e: GraphEdge| e@) =~= base + reference_edges_of(s.id@, dv.take(j + 1)));
                j += 1;
            }
            assert(dv.take(s.dependencies@.len() as int) =~= dv);
            assert(symbols@.take(i + 1).drop_last() =~= symbols@.take(i as int));
            assert(symbols@.take(i + 1).last() == *s);
            assert(edges@.map_values(|e: GraphEdge| e@) =~= imp + reference_edges(symbols@.take(i + 1)));
            i += 1;
        }
        DependencyGraph { nodes, edges }
    }
}


// ---------------------------------------------------------------------------
// Neighbors
// ---------------------------------------------------------------------------

/// `x` is joined to `id` by an edge, in either direction.
pub open spec fn adjacent(edges: Seq<EdgeView>, id: Seq<char>, x: Seq<char>) -> bool {
    exists|k: int|
        #![trigger edges[k]]
        0 <= k < edges.len() && ((edges[k].from == id && edges[k].to == x) || (edges[k].to == id
            && edges[k].from == x))
}

/// The nodes, in order, whose id is adjacent to `id`.
pub open spec fn neighbor_nodes(nodes: Seq<NodeView>, edges: Seq<EdgeView>, id: Seq<char>) -> Seq<
    NodeView,
>
    decreases nodes.len(),
{
    if nodes.len() == 0 {
        Seq::empty()
    } else {
        let prev = neighbor_nodes(nodes.drop_last(), edges, id);
        if adjacent(edges, id, nodes.last().id) {
            prev.push(nodes.last())
        } else {
            prev
        }
    }
}

// ---------------------------------------------------------------------------
// Expansion
// ---------------------------------------------------------------------------

/// The ids one edge away from `f`, edge by edge: the target of an edge leaving `f`, then the
/// source of an edge entering `f`.
pub open spec fn step_cands_of(f: Seq<char>, edges: Seq<EdgeView>) -> Seq<Seq<char>>
    decreases edges.len(),
{
    if edges.len() == 0 {
        Seq::empty()
    } else {
        let prev = step_cands_of(f, edges.drop_last());
        let e = edges.last();
        let a = if e.from == f {
            prev.push(e.to)
        } else {
            prev
        };
        if e.to == f {
            a.push(e.from)
        } else {
            a
        }
    }
}

/// The ids one edge away from a frontier, frontier node by frontier node.
pub open spec fn level_cands(frontier: Seq<Seq<char>>, edges: Seq<EdgeView>) -> Seq<Seq<char>>
    decreases frontier.len(),
{
    if frontier.len() == 0 {
        Seq::empty()
    } else {
        level_cands(frontier.drop_last(), edges) + step_cands_of(frontier.last(), edges)
    }
}

/// Accepts one candidate: an id not yet visited is appended to the visited list and to the
/// new frontier.
pub open spec fn accept_one(state: (Seq<Seq<char>>, Seq<Seq<char>>), c: Seq<char>) -> (
    Seq<Seq<char>>,
    Seq<Seq<char>>,
) {
    if state.0.contains(c) {
        state
    } else {
        (state.0.push(c), state.1.push(c))
    }
}

/// Accepts candidates in order.
pub open spec fn accept_all(state: (Seq<Seq<char>>, Seq<Seq<char>>), cands: Seq<Seq<char>>) -> (
    Seq<Seq<char>>,
    Seq<Seq<char>>,
)
    decreases cands.len(),
{
    if cands.len() == 0 {
        state
    } else {
        accept_one(accept_all(state, cands.drop_last()), cands.last())
    }
}

/// Level-by-level expansion: `k` more levels from `visited` with the given frontier.
pub open spec fn expand_levels(
    edges: Seq<EdgeView>,
    visited: Seq<Seq<char>>,
    frontier: Seq<Seq<char>>,
    k: nat,
) -> Seq<Seq<char>>
    decreases k,
{
    if k == 0 || frontier.len() == 0 {
        visited
    } else {
        let next = accept_all((visited, Seq::empty()), level_cands(frontier, edges));
        expand_levels(edges, next.0, next.1, (k - 1) as nat)
    }
}

/// The ids within `depth` edges of the seeds, in discovery order, each once.
pub open spec fn expand_of(edges: Seq<EdgeView>, seeds: Seq<Seq<char>>, depth: nat) -> Seq<
    Seq<char>,
> {
    let start = accept_all((Seq::empty(), Seq::empty()), seeds);
    expand_levels(edges, start.0, start.1, depth)
}

/// The visited set of the expansion as a lookup table.
pub open spec fn set_matches(set: Set<Seq<char>>, v: Seq<Seq<char>>) -> bool {
    forall|x: Seq<char>| set.contains(x) <==> v.contains(x)
}

/// Views of strings.
pub open spec fn views(v: Seq<String>) -> Seq<Seq<char>> {
    v.map_values(|s: String| s@)
}

/// Considers one candidate id for admission.
fn consider(c: &String, set: &mut StringHashSet, visited: &mut Vec<String>, fresh: &mut Vec<String>)
    requires
        set_matches(old(set)@, views(old(visited)@)),
    ensures
        set_matches(final(set)@, views(final(visited)@)),
        (views(final(visited)@), views(final(fresh)@)) == accept_one(
            (views(old(visited)@), views(old(fresh)@)),
            c@,
        ),
{
    if !set.contains(c.as_str()) {
        let ghost v0 = views(visited@);
        let ghost f0 = views(fresh@);
        set.insert(c.clone());
        visited.push(c.clone());
        fresh.push(c.clone());
        assert(views(visited@) =~= v0.push(c@));
        assert(views(fresh@) =~= f0.push(c@));
        assert forall|x: Seq<char>| set@.contains(x) <==> views(visited@).contains(x) by {
            if views(visited@).contains(x) && x != c@ {
                let k = choose|k: int| 0 <= k < views(visited@).len() && views(visited@)[k] == x;
                assert(k < v0.len());
                assert(v0[k] == x);
            }
            if v0.contains(x) {
                let k = choose|k: int| 0 <= k < v0.len() && v0[k] == x;
                assert(views(visited@)[k] == x);
            }
            if x == c@ {
                assert(views(visited@)[v0.len() as int] == x);
            }
        }
    }
}

impl DependencyGraph {
    pub fn neighbors(&self, node_id: &str) -> (r: Vec<&GraphNode>)
        ensures
            r@.map_values(|n: &GraphNode| n@) == neighbor_nodes(self.node_views(), self.edge_views(), node_id@),
    {
        let ghost ev = self.edge_views();
        let mut ids = StringHashSet::new();
        let mut k: usize = 0;
        while k < self.edges.len()
            invariant
                k <= self.edges@.len(),
                ev == self.edge_views(),
                forall|x: Seq<char>| ids@.contains(x) <==> adjacent(ev.take(k as int), node_id@, x),
            decreases self.edges@.len() - k,
        {
            let e = &self.edges[k];
            let ghost old_ids = ids@;
            if text::str_eq(e.from.as_str(), node_id) {
                ids.insert(e.to.clone());
            }
            if text::str_eq(e.to.as_str(), node_id) {
                ids.insert(e.from.clone());
            }
            assert forall|x: Seq<char>| ids@.contains(x) <==> adjacent(ev.take(k + 1), node_id@, x) by {
                let t = ev.take(k + 1);
                if adjacent(ev.take(k as int), node_id@, x) {
                    let j = choose|j: int| #![trigger ev.take(k as int)[j]] 0 <= j < k && ((ev.take(k as int)[j].from == node_id@ && ev.take(k as int)[j].to == x) || (ev.take(k as int)[j].to == node_id@ && ev.take(k as int)[j].from == x));
                    assert(t[j] == ev.take(k as int)[j]);
                }
                if adjacent(t, node_id@, x) {
                    let j = choose|j: int| #![trigger t[j]] 0 <= j < k + 1 && ((t[j].from == node_id@ && t[j].to == x) || (t[j].to == node_id@ && t[j].from == x));
                    if j < k {
                        assert(ev.take(k as int)[j] == t[j]);
                    } else {
                        assert(t[j] == e@);
                    }
                }
                if ids@.contains(x) && !old_ids.contains(x) {
                    assert(t[k as int] == e@);
                }
            }
            k += 1;
        }
        assert(ev.take(self.edges@.len() as int) =~= ev);
        let ghost nv = self.node_views();
        let mut out: Vec<&GraphNode> = Vec::new();
        let mut i: usize = 0;
        while i < self.nodes.len()
            invariant
                i <= self.nodes@.len(),
                nv == self.node_views(),
                ev == self.edge_views(),
                forall|x: Seq<char>| ids@.contains(x) <==> adjacent(ev, node_id@, x),
                out@.map_values(|n: &GraphNode| n@) == neighbor_nodes(nv.take(i as int), ev, node_id@),
            decreases self.nodes@.len() - i,
        {
            let n = &self.nodes[i];
            let ghost pre = out@.map_values(|n: &GraphNode| n@);
            assert(nv.take(i + 1).drop_last() =~= nv.take(i as int));
            assert(nv.take(i + 1).last() == n@);
            if ids.contains(n.id.as_str()) {
                out.push(n);
                assert(out@.map_values(|n: &GraphNode| n@) =~= pre.push(n@));
            }
            i += 1;
        }
        assert(nv.take(self.nodes@.len() as int) =~= nv);
        out
    }

    pub fn expand(&self, seeds: &Vec<String>, depth: usize) -> (r: Vec<String>)
        ensures
            views(r@) == expand_of(self.edge_views(), views(seeds@), depth as nat),
            views(r@).no_duplicates(),
    {
        proof {
            lemma_expand_distinct(self.edge_views(), views(seeds@), depth as nat);
        }
        let ghost ev = self.edge_views();
        let mut set = StringHashSet::new();
        let mut visited: Vec<String> = Vec::new();
        let mut frontier: Vec<String> = Vec::new();
        let mut s: usize = 0;
        let ghost sv = views(seeds@);
        while s < seeds.len()
            invariant
                s <= seeds@.len(),
                sv == views(seeds@),
                set_matches(set@, views(visited@)),
                (views(visited@), views(frontier@)) == accept_all((Seq::empty(), Seq::empty()), sv.take(s as int)),
            decreases seeds@.len() - s,
        {
            consider(&seeds[s], &mut set, &mut visited, &mut frontier);
            assert(sv.take(s + 1).drop_last() =~= sv.take(s as int));
            assert(sv.take(s + 1).last() == seeds@[s as int]@);
            s += 1;
        }
        assert(sv.take(seeds@.len() as int) =~= sv);
        let mut level: usize = 0;
        while level < depth && frontier.len() > 0
            invariant
                level <= depth,
                ev == self.edge_views(),
                set_matches(set@, views(visited@)),
                expand_of(ev, sv, depth as nat) == expand_levels(ev, views(visited@), views(frontier@), (depth - level) as nat),
            decreases depth - level,
        {
            let ghost v0 = views(visited@);
            let ghost fv = views(frontier@);
            let mut next: Vec<String> = Vec::new();
            let mut fi: usize = 0;
            while fi < frontier.len()
                invariant
                    fi <= frontier@.len(),
                    fv == views(frontier@),
                    ev == self.edge_views(),
                    set_matches(set@, views(visited@)),
                    (views(visited@), views(next@)) == accept_all((v0, Seq::empty()), level_cands(fv.take(fi as int), ev)),
                decreases frontier@.len() - fi,
            {
                let f = &frontier[fi];
                let ghost base = level_cands(fv.take(fi as int), ev);
                let mut ei: usize = 0;
                while ei < self.edges.len()
                    invariant
                        ei <= self.edges@.len(),
                        ev == self.edge_views(),
                        set_matches(set@, views(visited@)),
                        (views(visited@), views(next@)) == accept_all((v0, Seq::empty()), base + step_cands_of(f@, ev.take(ei as int))),
                    decreases self.edges@.len() - ei,
                {
                    let e = &self.edges[ei];
                    let ghost c0 = base + step_cands_of(f@, ev.take(ei as int));
                    assert(ev.take(ei + 1).drop_last() =~= ev.take(ei as int));
                    assert(ev.take(ei + 1).last() == e@);
                    if e.from == *f {
                        consider(&e.to, &mut set, &mut visited, &mut next);
                        assert(c0.push(e.to@).drop_last() =~= c0);
                        assert(c0.push(e.to@).last() == e.to@);
                        assert((views(visited@), views(next@)) == accept_all((v0, Seq::empty()), c0.push(e.to@)));
                    }
                    let ghost c1 = if e.from@ == f@ { c0.push(e.to@) } else { c0 };
                    assert((views(visited@), views(next@)) == accept_all((v0, Seq::empty()), c1));
                    if e.to == *f {
                        consider(&e.from, &mut set, &mut visited, &mut next);
                        assert(c1.push(e.from@).drop_last() =~= c1);
                        assert(c1.push(e.from@).last() == e.from@);
                        assert((views(visited@), views(next@)) == accept_all((v0, Seq::empty()), c1.push(e.from@)));
                    }
                    assert(step_cands_of(f@, ev.take(ei + 1)) == (if e.to@ == f@ { (if e.from@ == f@ { step_cands_of(f@, ev.take(ei as int)).push(e.to@) } else { step_cands_of(f@, ev.take(ei as int)) }).push(e.from@) } else { if e.from@ == f@ { step_cands_of(f@, ev.take(ei as int)).push(e.to@) } else { step_cands_of(f@, ev.take(ei as int)) } }));
                    assert(base + step_cands_of(f@, ev.take(ei + 1)) =~= if e.to@ == f@ { c1.push(e.from@) } else { c1 });
                    ei += 1;
                }
                assert(ev.take(self.edges@.len() as int) =~= ev);
                assert(fv.take(fi + 1).drop_last() =~= fv.take(fi as int));
                assert(fv.take(fi + 1).last() == f@);
                fi += 1;
            }
            assert(fv.take(frontier@.len() as int) =~= fv);
            frontier = next;
            level += 1;
        }
        visited
    }
}

// ---------------------------------------------------------------------------
// The expansion law
// ---------------------------------------------------------------------------

/// `x` and `y` are joined by an edge, in either direction.
pub open spec fn linked(edges: Seq<EdgeView>, x: Seq<char>, y: Seq<char>) -> bool {
    exists|j: int|
        #![trigger edges[j]]
        0 <= j < edges.len() && ((edges[j].from == y && edges[j].to == x) || (edges[j].to == y
            && edges[j].from == x))
}

/// `x` is at most `k` edges, followed in either direction, from one of the seeds.
pub open spec fn within(edges: Seq<EdgeView>, seeds: Seq<Seq<char>>, x: Seq<char>, k: nat) -> bool
    decreases k,
{
    if k == 0 {
        seeds.contains(x)
    } else {
        within(edges, seeds, x, (k - 1) as nat) || exists|y: Seq<char>|
            #[trigger] linked(edges, x, y) && within(edges, seeds, y, (k - 1) as nat)
    }
}

proof fn lemma_step_cands(f: Seq<char>, edges: Seq<EdgeView>, x: Seq<char>)
    ensures
        step_cands_of(f, edges).contains(x) <==> linked(edges, x, f),
    decreases edges.len(),
{
    if edges.len() > 0 {
        let d = edges.drop_last();
        lemma_step_cands(f, d, x);
        let e = edges.last();
        let prev = step_cands_of(f, d);
        let a = if e.from == f { prev.push(e.to) } else { prev };
        let full = step_cands_of(f, edges);
        assert(full == if e.to == f { a.push(e.from) } else { a });
        if full.contains(x) {
            let k = choose|k: int| 0 <= k < full.len() && full[k] == x;
            if k < prev.len() {
                assert(prev[k] == x);
                assert(prev.contains(x));
                let j = choose|j: int| #![trigger d[j]] 0 <= j < d.len() && ((d[j].from == f && d[j].to == x) || (d[j].to == f && d[j].from == x));
                assert(edges[j] == d[j]);
            } else {
                assert(edges[edges.len() - 1] == e);
            }
        }
        if linked(edges, x, f) {
            let j = choose|j: int| #![trigger edges[j]] 0 <= j < edges.len() && ((edges[j].from == f && edges[j].to == x) || (edges[j].to == f && edges[j].from == x));
            if j < d.len() {
                assert(d[j] == edges[j]);
                assert(linked(d, x, f));
                let k = choose|k: int| 0 <= k < prev.len() && prev[k] == x;
                assert(a[k] == x);
                assert(full[k] == x);
            } else {
                if e.from == f && e.to == x {
                    assert(a[prev.len() as int] == x);
                    assert(full[prev.len() as int] == x);
                } else {
                    assert(full[a.len() as int] == x);
                }
            }
        }
    }
}

proof fn lemma_level_cands(frontier: Seq<Seq<char>>, edges: Seq<EdgeView>, x: Seq<char>)
    ensures
        level_cands(frontier, edges).contains(x) <==> exists|i: int|
            0 <= i < frontier.len() && #[trigger] linked(edges, x, frontier[i]),
    decreases frontier.len(),
{
    if frontier.len() > 0 {
        let d = frontier.drop_last();
        lemma_level_cands(d, edges, x);
        let f = frontier.last();
        lemma_step_cands(f, edges, x);
        let a = level_cands(d, edges);
        let b = step_cands_of(f, edges);
        let full = a + b;
        if full.contains(x) {
            let k = choose|k: int| 0 <= k < full.len() && full[k] == x;
            if k < a.len() {
                assert(a[k] == x);
                let i = choose|i: int| 0 <= i < d.len() && #[trigger] linked(edges, x, d[i]);
                assert(frontier[i] == d[i]);
            } else {
                assert(b[k - a.len()] == x);
                assert(frontier[frontier.len() - 1] == f);
            }
        }
        if exists|i: int| 0 <= i < frontier.len() && #[trigger] linked(edges, x, frontier[i]) {
            let i = choose|i: int| 0 <= i < frontier.len() && #[trigger] linked(edges, x, frontier[i]);
            if i < d.len() {
                assert(d[i] == frontier[i]);
                assert(a.contains(x));
                let k = choose|k: int| 0 <= k < a.len() && a[k] == x;
                assert(full[k] == x);
            } else {
                assert(b.contains(x));
                let k = choose|k: int| 0 <= k < b.len() && b[k] == x;
                assert(full[a.len() + k] == x);
            }
        }
    }
}

proof fn lemma_accept_all(state: (Seq<Seq<char>>, Seq<Seq<char>>), cands: Seq<Seq<char>>, x: Seq<char>)
    ensures
        accept_all(state, cands).0.contains(x) <==> state.0.contains(x) || cands.contains(x),
        accept_all(state, cands).1.contains(x) <==> state.1.contains(x) || (cands.contains(x)
            && !state.0.contains(x)),
    decreases cands.len(),
{
    if cands.len() > 0 {
        let d = cands.drop_last();
        let c = cands.last();
        lemma_accept_all(state, d, x);
        let p = accept_all(state, d);
        lemma_accept_all(state, d, c);
        assert(cands.contains(x) <==> d.contains(x) || c == x) by {
            if cands.contains(x) {
                let k = choose|k: int| 0 <= k < cands.len() && cands[k] == x;
                if k < d.len() {
                    assert(d[k] == x);
                }
            }
            if d.contains(x) {
                let k = choose|k: int| 0 <= k < d.len() && d[k] == x;
                assert(cands[k] == x);
            }
            if c == x {
                assert(cands[cands.len() - 1] == x);
            }
        }
        if !p.0.contains(c) {
            assert(p.0.push(c).contains(x) <==> p.0.contains(x) || c == x) by {
                if p.0.push(c).contains(x) {
                    let k = choose|k: int| 0 <= k < p.0.push(c).len() && p.0.push(c)[k] == x;
                    if k < p.0.len() {
                        assert(p.0[k] == x);
                    }
                }
                if p.0.contains(x) {
                    let k = choose|k: int| 0 <= k < p.0.len() && p.0[k] == x;
                    assert(p.0.push(c)[k] == x);
                }
                if c == x {
                    assert(p.0.push(c)[p.0.len() as int] == x);
                }
            }
            assert(p.1.push(c).contains(x) <==> p.1.contains(x) || c == x) by {
                if p.1.push(c).contains(x) {
                    let k = choose|k: int| 0 <= k < p.1.push(c).len() && p.1.push(c)[k] == x;
                    if k < p.1.len() {
                        assert(p.1[k] == x);
                    }
                }
                if p.1.contains(x) {
                    let k = choose|k: int| 0 <= k < p.1.len() && p.1[k] == x;
                    assert(p.1.push(c)[k] == x);
                }
                if c == x {
                    assert(p.1.push(c)[p.1.len() as int] == x);
                }
            }
        }
    }
}

/// Reachability within `k` edges only grows with `k`.
proof fn lemma_within_monotone(edges: Seq<EdgeView>, seeds: Seq<Seq<char>>, x: Seq<char>, k: nat, m: nat)
    requires
        within(edges, seeds, x, k),
        k <= m,
    ensures
        within(edges, seeds, x, m),
    decreases m - k,
{
    if k < m {
        lemma_within_monotone(edges, seeds, x, k, (m - 1) as nat);
    }
}

/// Once one more level adds nothing, no number of further levels adds anything.
proof fn lemma_within_stable(edges: Seq<EdgeView>, seeds: Seq<Seq<char>>, l: nat, m: nat, x: Seq<char>)
    requires
        forall|y: Seq<char>| #[trigger] within(edges, seeds, y, l + 1) ==> within(edges, seeds, y, l),
        within(edges, seeds, x, l + m),
    ensures
        within(edges, seeds, x, l),
    decreases m,
{
    if m > 0 {
        let k = (l + m - 1) as nat;
        if within(edges, seeds, x, k) {
            lemma_within_stable(edges, seeds, l, (m - 1) as nat, x);
        } else {
            let y = choose|y: Seq<char>| #[trigger] linked(edges, x, y) && within(edges, seeds, y, k);
            lemma_within_stable(edges, seeds, l, (m - 1) as nat, y);
            assert(within(edges, seeds, x, l + 1));
        }
    }
}

/// The invariant of level-by-level expansion after `l` levels.
pub open spec fn level_inv(
    edges: Seq<EdgeView>,
    seeds: Seq<Seq<char>>,
    l: nat,
    visited: Seq<Seq<char>>,
    frontier: Seq<Seq<char>>,
) -> bool {
    &&& forall|x: Seq<char>| #[trigger] visited.contains(x) <==> within(edges, seeds, x, l)
    &&& forall|x: Seq<char>| #[trigger] frontier.contains(x) <==> (within(edges, seeds, x, l) && (l
        == 0 || !within(edges, seeds, x, (l - 1) as nat)))
}

proof fn lemma_expand_levels(
    edges: Seq<EdgeView>,
    seeds: Seq<Seq<char>>,
    l: nat,
    visited: Seq<Seq<char>>,
    frontier: Seq<Seq<char>>,
    k: nat,
    x: Seq<char>,
)
    requires
        level_inv(edges, seeds, l, visited, frontier),
    ensures
        expand_levels(edges, visited, frontier, k).contains(x) <==> within(edges, seeds, x, l + k),
    decreases k,
{
    if k == 0 {
    } else if frontier.len() == 0 {
        assert forall|y: Seq<char>| #[trigger] within(edges, seeds, y, l + 1) implies within(edges, seeds, y, l) by {
            if !within(edges, seeds, y, l) {
                let z = choose|z: Seq<char>| #[trigger] linked(edges, y, z) && within(edges, seeds, z, l);
                if l == 0 {
                    assert(frontier.contains(z));
                } else if !within(edges, seeds, z, (l - 1) as nat) {
                    assert(frontier.contains(z));
                } else {
                    assert(within(edges, seeds, y, l));
                }
            }
        }
        if within(edges, seeds, x, l + k) {
            lemma_within_stable(edges, seeds, l, k, x);
        }
        if within(edges, seeds, x, l) {
            lemma_within_monotone(edges, seeds, x, l, l + k);
        }
    } else {
        let cands = level_cands(frontier, edges);
        let next = accept_all((visited, Seq::empty()), cands);
        assert forall|y: Seq<char>| #[trigger] next.0.contains(y) <==> within(edges, seeds, y, l + 1) by {
            lemma_accept_all((visited, Seq::empty()), cands, y);
            lemma_level_cands(frontier, edges, y);
            if within(edges, seeds, y, l + 1) && !within(edges, seeds, y, l) {
                let z = choose|z: Seq<char>| #[trigger] linked(edges, y, z) && within(edges, seeds, z, l);
                if l == 0 || !within(edges, seeds, z, (l - 1) as nat) {
                    assert(frontier.contains(z));
                    let i = choose|i: int| 0 <= i < frontier.len() && frontier[i] == z;
                    assert(linked(edges, y, frontier[i]));
                } else {
                    assert(within(edges, seeds, y, l));
                }
            }
            if cands.contains(y) {
                let i = choose|i: int| 0 <= i < frontier.len() && #[trigger] linked(edges, y, frontier[i]);
                assert(frontier.contains(frontier[i]));
            }
        }
        assert forall|y: Seq<char>| #[trigger] next.1.contains(y) <==> (within(edges, seeds, y, l + 1) && !within(edges, seeds, y, l)) by {
            lemma_accept_all((visited, Seq::empty()), cands, y);
            lemma_level_cands(frontier, edges, y);
            if within(edges, seeds, y, l + 1) && !within(edges, seeds, y, l) {
                let z = choose|z: Seq<char>| #[trigger] linked(edges, y, z) && within(edges, seeds, z, l);
                if l == 0 || !within(edges, seeds, z, (l - 1) as nat) {
                    assert(frontier.contains(z));
                    let i = choose|i: int| 0 <= i < frontier.len() && frontier[i] == z;
                    assert(linked(edges, y, frontier[i]));
                } else {
                    assert(within(edges, seeds, y, l));
                }
            }
            if cands.contains(y) {
                let i = choose|i: int| 0 <= i < frontier.len() && #[trigger] linked(edges, y, frontier[i]);
                assert(frontier.contains(frontier[i]));
            }
        }
        assert(level_inv(edges, seeds, l + 1, next.0, next.1));
        lemma_expand_levels(edges, seeds, l + 1, next.0, next.1, (k - 1) as nat, x);
    }
}

proof fn lemma_neighbor_nodes_contains(nodes: Seq<NodeView>, edges: Seq<EdgeView>, id: Seq<char>, n: NodeView)
    ensures
        neighbor_nodes(nodes, edges, id).contains(n) <==> nodes.contains(n) && adjacent(edges, id, n.id),
    decreases nodes.len(),
{
    if nodes.len() > 0 {
        let d = nodes.drop_last();
        lemma_neighbor_nodes_contains(d, edges, id, n);
        let prev = neighbor_nodes(d, edges, id);
        let cur = neighbor_nodes(nodes, edges, id);
        if nodes.contains(n) && !d.contains(n) {
            let k = choose|k: int| 0 <= k < nodes.len() && nodes[k] == n;
            if k < d.len() {
                assert(d[k] == n);
            }
        }
        if d.contains(n) {
            let k = choose|k: int| 0 <= k < d.len() && d[k] == n;
            assert(nodes[k] == n);
        }
        if cur.contains(n) && cur.len() > prev.len() {
            let k = choose|k: int| 0 <= k < cur.len() && cur[k] == n;
            if k < prev.len() {
                assert(prev[k] == n);
            }
        }
        if prev.contains(n) {
            let k = choose|k: int| 0 <= k < prev.len() && prev[k] == n;
            assert(cur[k] == n);
        }
        if n == nodes.last() && adjacent(edges, id, n.id) {
            assert(cur[cur.len() - 1] == n);
        }
    }
}

/// Neighbourhood is symmetric: node `a` is among the neighbours of node `b` exactly when `b`
/// is among the neighbours of `a`.
pub proof fn lemma_neighbors_symmetric(nodes: Seq<NodeView>, edges: Seq<EdgeView>, a: NodeView, b: NodeView)
    requires
        nodes.contains(a),
        nodes.contains(b),
    ensures
        neighbor_nodes(nodes, edges, b.id).contains(a) <==> neighbor_nodes(nodes, edges, a.id).contains(b),
{
    lemma_neighbor_nodes_contains(nodes, edges, b.id, a);
    lemma_neighbor_nodes_contains(nodes, edges, a.id, b);
    if adjacent(edges, b.id, a.id) {
        let k = choose|k: int| #![trigger edges[k]] 0 <= k < edges.len() && ((edges[k].from == b.id && edges[k].to == a.id) || (edges[k].to == b.id && edges[k].from == a.id));
        assert(adjacent(edges, a.id, b.id));
    }
    if adjacent(edges, a.id, b.id) {
        let k = choose|k: int| #![trigger edges[k]] 0 <= k < edges.len() && ((edges[k].from == a.id && edges[k].to == b.id) || (edges[k].to == a.id && edges[k].from == b.id));
        assert(adjacent(edges, b.id, a.id));
    }
}

proof fn lemma_accept_all_distinct(state: (Seq<Seq<char>>, Seq<Seq<char>>), cands: Seq<Seq<char>>)
    requires
        state.0.no_duplicates(),
    ensures
        accept_all(state, cands).0.no_duplicates(),
    decreases cands.len(),
{
    if cands.len() > 0 {
        lemma_accept_all_distinct(state, cands.drop_last());
        let p = accept_all(state, cands.drop_last());
        let c = cands.last();
        if !p.0.contains(c) {
            let q = p.0.push(c);
            assert forall|i: int, j: int| 0 <= i < q.len() && 0 <= j < q.len() && i != j implies q[i] != q[j] by {
                if i < p.0.len() && j < p.0.len() {
                    assert(q[i] == p.0[i] && q[j] == p.0[j]);
                } else if i < p.0.len() {
                    assert(q[i] == p.0[i]);
                } else if j < p.0.len() {
                    assert(q[j] == p.0[j]);
                }
            }
        }
    }
}

proof fn lemma_expand_levels_distinct(edges: Seq<EdgeView>, visited: Seq<Seq<char>>, frontier: Seq<Seq<char>>, k: nat)
    requires
        visited.no_duplicates(),
    ensures
        expand_levels(edges, visited, frontier, k).no_duplicates(),
    decreases k,
{
    if k > 0 && frontier.len() > 0 {
        let next = accept_all((visited, Seq::empty()), level_cands(frontier, edges));
        lemma_accept_all_distinct((visited, Seq::empty()), level_cands(frontier, edges));
        lemma_expand_levels_distinct(edges, next.0, next.1, (k - 1) as nat);
    }
}

/// No id occurs twice in an expansion.
pub proof fn lemma_expand_distinct(edges: Seq<EdgeView>, seeds: Seq<Seq<char>>, depth: nat)
    ensures
        expand_of(edges, seeds, depth).no_duplicates(),
{
    let start = accept_all((Seq::empty(), Seq::empty()), seeds);
    lemma_accept_all_distinct((Seq::empty(), Seq::empty()), seeds);
    lemma_expand_levels_distinct(edges, start.0, start.1, depth);
}

/// Expansion law: `expand(seeds, depth)` holds exactly the ids at most `depth` edges, in
/// either direction, from a seed, each of them once. Hence every seed is in it, nothing is
/// expanded from no seeds, and one more level only adds ids.
pub proof fn lemma_expand_is_reachability(edges: Seq<EdgeView>, seeds: Seq<Seq<char>>, depth: nat, x: Seq<char>)
    ensures
        expand_of(edges, seeds, depth).contains(x) <==> within(edges, seeds, x, depth),
        expand_of(edges, seeds, depth).no_duplicates(),
        seeds.contains(x) ==> expand_of(edges, seeds, depth).contains(x),
        seeds.len() == 0 ==> expand_of(edges, seeds, depth).len() == 0,
        expand_of(edges, seeds, depth).contains(x) ==> expand_of(edges, seeds, depth + 1).contains(x),
{
    lemma_expand_distinct(edges, seeds, depth);
    lemma_expand_reach(edges, seeds, depth, x);
    lemma_expand_reach(edges, seeds, depth + 1, x);
    if seeds.contains(x) {
        lemma_within_monotone(edges, seeds, x, 0, depth);
    }
    if within(edges, seeds, x, depth) {
        lemma_within_monotone(edges, seeds, x, depth, depth + 1);
    }
    if seeds.len() == 0 && expand_of(edges, seeds, depth).len() > 0 {
        let y = expand_of(edges, seeds, depth)[0];
        assert(expand_of(edges, seeds, depth).contains(y));
        lemma_expand_reach(edges, seeds, depth, y);
        lemma_within_empty(edges, seeds, y, depth);
    }
}

proof fn lemma_within_empty(edges: Seq<EdgeView>, seeds: Seq<Seq<char>>, x: Seq<char>, k: nat)
    requires
        seeds.len() == 0,
    ensures
        !within(edges, seeds, x, k),
    decreases k,
{
    if k > 0 {
        lemma_within_empty(edges, seeds, x, (k - 1) as nat);
        assert forall|y: Seq<char>| !(#[trigger] linked(edges, x, y) && within(edges, seeds, y, (k - 1) as nat)) by {
            lemma_within_empty(edges, seeds, y, (k - 1) as nat);
        }
    }
}

proof fn lemma_expand_reach(edges: Seq<EdgeView>, seeds: Seq<Seq<char>>, depth: nat, x: Seq<char>)
    ensures
        expand_of(edges, seeds, depth).contains(x) <==> within(edges, seeds, x, depth),
{
    let start = accept_all((Seq::empty(), Seq::empty()), seeds);
    assert forall|y: Seq<char>| #[trigger] start.0.contains(y) <==> within(edges, seeds, y, 0) by {
        lemma_accept_all((Seq::empty(), Seq::empty()), seeds, y);
    }
    assert forall|y: Seq<char>| #[trigger] start.1.contains(y) <==> within(edges, seeds, y, 0) by {
        lemma_accept_all((Seq::empty(), Seq::empty()), seeds, y);
    }
    assert(level_inv(edges, seeds, 0, start.0, start.1));
    lemma_expand_levels(edges, seeds, 0, start.0, start.1, depth, x);
}
} // verus!
