//! Progressive retrieval: architecture, then subsystems, modules, symbols, graph neighbors
//! and history, each within its share of the context budget.
use vstd::prelude::*;
use crate::budget::{self, ContextBudget};
use crate::compression::{self, CompressionTier};
use crate::graph::{self, DependencyGraph};
use crate::hierarchy::MemoryLevel;
use crate::object::MemoryObject;
use crate::symbol::Symbol;
use crate::text;

verus! {

/// One piece of retrieved context.
#[derive(Debug, Clone)]
pub struct RetrievedItem {
    pub level: MemoryLevel,
    pub object_id: String,
    pub tier: CompressionTier,
    pub content: String,
    pub confidence_reason: String,
    pub retrieval_path: Vec<String>,
}

/// The content of a retrieved item.
pub struct ItemView {
    pub level: MemoryLevel,
    pub object_id: Seq<char>,
    pub tier: CompressionTier,
    pub content: Seq<char>,
    pub reason: Seq<char>,
    pub path: Seq<Seq<char>>,
}

impl View for RetrievedItem {
    type V = ItemView;

    open spec fn view(&self) -> ItemView {
        ItemView {
            level: self.level,
            object_id: self.object_id@,
            tier: self.tier,
            content: self.content@,
            reason: self.confidence_reason@,
            path: graph::views(self.retrieval_path@),
        }
    }
}

/// The context assembled for a query.
#[derive(Debug, Clone)]
pub struct AssembledContext {
    pub query: String,
    pub items: Vec<RetrievedItem>,
    pub estimated_tokens: usize,
    pub budget: ContextBudget,
    pub stopped_early: bool,
}

/// What retrieval reads: the dependency graph, the symbol index and the stored objects of
/// the architecture, subsystem, module and historical levels.
pub struct RetrievalPipeline {
    pub graph: DependencyGraph,
    pub symbols: Vec<Symbol>,
    pub architecture: Vec<MemoryObject>,
    pub subsystems: Vec<MemoryObject>,
    pub modules: Vec<MemoryObject>,
    pub historical: Vec<MemoryObject>,
}

// ---------------------------------------------------------------------------
// Query terms
// ---------------------------------------------------------------------------

/// Scan state for splitting a query at non-alphanumeric characters: the pieces longer than
/// two bytes found so far and the piece being read.
pub open spec fn terms_scan(s: Seq<char>) -> (Seq<Seq<char>>, Seq<char>)
    decreases s.len(),
{
    if s.len() == 0 {
        (Seq::empty(), Seq::empty())
    } else {
        let (done, cur) = terms_scan(s.drop_last());
        if text::unicode_alphanumeric(s.last()) {
            (done, cur.push(s.last()))
        } else {
            (
                if text::byte_len(cur) > 2 {
                    done.push(cur)
                } else {
                    done
                },
                Seq::empty(),
            )
        }
    }
}

/// The terms of a query: its alphanumeric runs longer than two bytes, lower-cased.
pub open spec fn query_terms(q: Seq<char>) -> Seq<Seq<char>> {
    let (done, cur) = terms_scan(q);
    let all = if text::byte_len(cur) > 2 {
        done.push(cur)
    } else {
        done
    };
    all.map_values(|t: Seq<char>| text::unicode_lowercase(t))
}

fn tokenize(query: &str) -> (r: Vec<String>)
    ensures
        graph::views(r@) == query_terms(query@),
{
    let cs = text::chars_of(query);
    let mut raw_terms: Vec<String> = Vec::new();
    let mut start: usize = 0;
    let mut i: usize = 0;
    while i < cs.len()
        invariant
            start <= i <= cs@.len(),
            cs@ == query@,
            terms_scan(cs@.take(i as int)).0 == graph::views(raw_terms@),
            terms_scan(cs@.take(i as int)).1 == cs@.subrange(start as int, i as int),
        decreases cs@.len() - i,
    {
        let ghost pre = graph::views(raw_terms@);
        assert(cs@.take(i + 1).drop_last() =~= cs@.take(i as int));
        assert(cs@.take(i + 1).last() == cs@[i as int]);
        if text::char_is_alphanumeric(cs[i]) {
            assert(cs@.subrange(start as int, i as int).push(cs@[i as int]) =~= cs@.subrange(
                start as int,
                i + 1,
            ));
        } else {
            let piece = text::string_of(&cs, start, i);
            if text::str_byte_len(piece.as_str()) > 2 {
                raw_terms.push(piece);
                assert(graph::views(raw_terms@) =~= pre.push(cs@.subrange(start as int, i as int)));
            }
            start = i + 1;
            assert(cs@.subrange(start as int, i + 1) =~= Seq::<char>::empty());
        }
        i += 1;
    }
    assert(cs@.take(cs@.len() as int) =~= cs@);
    let piece = text::string_of(&cs, start, cs.len());
    if text::str_byte_len(piece.as_str()) > 2 {
        let ghost pre = graph::views(raw_terms@);
        raw_terms.push(piece);
        assert(graph::views(raw_terms@) =~= pre.push(cs@.subrange(start as int, cs@.len() as int)));
    }
    let ghost all = graph::views(raw_terms@);
    let mut out: Vec<String> = Vec::new();
    let mut k: usize = 0;
    while k < raw_terms.len()
        invariant
            k <= raw_terms@.len(),
            all == graph::views(raw_terms@),
            graph::views(out@) == all.take(k as int).map_values(|t: Seq<char>| text::unicode_lowercase(t)),
        decreases raw_terms@.len() - k,
    {
        let ghost pre = graph::views(out@);
        let low = text::to_lowercase(raw_terms[k].as_str());
        out.push(low);
        assert(all[k as int] == raw_terms@[k as int]@);
        assert(graph::views(out@) =~= pre.push(low@));
        assert(all.take(k + 1).map_values(|t: Seq<char>| text::unicode_lowercase(t)) =~= all.take(k as int).map_values(|t: Seq<char>| text::unicode_lowercase(t)).push(text::unicode_lowercase(all[k as int])));
        assert(graph::views(out@) =~= all.take(k + 1).map_values(|t: Seq<char>| text::unicode_lowercase(t)));
        k += 1;
    }
    assert(all.take(raw_terms@.len() as int) =~= all);
    out
}

// ---------------------------------------------------------------------------
// Scoring
// ---------------------------------------------------------------------------

/// The text of an optional string, empty when absent.
pub open spec fn or_empty(o: Option<String>) -> Seq<char> {
    match o {
        Some(s) => s@,
        None => Seq::empty(),
    }
}

/// 3 when the lower-cased haystack contains the term.
pub open spec fn hay_hit(h: Seq<char>, t: Seq<char>) -> int {
    if text::contains(text::unicode_lowercase(h), t) {
        3
    } else {
        0
    }
}

/// 2 for each keyword that contains the term.
pub open spec fn keyword_hits(kws: Seq<Seq<char>>, t: Seq<char>) -> int
    decreases kws.len(),
{
    if kws.len() == 0 {
        0
    } else {
        keyword_hits(kws.drop_last(), t) + if text::contains(kws.last(), t) {
            2int
        } else {
            0
        }
    }
}

/// What one term adds to an object's score: 3 for each of id, path, summary and raw text
/// that contains it (lower-cased), 2 for each keyword that contains it.
pub open spec fn term_score(obj: MemoryObject, t: Seq<char>) -> int {
    hay_hit(obj.id@, t) + hay_hit(or_empty(obj.path), t) + hay_hit(or_empty(obj.text.summary), t)
        + hay_hit(or_empty(obj.text.raw), t) + keyword_hits(obj.text.keyword_views(), t)
}

/// An object's relevance to the query terms.
pub open spec fn score_of(obj: MemoryObject, terms: Seq<Seq<char>>) -> int
    decreases terms.len(),
{
    if terms.len() == 0 {
        0
    } else {
        score_of(obj, terms.drop_last()) + term_score(obj, terms.last())
    }
}

proof fn lemma_keyword_hits_bound(kws: Seq<Seq<char>>, t: Seq<char>)
    ensures
        0 <= keyword_hits(kws, t) <= 2 * kws.len(),
    decreases kws.len(),
{
    if kws.len() > 0 {
        lemma_keyword_hits_bound(kws.drop_last(), t);
    }
}

proof fn lemma_score_bound(obj: MemoryObject, terms: Seq<Seq<char>>)
    ensures
        0 <= score_of(obj, terms) <= terms.len() * (12 + 2 * obj.text.keywords@.len()),
    decreases terms.len(),
{
    if terms.len() > 0 {
        lemma_score_bound(obj, terms.drop_last());
        lemma_keyword_hits_bound(obj.text.keyword_views(), terms.last());
        let n = terms.len();
        let w = 12 + 2 * obj.text.keywords@.len();
        assert((n - 1) * w + w == n * w) by (nonlinear_arith);
    }
}

fn opt_text<'a>(o: &'a Option<String>) -> (r: &'a str)
    ensures
        r@ == or_empty(*o),
{
    match o {
        Some(s) => {
            let r = s.as_str();
            assert(r@ == s@);
            r
        },
        None => {
            let r = "";
            proof {
                reveal_strlit("");
            }
            assert(r@ =~= Seq::<char>::empty());
            r
        },
    }
}

fn hay_score(h: &str, t: &str) -> (r: i32)
    ensures
        r == hay_hit(h@, t@),
{
    let lower = text::to_lowercase(h);
    if text::str_contains(lower.as_str(), t) {
        3
    } else {
        0
    }
}

fn score_object(obj: &MemoryObject, terms: &Vec<String>) -> (r: i32)
    requires
        terms@.len() * (12 + 2 * obj.text.keywords@.len()) <= i32::MAX,
    ensures
        r == score_of(*obj, graph::views(terms@)),
{
    let ghost tv = graph::views(terms@);
    let mut score: i32 = 0;
    let mut i: usize = 0;
    while i < terms.len()
        invariant
            i <= terms@.len(),
            tv == graph::views(terms@),
            terms@.len() * (12 + 2 * obj.text.keywords@.len()) <= i32::MAX,
            score == score_of(*obj, tv.take(i as int)),
        decreases terms@.len() - i,
    {
        let t = terms[i].as_str();
        proof {
            assert(tv.take(i + 1).drop_last() =~= tv.take(i as int));
            assert(tv.take(i + 1).last() == t@);
            lemma_score_bound(*obj, tv.take(i + 1));
            let w = 12 + 2 * obj.text.keywords@.len();
            assert((i + 1) * w <= terms@.len() * w) by (nonlinear_arith)
                requires
                    i + 1 <= terms@.len(),
                    w >= 0,
            ;
            assert(1 * w <= terms@.len() * w) by (nonlinear_arith)
                requires
                    1 <= terms@.len(),
                    w >= 0,
            ;
        }
        let ghost before = score;
        let h1 = hay_score(obj.id.as_str(), t);
        let h2 = hay_score(opt_text(&obj.path), t);
        let h3 = hay_score(opt_text(&obj.text.summary), t);
        let h4 = hay_score(opt_text(&obj.text.raw), t);
        let kws = &obj.text.keywords;
        let ghost kv = obj.text.keyword_views();
        let mut kw_score: i32 = 0;
        let mut k: usize = 0;
        while k < kws.len()
            invariant
                k <= kws@.len(),
                kv == obj.text.keyword_views(),
                kws@ == obj.text.keywords@,
                kw_score == keyword_hits(kv.take(k as int), t@),
                kw_score <= 2 * k,
                kws@.len() * 2 <= i32::MAX,
            decreases kws@.len() - k,
        {
            assert(kv.take(k + 1).drop_last() =~= kv.take(k as int));
            assert(kv.take(k + 1).last() == kws@[k as int]@);
            if text::str_contains(kws[k].as_str(), t) {
                kw_score = kw_score + 2;
            }
            k += 1;
        }
        assert(kv.take(kws@.len() as int) =~= kv);
        proof {
            lemma_keyword_hits_bound(kv, t@);
            assert(score + h1 + h2 + h3 + h4 + kw_score == score_of(*obj, tv.take(i + 1)));
        }
        score = score + h1 + h2 + h3 + h4 + kw_score;
        i += 1;
    }
    assert(tv.take(terms@.len() as int) =~= tv);
    score
}

/// The number of terms the lower-cased text contains.
pub open spec fn text_hits(lower: Seq<char>, terms: Seq<Seq<char>>) -> nat
    decreases terms.len(),
{
    if terms.len() == 0 {
        0
    } else {
        text_hits(lower, terms.drop_last()) + if text::contains(lower, terms.last()) {
            1nat
        } else {
            0
        }
    }
}

proof fn lemma_text_hits_bound(lower: Seq<char>, terms: Seq<Seq<char>>)
    ensures
        text_hits(lower, terms) <= terms.len(),
    decreases terms.len(),
{
    if terms.len() > 0 {
        lemma_text_hits_bound(lower, terms.drop_last());
    }
}

fn score_text(text: &str, terms: &Vec<String>) -> (r: i32)
    requires
        terms@.len() <= i32::MAX,
    ensures
        r == text_hits(text::unicode_lowercase(text@), graph::views(terms@)),
{
    let lower = text::to_lowercase(text);
    let ghost tv = graph::views(terms@);
    let mut n: i32 = 0;
    let mut i: usize = 0;
    while i < terms.len()
        invariant
            i <= terms@.len() <= i32::MAX,
            tv == graph::views(terms@),
            n == text_hits(lower@, tv.take(i as int)),
        decreases terms@.len() - i,
    {
        assert(tv.take(i + 1).drop_last() =~= tv.take(i as int));
        assert(tv.take(i + 1).last() == terms@[i as int]@);
        proof {
            lemma_text_hits_bound(lower@, tv.take(i as int));
        }
        if text::str_contains(lower.as_str(), terms[i].as_str()) {
            n = n + 1;
        }
        i += 1;
    }
    assert(tv.take(terms@.len() as int) =~= tv);
    n
}

// ---------------------------------------------------------------------------
// Items from objects
// ---------------------------------------------------------------------------

/// The confidence reason of an object, `indexed` when it has no confidence.
pub open spec fn reason_of(obj: MemoryObject) -> Seq<char> {
    match obj.confidence {
        Some(c) => c.reason@,
        None => "indexed"@,
    }
}

/// The retrieval path of an object, empty when it has no confidence.
pub open spec fn path_of(obj: MemoryObject) -> Seq<Seq<char>> {
    match obj.confidence {
        Some(c) => graph::views(c.retrieval_path@),
        None => Seq::empty(),
    }
}

/// The content of an object at a tier: its text there, or for the keyword tier the keyword
/// line when it has keywords.
pub open spec fn content_at(obj: MemoryObject, tier: CompressionTier) -> Option<Seq<char>> {
    match obj.text.text_at(tier) {
        Some(c) => Some(c),
        None => if tier == CompressionTier::Keywords && obj.text.keywords@.len() > 0 {
            Some(text::join(obj.text.keyword_views(), ", "@))
        } else {
            None
        },
    }
}

/// The item an object yields at a level and tier, if it has content there.
pub open spec fn item_of(obj: MemoryObject, level: MemoryLevel, tier: CompressionTier) -> Option<
    ItemView,
> {
    match content_at(obj, tier) {
        Some(c) => Some(
            ItemView {
                level,
                object_id: obj.id@,
                tier,
                content: c,
                reason: reason_of(obj),
                path: path_of(obj),
            },
        ),
        None => None,
    }
}

fn object_to_item(obj: &MemoryObject, level: MemoryLevel, tier: CompressionTier) -> (r: Option<
    RetrievedItem,
>)
    ensures
        match r {
            Some(it) => item_of(*obj, level, tier) == Some(it@),
            None => item_of(*obj, level, tier) is None,
        },
{
    let content = match obj.text.at_tier(tier) {
        Some(s) => text::owned(s),
        None => {
            if tier == CompressionTier::Keywords && obj.text.keywords.len() > 0 {
                obj.text.keywords_line()
            } else {
                return None;
            }
        },
    };
    let (reason, path) = match &obj.confidence {
        Some(c) => (c.reason.clone(), text::clone_strings(&c.retrieval_path)),
        None => (text::owned("indexed"), Vec::new()),
    };
    let item = RetrievedItem {
        level,
        object_id: obj.id.clone(),
        tier,
        content,
        confidence_reason: reason,
        retrieval_path: path,
    };
    assert(item@.path =~= path_of(*obj));
    Some(item)
}


// ---------------------------------------------------------------------------
// Ranking
// ---------------------------------------------------------------------------

/// Inserts a scored entry into a list ranked by descending score, after every entry whose
/// score is at least as high (so equal scores keep their order).
pub open spec fn insert_ranked(s: Seq<(int, int)>, x: (int, int)) -> Seq<(int, int)>
    decreases s.len(),
{
    if s.len() == 0 || s.last().0 >= x.0 {
        s.push(x)
    } else {
        insert_ranked(s.drop_last(), x).push(s.last())
    }
}

/// A stable sort by descending score.
pub open spec fn ranked(s: Seq<(int, int)>) -> Seq<(int, int)>
    decreases s.len(),
{
    if s.len() == 0 {
        Seq::empty()
    } else {
        insert_ranked(ranked(s.drop_last()), s.last())
    }
}

/// Each object's score with its position.
pub open spec fn scored(objs: Seq<MemoryObject>, terms: Seq<Seq<char>>) -> Seq<(int, int)> {
    Seq::new(objs.len(), |i: int| (score_of(objs[i], terms), i))
}

/// Positions of the objects from the highest score to the lowest, ties in stored order.
pub open spec fn rank_order(objs: Seq<MemoryObject>, terms: Seq<Seq<char>>) -> Seq<int> {
    ranked(scored(objs, terms)).map_values(|p: (int, int)| p.1)
}

/// The position of the last object with the highest score, if any.
pub open spec fn last_max(s: Seq<(int, int)>) -> Option<int>
    decreases s.len(),
{
    if s.len() == 0 {
        None
    } else {
        match last_max(s.drop_last()) {
            None => Some(s.len() - 1),
            Some(i) => if s.last().0 >= s[i].0 {
                Some(s.len() - 1)
            } else {
                Some(i)
            },
        }
    }
}

proof fn lemma_last_max_range(s: Seq<(int, int)>)
    ensures
        last_max(s) matches Some(i) ==> 0 <= i < s.len(),
        s.len() > 0 ==> last_max(s) is Some,
    decreases s.len(),
{
    if s.len() > 0 {
        lemma_last_max_range(s.drop_last());
    }
}

proof fn lemma_insert_at(s: Seq<(int, int)>, x: (int, int), j: int)
    requires
        0 <= j <= s.len(),
        forall|k: int| j <= k < s.len() ==> #[trigger] s[k].0 < x.0,
        j == 0 || s[j - 1].0 >= x.0,
    ensures
        insert_ranked(s, x) == s.subrange(0, j).push(x) + s.subrange(j, s.len() as int),
    decreases s.len(),
{
    if s.len() == j {
        assert(s.subrange(0, j) =~= s);
        assert(s.subrange(j, s.len() as int) =~= Seq::<(int, int)>::empty());
        assert(s.push(x) =~= s.subrange(0, j).push(x) + s.subrange(j, s.len() as int));
    } else {
        let d = s.drop_last();
        assert(s.last().0 < x.0);
        lemma_insert_at(d, x, j);
        assert(insert_ranked(s, x) =~= s.subrange(0, j).push(x) + s.subrange(j, s.len() as int));
    }
}

/// The view of a scored position.
pub open spec fn pair_view(p: (i32, usize)) -> (int, int) {
    (p.0 as int, p.1 as int)
}

proof fn lemma_insert_ranked_len(s: Seq<(int, int)>, x: (int, int))
    ensures
        insert_ranked(s, x).len() == s.len() + 1,
    decreases s.len(),
{
    if s.len() > 0 {
        lemma_insert_ranked_len(s.drop_last(), x);
    }
}

proof fn lemma_ranked_len(s: Seq<(int, int)>)
    ensures
        ranked(s).len() == s.len(),
    decreases s.len(),
{
    if s.len() > 0 {
        lemma_ranked_len(s.drop_last());
        lemma_insert_ranked_len(ranked(s.drop_last()), s.last());
    }
}

/// Scores never rise along the list.
pub open spec fn descending(s: Seq<(int, int)>) -> bool {
    forall|p: int, q: int| 0 <= p < q < s.len() ==> #[trigger] s[p].0 >= #[trigger] s[q].0
}

/// Entries of equal score keep the order of their positions.
pub open spec fn stable(s: Seq<(int, int)>) -> bool {
    forall|p: int, q: int| 0 <= p < q < s.len() && #[trigger] s[p].0 == #[trigger] s[q].0 ==> s[p].1 < s[q].1
}

proof fn lemma_insert_ranked_props(s: Seq<(int, int)>, x: (int, int))
    requires
        descending(s),
        stable(s),
        forall|k: int| 0 <= k < s.len() ==> #[trigger] s[k].1 < x.1,
    ensures
        insert_ranked(s, x).len() == s.len() + 1,
        forall|y: (int, int)| #[trigger] insert_ranked(s, x).contains(y) <==> s.contains(y) || y == x,
        descending(insert_ranked(s, x)),
        stable(insert_ranked(s, x)),
    decreases s.len(),
{
    let t = insert_ranked(s, x);
    if s.len() == 0 || s.last().0 >= x.0 {
        assert forall|y: (int, int)| #[trigger] t.contains(y) <==> s.contains(y) || y == x by {
            if t.contains(y) {
                let k = choose|k: int| 0 <= k < t.len() && t[k] == y;
                if k < s.len() {
                    assert(s[k] == y);
                }
            }
            if s.contains(y) {
                let k = choose|k: int| 0 <= k < s.len() && s[k] == y;
                assert(t[k] == y);
            }
            if y == x {
                assert(t[s.len() as int] == y);
            }
        }
        assert forall|p: int, q: int| 0 <= p < q < t.len() implies #[trigger] t[p].0 >= #[trigger] t[q].0 by {
            if q == s.len() {
                assert(s[p].0 >= s[s.len() - 1].0 || p == s.len() - 1);
            } else {
                assert(t[p] == s[p] && t[q] == s[q]);
            }
        }
        assert forall|p: int, q: int| 0 <= p < q < t.len() && #[trigger] t[p].0 == #[trigger] t[q].0 implies t[p].1 < t[q].1 by {
            if q == s.len() {
                assert(t[p] == s[p]);
            } else {
                assert(t[p] == s[p] && t[q] == s[q]);
            }
        }
    } else {
        let d = s.drop_last();
        let l = s.last();
        assert forall|k: int| 0 <= k < d.len() implies #[trigger] d[k].1 < x.1 by {
            assert(d[k] == s[k]);
        }
        assert(descending(d)) by {
            assert forall|p: int, q: int| 0 <= p < q < d.len() implies #[trigger] d[p].0 >= #[trigger] d[q].0 by {
                assert(d[p] == s[p] && d[q] == s[q]);
            }
        }
        assert(stable(d)) by {
            assert forall|p: int, q: int| 0 <= p < q < d.len() && #[trigger] d[p].0 == #[trigger] d[q].0 implies d[p].1 < d[q].1 by {
                assert(d[p] == s[p] && d[q] == s[q]);
            }
        }
        lemma_insert_ranked_props(d, x);
        let u = insert_ranked(d, x);
        assert(t == u.push(l));
        // every entry of u scores at least as high as l; those of equal score come before l in s
        assert forall|k: int| 0 <= k < u.len() implies #[trigger] u[k].0 >= l.0 && (u[k].0 == l.0 ==> u[k].1 < l.1) by {
            assert(u.contains(u[k]));
            if u[k] != x {
                assert(d.contains(u[k]));
                let m = choose|m: int| 0 <= m < d.len() && d[m] == u[k];
                assert(s[m] == u[k]);
                assert(s[m].0 >= s[s.len() - 1].0);
                if u[k].0 == l.0 {
                    assert(s[m].1 < s[s.len() - 1].1);
                }
            }
        }
        assert forall|y: (int, int)| #[trigger] t.contains(y) <==> s.contains(y) || y == x by {
            if t.contains(y) {
                let k = choose|k: int| 0 <= k < t.len() && t[k] == y;
                if k < u.len() {
                    assert(u[k] == y);
                    assert(u.contains(y));
                    if y != x {
                        let m = choose|m: int| 0 <= m < d.len() && d[m] == y;
                        assert(s[m] == y);
                    }
                }
            }
            if s.contains(y) {
                let k = choose|k: int| 0 <= k < s.len() && s[k] == y;
                if k < d.len() {
                    assert(d[k] == y);
                    assert(u.contains(y));
                    let m = choose|m: int| 0 <= m < u.len() && u[m] == y;
                    assert(t[m] == y);
                } else {
                    assert(t[t.len() - 1] == y);
                }
            }
            if y == x {
                assert(u.contains(x));
                let m = choose|m: int| 0 <= m < u.len() && u[m] == x;
                assert(t[m] == y);
            }
        }
        assert forall|p: int, q: int| 0 <= p < q < t.len() implies #[trigger] t[p].0 >= #[trigger] t[q].0 by {
            assert(t[p] == u[p]);
            if q < u.len() {
                assert(t[q] == u[q]);
            }
        }
        assert forall|p: int, q: int| 0 <= p < q < t.len() && #[trigger] t[p].0 == #[trigger] t[q].0 implies t[p].1 < t[q].1 by {
            assert(t[p] == u[p]);
            if q < u.len() {
                assert(t[q] == u[q]);
            }
        }
    }
}

proof fn lemma_ranked_props(s: Seq<(int, int)>)
    requires
        forall|p: int, q: int| 0 <= p < q < s.len() ==> #[trigger] s[p].1 < #[trigger] s[q].1,
    ensures
        ranked(s).len() == s.len(),
        forall|y: (int, int)| #[trigger] ranked(s).contains(y) <==> s.contains(y),
        descending(ranked(s)),
        stable(ranked(s)),
    decreases s.len(),
{
    if s.len() > 0 {
        let d = s.drop_last();
        assert forall|p: int, q: int| 0 <= p < q < d.len() implies #[trigger] d[p].1 < #[trigger] d[q].1 by {
            assert(d[p] == s[p] && d[q] == s[q]);
        }
        lemma_ranked_props(d);
        let r = ranked(d);
        assert forall|k: int| 0 <= k < r.len() implies #[trigger] r[k].1 < s.last().1 by {
            assert(r.contains(r[k]));
            let m = choose|m: int| 0 <= m < d.len() && d[m] == r[k];
            assert(s[m] == r[k]);
        }
        lemma_insert_ranked_props(r, s.last());
        assert forall|y: (int, int)| #[trigger] ranked(s).contains(y) <==> s.contains(y) by {
            if s.contains(y) && y != s.last() {
                let k = choose|k: int| 0 <= k < s.len() && s[k] == y;
                if k < d.len() {
                    assert(d[k] == y);
                }
            }
            if d.contains(y) {
                let k = choose|k: int| 0 <= k < d.len() && d[k] == y;
                assert(s[k] == y);
            }
            if y == s.last() {
                assert(s[s.len() - 1] == y);
            }
        }
    }
}

/// Ranking law: the rank order lists every object exactly once, from the highest score to
/// the lowest, objects of equal score in their stored order.
pub proof fn lemma_rank_order_is_ranking(objs: Seq<MemoryObject>, terms: Seq<Seq<char>>)
    ensures
        rank_order(objs, terms).len() == objs.len(),
        forall|p: int| 0 <= p < objs.len() ==> 0 <= #[trigger] rank_order(objs, terms)[p] < objs.len(),
        forall|i: int| 0 <= i < objs.len() ==> #[trigger] rank_order(objs, terms).contains(i),
        rank_order(objs, terms).no_duplicates(),
        forall|p: int, q: int|
            0 <= p < q < objs.len() ==> score_of(objs[#[trigger] rank_order(objs, terms)[p]], terms) >= score_of(
                objs[#[trigger] rank_order(objs, terms)[q]],
                terms,
            ),
        forall|p: int, q: int|
            0 <= p < q < objs.len() && score_of(objs[#[trigger] rank_order(objs, terms)[p]], terms) == score_of(
                objs[#[trigger] rank_order(objs, terms)[q]],
                terms,
            ) ==> rank_order(objs, terms)[p] < rank_order(objs, terms)[q],
{
    let s = scored(objs, terms);
    let r = ranked(s);
    let ro = rank_order(objs, terms);
    assert forall|p: int, q: int| 0 <= p < q < s.len() implies #[trigger] s[p].1 < #[trigger] s[q].1 by {}
    lemma_ranked_props(s);
    assert forall|p: int| 0 <= p < r.len() implies (#[trigger] r[p]).0 == score_of(objs[r[p].1], terms) && 0 <= r[p].1 < objs.len() by {
        assert(r.contains(r[p]));
        let m = choose|m: int| 0 <= m < s.len() && s[m] == r[p];
    }
    assert forall|p: int| 0 <= p < objs.len() implies 0 <= #[trigger] ro[p] < objs.len() by {
        assert(ro[p] == r[p].1);
    }
    assert forall|i: int| 0 <= i < objs.len() implies #[trigger] ro.contains(i) by {
        assert(s[i] == (score_of(objs[i], terms), i));
        assert(s.contains(s[i]));
        assert(r.contains(s[i]));
        let m = choose|m: int| 0 <= m < r.len() && r[m] == s[i];
        assert(ro[m] == r[m].1);
        assert(ro[m] == i);
    }
    assert forall|p: int, q: int| 0 <= p < q < objs.len() implies score_of(objs[#[trigger] ro[p]], terms) >= score_of(objs[#[trigger] ro[q]], terms)
        && (score_of(objs[ro[p]], terms) == score_of(objs[ro[q]], terms) ==> ro[p] < ro[q]) by {
        assert(ro[p] == r[p].1 && ro[q] == r[q].1);
        assert(r[p].0 >= r[q].0);
    }
    assert forall|p: int, q: int| 0 <= p < ro.len() && 0 <= q < ro.len() && p != q implies ro[p] != ro[q] by {
        assert(ro[p] == r[p].1 && ro[q] == r[q].1);
        if p < q {
            assert(r[p].0 >= r[q].0);
        } else {
            assert(r[q].0 >= r[p].0);
        }
    }
}

/// Positions of the objects in rank order.
fn rank(objs: &Vec<MemoryObject>, terms: &Vec<String>) -> (r: Vec<usize>)
    requires
        forall|k: int| 0 <= k < objs@.len() ==> terms@.len() * (12 + 2 * #[trigger] objs@[k].text.keywords@.len()) <= i32::MAX,
    ensures
        r@.len() == objs@.len(),
        forall|k: int| 0 <= k < r@.len() ==> #[trigger] r@[k] < objs@.len(),
        r@.map_values(|u: usize| u as int) == rank_order(objs@, graph::views(terms@)),
{
    let ghost tv = graph::views(terms@);
    let ghost sc = scored(objs@, tv);
    let mut v: Vec<(i32, usize)> = Vec::new();
    let mut i: usize = 0;
    while i < objs.len()
        invariant
            i <= objs@.len(),
            tv == graph::views(terms@),
            sc == scored(objs@, tv),
            forall|k: int| 0 <= k < objs@.len() ==> terms@.len() * (12 + 2 * #[trigger] objs@[k].text.keywords@.len()) <= i32::MAX,
            v@.map_values(|p: (i32, usize)| pair_view(p)) == ranked(sc.take(i as int)),
            forall|k: int| 0 <= k < v@.len() ==> #[trigger] v@[k].1 < i,
        decreases objs@.len() - i,
    {
        let sc_i = score_object(&objs[i], terms);
        let x = (sc_i, i);
        let ghost prev = v@.map_values(|p: (i32, usize)| pair_view(p));
        let mut j = v.len();
        while j > 0 && v[j - 1].0 < sc_i
            invariant
                j <= v@.len(),
                forall|k: int| j <= k < v@.len() ==> #[trigger] v@[k].0 < sc_i,
            decreases j,
        {
            j -= 1;
        }
        proof {
            assert(sc.take(i + 1).drop_last() =~= sc.take(i as int));
            assert(sc.take(i + 1).last() == pair_view(x));
            assert(forall|k: int| j <= k < prev.len() ==> #[trigger] prev[k].0 < pair_view(x).0);
            lemma_insert_at(prev, pair_view(x), j as int);
        }
        let ghost oldv = v@;
        v.insert(j, x);
        assert(v@ == oldv.insert(j as int, x));
        assert(v@.map_values(|p: (i32, usize)| pair_view(p)) =~= prev.subrange(0, j as int).push(pair_view(x)) + prev.subrange(j as int, prev.len() as int));
        assert forall|k: int| 0 <= k < v@.len() implies #[trigger] v@[k].1 < i + 1 by {
            if k < j {
                assert(v@[k] == oldv[k]);
            } else if k > j {
                assert(v@[k] == oldv[k - 1]);
            }
        }
        i += 1;
    }
    assert(sc.take(objs@.len() as int) =~= sc);
    let mut out: Vec<usize> = Vec::new();
    let mut k: usize = 0;
    while k < v.len()
        invariant
            k <= v@.len(),
            forall|m: int| 0 <= m < v@.len() ==> #[trigger] v@[m].1 < objs@.len(),
            out@.map_values(|u: usize| u as int) == v@.take(k as int).map_values(|p: (i32, usize)| p.1 as int),
            forall|m: int| 0 <= m < out@.len() ==> #[trigger] out@[m] < objs@.len(),
        decreases v@.len() - k,
    {
        let ghost pre = out@.map_values(|u: usize| u as int);
        out.push(v[k].1);
        assert(out@.map_values(|u: usize| u as int) =~= pre.push(v@[k as int].1 as int));
        assert(v@.take(k + 1).map_values(|p: (i32, usize)| p.1 as int) =~= v@.take(k as int).map_values(|p: (i32, usize)| p.1 as int).push(v@[k as int].1 as int));
        k += 1;
    }
    proof {
        lemma_ranked_len(sc);
        assert(v@.take(v@.len() as int) =~= v@);
        assert(out@.map_values(|u: usize| u as int) =~= ranked(sc).map_values(|p: (int, int)| p.1));
    }
    out
}

// ---------------------------------------------------------------------------
// The retrieval state and its phases
// ---------------------------------------------------------------------------

/// Retrieval state: items so far, tokens used, whether a budget stopped a phase early.
pub struct QState {
    pub items: Seq<ItemView>,
    pub used: nat,
    pub stopped: bool,
}

/// The state with one more item, its tokens counted.
pub open spec fn add_item(st: QState, it: ItemView) -> QState {
    QState { items: st.items.push(it), used: st.used + budget::tokens_of(it.content), stopped: st.stopped }
}

/// The state marked as stopped early.
pub open spec fn stop(st: QState) -> QState {
    QState { items: st.items, used: st.used, stopped: true }
}

/// The architecture item: the last best-scoring object at its summary, or at its ultra
/// summary when the summary does not fit the budget `b`.
pub open spec fn arch_item(objs: Seq<MemoryObject>, terms: Seq<Seq<char>>, b: nat) -> Option<ItemView> {
    match last_max(scored(objs, terms)) {
        None => None,
        Some(i) => {
            let o = objs[i];
            match item_of(o, o.kind.level_of(), CompressionTier::Summary) {
                None => None,
                Some(it) => if budget::tokens_of(it.content) <= b {
                    Some(it)
                } else {
                    item_of(o, o.kind.level_of(), CompressionTier::UltraSummary)
                },
            }
        },
    }
}

/// Objects in rank order from position `i` up to `n`: stop when the total is spent; add the
/// summary item unless it would pass `bound`, in which case stop.
pub open spec fn run_objects(
    st: QState,
    objs: Seq<MemoryObject>,
    order: Seq<int>,
    i: nat,
    n: nat,
    level: MemoryLevel,
    total: nat,
    bound: Option<nat>,
) -> QState
    decreases n - i,
{
    if i >= n {
        st
    } else if st.used >= total {
        stop(st)
    } else {
        match item_of(objs[order[i as int]], level, CompressionTier::Summary) {
            None => run_objects(st, objs, order, i + 1, n, level, total, bound),
            Some(it) => match bound {
                Some(bd) => if st.used + budget::tokens_of(it.content) > bd {
                    stop(st)
                } else {
                    run_objects(add_item(st, it), objs, order, i + 1, n, level, total, bound)
                },
                None => run_objects(add_item(st, it), objs, order, i + 1, n, level, total, bound),
            },
        }
    }
}

/// What a symbol contributes: its signature, or its kind label and name.
pub open spec fn sym_content(s: Symbol) -> Seq<char> {
    match s.signature {
        Some(sig) => sig@,
        None => s.kind.label_text() + " "@ + s.name@,
    }
}

/// The item for a symbol that matches the query.
pub open spec fn sym_item(s: Symbol) -> ItemView {
    ItemView {
        level: MemoryLevel::L1ActiveSymbols,
        object_id: s.id@,
        tier: CompressionTier::Summary,
        content: sym_content(s),
        reason: "symbol name/path match"@,
        path: seq!["query"@, s.path@, s.name@],
    }
}

/// A symbol matches when its name and path, lower-cased, contain a query term.
pub open spec fn sym_matches(s: Symbol, terms: Seq<Seq<char>>) -> bool {
    text_hits(text::unicode_lowercase(s.name@ + " "@ + s.path@), terms) > 0
}

/// The symbols that match, in index order.
pub open spec fn matching(syms: Seq<Symbol>, terms: Seq<Seq<char>>) -> Seq<Symbol>
    decreases syms.len(),
{
    if syms.len() == 0 {
        Seq::empty()
    } else {
        let prev = matching(syms.drop_last(), terms);
        if sym_matches(syms.last(), terms) {
            prev.push(syms.last())
        } else {
            prev
        }
    }
}

proof fn lemma_text_hits_positive(lower: Seq<char>, terms: Seq<Seq<char>>)
    ensures
        text_hits(lower, terms) > 0 <==> exists|j: int| 0 <= j < terms.len() && text::contains(lower, #[trigger] terms[j]),
    decreases terms.len(),
{
    if terms.len() > 0 {
        let d = terms.drop_last();
        lemma_text_hits_positive(lower, d);
        if exists|j: int| 0 <= j < d.len() && text::contains(lower, #[trigger] d[j]) {
            let j = choose|j: int| 0 <= j < d.len() && text::contains(lower, #[trigger] d[j]);
            assert(terms[j] == d[j]);
        }
        if exists|j: int| 0 <= j < terms.len() && text::contains(lower, #[trigger] terms[j]) {
            let j = choose|j: int| 0 <= j < terms.len() && text::contains(lower, #[trigger] terms[j]);
            if j < d.len() {
                assert(d[j] == terms[j]);
            }
        }
    }
}

proof fn lemma_matching_contains(syms: Seq<Symbol>, terms: Seq<Seq<char>>, x: Symbol)
    ensures
        matching(syms, terms).contains(x) <==> syms.contains(x) && sym_matches(x, terms),
    decreases syms.len(),
{
    if syms.len() > 0 {
        let d = syms.drop_last();
        lemma_matching_contains(d, terms, x);
        let prev = matching(d, terms);
        let cur = matching(syms, terms);
        if cur.contains(x) {
            let j = choose|j: int| 0 <= j < cur.len() && cur[j] == x;
            if j < prev.len() {
                assert(prev[j] == x);
                assert(prev.contains(x));
                let k = choose|k: int| 0 <= k < d.len() && d[k] == x;
                assert(syms[k] == x);
            } else {
                assert(syms[syms.len() - 1] == x);
            }
        }
        if syms.contains(x) && sym_matches(x, terms) {
            let k = choose|k: int| 0 <= k < syms.len() && syms[k] == x;
            if k < d.len() {
                assert(d[k] == x);
                assert(prev.contains(x));
                let j = choose|j: int| 0 <= j < prev.len() && prev[j] == x;
                assert(cur[j] == x);
            } else {
                assert(cur[cur.len() - 1] == x);
            }
        }
    }
}

/// Symbol-match law: the symbols searched at the symbol level are exactly those whose name,
/// a space and its path, lower-cased together, contain one of the query terms: the path
/// counts as well as the name.
pub proof fn lemma_matching_symbols(syms: Seq<Symbol>, terms: Seq<Seq<char>>, x: Symbol)
    ensures
        matching(syms, terms).contains(x) <==> syms.contains(x) && exists|j: int|
            0 <= j < terms.len() && text::contains(
                text::unicode_lowercase(x.name@ + " "@ + x.path@),
                #[trigger] terms[j],
            ),
{
    lemma_matching_contains(syms, terms, x);
    lemma_text_hits_positive(text::unicode_lowercase(x.name@ + " "@ + x.path@), terms);
}

/// Matching symbols from position `i` up to `n`, within the code budget.
pub open spec fn run_symbols(st: QState, syms: Seq<Symbol>, i: nat, n: nat, code: nat, spent: nat) -> QState
    decreases n - i,
{
    if i >= n {
        st
    } else if spent >= code {
        stop(st)
    } else {
        let c = budget::tokens_of(sym_content(syms[i as int]));
        if spent + c > code {
            stop(st)
        } else {
            run_symbols(add_item(st, sym_item(syms[i as int])), syms, i + 1, n, code, spent + c)
        }
    }
}

/// Tokens of the symbols from position `i` up to `m`.
pub open spec fn sym_cost(syms: Seq<Symbol>, i: int, m: int) -> nat
    decreases m - i,
{
    if m <= i {
        0
    } else {
        sym_cost(syms, i, m - 1) + budget::tokens_of(sym_content(syms[m - 1]))
    }
}

proof fn lemma_sym_cost_front(syms: Seq<Symbol>, i: int, m: int)
    requires
        i < m,
    ensures
        sym_cost(syms, i, m) == budget::tokens_of(sym_content(syms[i])) + sym_cost(syms, (i + 1) as int, m),
    decreases m - i,
{
    if m > i + 1 {
        lemma_sym_cost_front(syms, i, m - 1);
        assert(sym_cost(syms, (i + 1) as int, m) == sym_cost(syms, (i + 1) as int, m - 1) + budget::tokens_of(
            sym_content(syms[m - 1]),
        ));
    } else {
        assert(sym_cost(syms, i, i) == 0);
        assert(sym_cost(syms, (i + 1) as int, m) == 0);
    }
}

proof fn lemma_run_symbols_prefix(st: QState, syms: Seq<Symbol>, i: nat, n: nat, code: nat, spent: nat)
    requires
        i <= n <= syms.len(),
        spent <= code,
    ensures
        exists|m: int|
            i <= m <= n && run_symbols(st, syms, i, n, code, spent).items == st.items + Seq::new(
                (m - i) as nat,
                |k: int| sym_item(syms[i + k]),
            ) && spent + #[trigger] sym_cost(syms, i as int, m) <= code && (m < n ==> spent + sym_cost(syms, i as int, m)
                >= code || spent + sym_cost(syms, i as int, m + 1) > code),
    decreases n - i,
{
    let r = run_symbols(st, syms, i, n, code, spent);
    let c = budget::tokens_of(sym_content(syms[i as int]));
    if i >= n || spent >= code || spent + c > code {
        assert(r.items =~= st.items + Seq::new(0, |k: int| sym_item(syms[i + k])));
        assert(sym_cost(syms, i as int, i as int) == 0);
        assert(sym_cost(syms, i as int, (i + 1) as int) == c);
        assert(i <= i as int <= n && r.items == st.items + Seq::new((i - i) as nat, |k: int| sym_item(syms[i + k]))
            && spent + sym_cost(syms, i as int, i as int) <= code && (i < n ==> spent + sym_cost(syms, i as int, i as int)
            >= code || spent + sym_cost(syms, i as int, (i + 1) as int) > code));
    } else {
        let st1 = add_item(st, sym_item(syms[i as int]));
        lemma_run_symbols_prefix(st1, syms, i + 1, n, code, spent + c);
        let m = choose|m: int|
            i + 1 <= m <= n && run_symbols(st1, syms, i + 1, n, code, spent + c).items == st1.items + Seq::new(
                (m - (i + 1)) as nat,
                |k: int| sym_item(syms[i + 1 + k]),
            ) && spent + c + #[trigger] sym_cost(syms, (i + 1) as int, m) <= code && (m < n ==> spent + c + sym_cost(syms, (i + 1) as int, m)
                >= code || spent + c + sym_cost(syms, (i + 1) as int, m + 1) > code);
        lemma_sym_cost_front(syms, i as int, m);
        if m < n {
            lemma_sym_cost_front(syms, i as int, m + 1);
        }
        assert(r == run_symbols(st1, syms, i + 1, n, code, spent + c));
        assert(st1.items + Seq::new((m - (i + 1)) as nat, |k: int| sym_item(syms[i + 1 + k])) =~= st.items + Seq::new(
            (m - i) as nat,
            |k: int| sym_item(syms[i + k]),
        ));
    }
}

/// Symbol-phase law: the symbol level adds the items of the first `m` of the symbols, in
/// order, for some `m` up to the cap `n`; their tokens fit the code budget, and it stops short
/// of the cap only where the budget is spent or the next symbol would overrun it.
pub proof fn lemma_symbol_phase(st: QState, syms: Seq<Symbol>, n: nat, code: nat)
    requires
        n <= syms.len(),
    ensures
        exists|m: int|
            0 <= m <= n && run_symbols(st, syms, 0, n, code, 0).items == st.items + Seq::new(
                m as nat,
                |k: int| sym_item(syms[k]),
            ) && #[trigger] sym_cost(syms, 0, m) <= code && (m < n ==> sym_cost(syms, 0, m) >= code || sym_cost(syms, 0, m + 1)
                > code),
{
    lemma_run_symbols_prefix(st, syms, 0, n, code, 0);
    let m = choose|m: int|
        0 <= m <= n && run_symbols(st, syms, 0, n, code, 0).items == st.items + Seq::new(
            (m - 0) as nat,
            |k: int| sym_item(syms[0 + k]),
        ) && 0 + #[trigger] sym_cost(syms, 0, m) <= code && (m < n ==> 0 + sym_cost(syms, 0, m) >= code || 0 + sym_cost(syms, 0, m + 1) > code);
    assert(Seq::new((m - 0) as nat, |k: int| sym_item(syms[0 + k])) =~= Seq::new(m as nat, |k: int| sym_item(syms[k])));
}

/// Ids of the module items so far.
pub open spec fn module_ids(items: Seq<ItemView>) -> Seq<Seq<char>>
    decreases items.len(),
{
    if items.len() == 0 {
        Seq::empty()
    } else {
        let prev = module_ids(items.drop_last());
        if items.last().level == MemoryLevel::L2Module {
            prev.push(items.last().object_id)
        } else {
            prev
        }
    }
}

/// The first symbol whose id or file is `node`.
pub open spec fn find_symbol(syms: Seq<Symbol>, node: Seq<char>) -> Option<Symbol>
    decreases syms.len(),
{
    if syms.len() == 0 {
        None
    } else if syms[0].id@ == node || syms[0].path@ == node {
        Some(syms[0])
    } else {
        find_symbol(syms.drop_first(), node)
    }
}

/// What a graph neighbor contributes.
pub open spec fn nb_content(s: Symbol) -> Seq<char> {
    "neighbor: "@ + s.name@ + " at "@ + s.path@
}

/// The item for a graph neighbor reached at `node`.
pub open spec fn nb_item(s: Symbol, node: Seq<char>) -> ItemView {
    ItemView {
        level: MemoryLevel::L1ActiveSymbols,
        object_id: s.id@,
        tier: CompressionTier::UltraSummary,
        content: nb_content(s),
        reason: "dependency graph neighbor"@,
        path: seq!["graph"@, node],
    }
}

/// Graph neighbors from position `i` up to `n`, within the dependency budget.
pub open spec fn run_neighbors(
    st: QState,
    nodes: Seq<Seq<char>>,
    syms: Seq<Symbol>,
    i: nat,
    n: nat,
    dep: nat,
    spent: nat,
) -> QState
    decreases n - i,
{
    if i >= n {
        st
    } else if spent >= dep {
        stop(st)
    } else {
        match find_symbol(syms, nodes[i as int]) {
            None => run_neighbors(st, nodes, syms, i + 1, n, dep, spent),
            Some(s) => run_neighbors(
                add_item(st, nb_item(s, nodes[i as int])),
                nodes,
                syms,
                i + 1,
                n,
                dep,
                spent + budget::tokens_of(nb_content(s)),
            ),
        }
    }
}

/// The smaller of two numbers.
pub open spec fn min_nat(a: nat, b: nat) -> nat {
    if a <= b {
        a
    } else {
        b
    }
}

impl RetrievalPipeline {
    /// Retrieval for query text `q` within budget `b`.
    pub open spec fn retrieve(self, q: Seq<char>, b: ContextBudget) -> QState {
        let terms = query_terms(q);
        let s0 = QState { items: Seq::empty(), used: 0, stopped: false };
        let s1 = if 0 < b.architecture {
            match arch_item(self.architecture@, terms, b.architecture as nat) {
                Some(it) => add_item(s0, it),
                None => s0,
            }
        } else {
            s0
        };
        let sub_budget = b.active_files / 2;
        let s2 = run_objects(
            s1,
            self.subsystems@,
            rank_order(self.subsystems@, terms),
            0,
            min_nat(3, self.subsystems@.len()),
            MemoryLevel::L3Subsystem,
            b.total_tokens as nat,
            Some((b.architecture + sub_budget) as nat),
        );
        let s3 = run_objects(
            s2,
            self.modules@,
            rank_order(self.modules@, terms),
            0,
            min_nat(8, self.modules@.len()),
            MemoryLevel::L2Module,
            b.total_tokens as nat,
            Some((b.architecture + b.active_files + sub_budget) as nat),
        );
        let syms = matching(self.symbols@, terms);
        let s4 = run_symbols(s3, syms, 0, min_nat(20, syms.len()), b.code as nat, 0);
        let seeds = module_ids(s4.items);
        let s5 = if seeds.len() == 0 {
            s4
        } else {
            let ex = graph::expand_of(self.graph.edge_views(), seeds, 1);
            run_neighbors(s4, ex, self.symbols@, 0, min_nat(10, ex.len()), b.dependency_expansion as nat, 0)
        };
        run_objects(
            s5,
            self.historical@,
            rank_order(self.historical@, terms),
            0,
            min_nat(3, self.historical@.len()),
            MemoryLevel::L5Historical,
            b.total_tokens as nat,
            None,
        )
    }

    /// The limit on a single item's token estimate that keeps all sums within `usize`.
    pub open spec fn cost_cap() -> nat {
        (usize::MAX as nat) / 64
    }

    /// An object's texts fit the machine's integers.
    pub open spec fn texts_fit(o: MemoryObject) -> bool {
        &&& budget::tokens_of(or_empty(o.text.raw)) <= Self::cost_cap()
        &&& budget::tokens_of(or_empty(o.text.summary)) <= Self::cost_cap()
        &&& budget::tokens_of(or_empty(o.text.ultra_summary)) <= Self::cost_cap()
    }

    /// An object's texts, and the scores of the query's terms against it, fit the machine's
    /// integers.
    pub open spec fn object_fits(o: MemoryObject, q: Seq<char>) -> bool {
        &&& Self::texts_fit(o)
        &&& query_terms(q).len() * (12 + 2 * o.text.keywords@.len()) <= i32::MAX
    }

    /// A symbol's contributions fit the machine's integers.
    pub open spec fn symbol_fits(s: Symbol) -> bool {
        &&& budget::tokens_of(sym_content(s)) <= Self::cost_cap()
        &&& budget::tokens_of(nb_content(s)) <= Self::cost_cap()
    }

    /// All token counts and scores of a query stay within the machine's integers.
    pub open spec fn fits(self, q: Seq<char>) -> bool {
        &&& query_terms(q).len() <= i32::MAX
        &&& forall|k: int| 0 <= k < self.architecture@.len() ==> Self::object_fits(#[trigger] self.architecture@[k], q)
        &&& forall|k: int| 0 <= k < self.subsystems@.len() ==> Self::object_fits(#[trigger] self.subsystems@[k], q)
        &&& forall|k: int| 0 <= k < self.modules@.len() ==> Self::object_fits(#[trigger] self.modules@[k], q)
        &&& forall|k: int| 0 <= k < self.historical@.len() ==> Self::object_fits(#[trigger] self.historical@[k], q)
        &&& forall|k: int| 0 <= k < self.symbols@.len() ==> Self::symbol_fits(#[trigger] self.symbols@[k])
    }
}

/// Objects that fit a query fit its `n` terms, and their texts fit.
proof fn lemma_objects_fit_terms(objs: Seq<MemoryObject>, q: Seq<char>, n: nat)
    requires
        n == query_terms(q).len(),
        forall|k: int| 0 <= k < objs.len() ==> RetrievalPipeline::object_fits(#[trigger] objs[k], q),
    ensures
        forall|k: int| 0 <= k < objs.len() ==> n * (12 + 2 * #[trigger] objs[k].text.keywords@.len()) <= i32::MAX,
        forall|k: int| 0 <= k < objs.len() ==> RetrievalPipeline::texts_fit(#[trigger] objs[k]),
{
    assert forall|k: int| 0 <= k < objs.len() implies n * (12 + 2 * #[trigger] objs[k].text.keywords@.len()) <= i32::MAX by {
        assert(RetrievalPipeline::object_fits(objs[k], q));
    }
    assert forall|k: int| 0 <= k < objs.len() implies RetrievalPipeline::texts_fit(#[trigger] objs[k]) by {
        assert(RetrievalPipeline::object_fits(objs[k], q));
    }
}

// ---------------------------------------------------------------------------
// Executing the phases
// ---------------------------------------------------------------------------

/// Items, tokens used and the early-stop flag while retrieval runs.
struct Acc {
    items: Vec<RetrievedItem>,
    used: usize,
    stopped: bool,
}

impl Acc {
    spec fn state(&self) -> QState {
        QState { items: self.items@.map_values(|i: RetrievedItem| i@), used: self.used as nat, stopped: self.stopped }
    }

    /// The tokens used stay below one item cap per item, and there are at most 45 items.
    spec fn bounded(&self) -> bool {
        &&& self.used as nat <= self.items@.len() * RetrievalPipeline::cost_cap()
        &&& self.items@.len() <= 45
    }
}

proof fn lemma_cap_step(n: nat, used: nat, c: nat)
    requires
        used <= n * RetrievalPipeline::cost_cap(),
        c <= RetrievalPipeline::cost_cap(),
        n + 1 <= 45,
    ensures
        used + c <= (n + 1) * RetrievalPipeline::cost_cap(),
        (n + 1) * RetrievalPipeline::cost_cap() <= usize::MAX,
{
    let k = RetrievalPipeline::cost_cap();
    assert(n * k + k == (n + 1) * k) by (nonlinear_arith);
    assert((n + 1) * k <= 45 * k) by (nonlinear_arith)
        requires
            n + 1 <= 45,
    ;
    assert(45 * k <= usize::MAX) by (nonlinear_arith)
        requires
            k == (usize::MAX as nat) / 64,
    ;
}

/// Adds an item whose token estimate is `cost`.
fn push_item(acc: &mut Acc, it: RetrievedItem, cost: usize)
    requires
        old(acc).bounded(),
        old(acc).items@.len() < 45,
        cost == budget::tokens_of(it@.content),
        cost <= RetrievalPipeline::cost_cap(),
    ensures
        final(acc).state() == add_item(old(acc).state(), it@),
        final(acc).bounded(),
        final(acc).items@.len() == old(acc).items@.len() + 1,
{
    proof {
        lemma_cap_step(acc.items@.len(), acc.used as nat, cost as nat);
    }
    let ghost pre = acc.items@.map_values(|i: RetrievedItem| i@);
    acc.items.push(it);
    acc.used = acc.used + cost;
    assert(acc.items@.map_values(|i: RetrievedItem| i@) =~= pre.push(it@));
}

/// Scores of the objects with their positions, as computed.
fn scores_of(objs: &Vec<MemoryObject>, terms: &Vec<String>) -> (r: Vec<(i32, usize)>)
    requires
        forall|k: int| 0 <= k < objs@.len() ==> terms@.len() * (12 + 2 * #[trigger] objs@[k].text.keywords@.len()) <= i32::MAX,
    ensures
        r@.map_values(|p: (i32, usize)| pair_view(p)) == scored(objs@, graph::views(terms@)),
{
    let mut out: Vec<(i32, usize)> = Vec::new();
    let mut i: usize = 0;
    while i < objs.len()
        invariant
            i <= objs@.len(),
            forall|k: int| 0 <= k < objs@.len() ==> terms@.len() * (12 + 2 * #[trigger] objs@[k].text.keywords@.len()) <= i32::MAX,
            out@.map_values(|p: (i32, usize)| pair_view(p)) == scored(objs@, graph::views(terms@)).take(i as int),
        decreases objs@.len() - i,
    {
        let ghost pre = out@.map_values(|p: (i32, usize)| pair_view(p));
        let sc = score_object(&objs[i], terms);
        out.push((sc, i));
        assert(out@.map_values(|p: (i32, usize)| pair_view(p)) =~= pre.push((sc as int, i as int)));
        assert(scored(objs@, graph::views(terms@)).take(i + 1) =~= scored(objs@, graph::views(terms@)).take(i as int).push((sc as int, i as int)));
        i += 1;
    }
    assert(scored(objs@, graph::views(terms@)).take(objs@.len() as int) =~= scored(objs@, graph::views(terms@)));
    out
}

/// Position of the last best-scoring object.
fn best_index(scores: &Vec<(i32, usize)>) -> (r: Option<usize>)
    ensures
        match r {
            Some(i) => last_max(scores@.map_values(|p: (i32, usize)| pair_view(p))) == Some(i as int) && i < scores@.len(),
            None => last_max(scores@.map_values(|p: (i32, usize)| pair_view(p))) is None,
        },
{
    let ghost sv = scores@.map_values(|p: (i32, usize)| pair_view(p));
    let mut best: Option<usize> = None;
    let mut i: usize = 0;
    while i < scores.len()
        invariant
            i <= scores@.len(),
            sv == scores@.map_values(|p: (i32, usize)| pair_view(p)),
            match best {
                Some(b) => last_max(sv.take(i as int)) == Some(b as int) && b < i,
                None => last_max(sv.take(i as int)) is None && i == 0,
            },
        decreases scores@.len() - i,
    {
        assert(sv.take(i + 1).drop_last() =~= sv.take(i as int));
        assert(sv.take(i + 1).last() == pair_view(scores@[i as int]));
        match best {
            None => {
                best = Some(i);
            },
            Some(b) => {
                assert(sv.take(i as int)[b as int] == sv[b as int]);
                if scores[i].0 >= scores[b].0 {
                    best = Some(i);
                }
            },
        }
        i += 1;
    }
    assert(sv.take(scores@.len() as int) =~= sv);
    best
}

impl RetrievalPipeline {
    /// The architecture object that best matches the terms, as an item that fits the budget
    /// when its summary does (else its ultra summary).
    fn best_match(objects: &Vec<MemoryObject>, terms: &Vec<String>, token_budget: usize) -> (r: Option<RetrievedItem>)
        requires
            forall|k: int| 0 <= k < objects@.len() ==> terms@.len() * (12 + 2 * #[trigger] objects@[k].text.keywords@.len()) <= i32::MAX,
        ensures
            match r {
                Some(it) => arch_item(objects@, graph::views(terms@), token_budget as nat) == Some(it@),
                None => arch_item(objects@, graph::views(terms@), token_budget as nat) is None,
            },
    {
        let scores = scores_of(objects, terms);
        match best_index(&scores) {
            None => None,
            Some(i) => {
                proof {
                    assert(scores@.len() == objects@.len()) by {
                        assert(scores@.map_values(|p: (i32, usize)| pair_view(p)).len() == scored(objects@, graph::views(terms@)).len());
                    }
                }
                let obj = &objects[i];
                match object_to_item(obj, obj.kind.level(), CompressionTier::Summary) {
                    None => None,
                    Some(item) => {
                        if ContextBudget::estimate_tokens(item.content.as_str()) <= token_budget {
                            Some(item)
                        } else {
                            object_to_item(obj, obj.kind.level(), CompressionTier::UltraSummary)
                        }
                    },
                }
            },
        }
    }
}


proof fn lemma_item_cost(o: MemoryObject, level: MemoryLevel, tier: CompressionTier)
    requires
        RetrievalPipeline::texts_fit(o),
        tier == CompressionTier::Summary || tier == CompressionTier::UltraSummary,
    ensures
        item_of(o, level, tier) matches Some(it) ==> budget::tokens_of(it.content) <= RetrievalPipeline::cost_cap(),
{
}

/// Runs `run_objects` over the first `cap` objects in rank order.
fn run_objects_exec(
    acc: &mut Acc,
    objs: &Vec<MemoryObject>,
    order: &Vec<usize>,
    cap: usize,
    level: MemoryLevel,
    total: usize,
    bound: Option<usize>,
)
    requires
        old(acc).bounded(),
        old(acc).items@.len() + cap <= 45,
        order@.len() == objs@.len(),
        forall|k: int| 0 <= k < order@.len() ==> #[trigger] order@[k] < objs@.len(),
        forall|k: int| 0 <= k < objs@.len() ==> RetrievalPipeline::texts_fit(#[trigger] objs@[k]),
    ensures
        final(acc).state() == run_objects(
            old(acc).state(),
            objs@,
            order@.map_values(|u: usize| u as int),
            0,
            min_nat(cap as nat, objs@.len()),
            level,
            total as nat,
            match bound { Some(b) => Some(b as nat), None => None },
        ),
        final(acc).bounded(),
        final(acc).items@.len() <= old(acc).items@.len() + cap,
{
    let ghost ov = order@.map_values(|u: usize| u as int);
    let ghost bv: Option<nat> = match bound { Some(b) => Some(b as nat), None => None };
    let ghost init = acc.state();
    let ghost init_len = acc.items@.len();
    let n = if cap < order.len() { cap } else { order.len() };
    let mut i: usize = 0;
    let mut done = false;
    while i < n && !done
        invariant
            n == min_nat(cap as nat, objs@.len()),
            n <= order@.len(),
            i <= n,
            ov == order@.map_values(|u: usize| u as int),
            bv == match bound { Some(b) => Some(b as nat), None => None },
            order@.len() == objs@.len(),
            forall|k: int| 0 <= k < order@.len() ==> #[trigger] order@[k] < objs@.len(),
            forall|k: int| 0 <= k < objs@.len() ==> RetrievalPipeline::texts_fit(#[trigger] objs@[k]),
            acc.bounded(),
            acc.items@.len() <= init_len + i,
            init_len + cap <= 45,
            done ==> run_objects(init, objs@, ov, 0, n as nat, level, total as nat, bv) == acc.state(),
            !done ==> run_objects(init, objs@, ov, 0, n as nat, level, total as nat, bv) == run_objects(acc.state(), objs@, ov, i as nat, n as nat, level, total as nat, bv),
        decreases n - i,
    {
        if acc.used >= total {
            acc.stopped = true;
            done = true;
        } else {
            let o = order[i];
            assert(ov[i as int] == o as int);
            proof {
                lemma_item_cost(objs@[o as int], level, CompressionTier::Summary);
            }
            match object_to_item(&objs[o], level, CompressionTier::Summary) {
                None => {},
                Some(it) => {
                    let cost = ContextBudget::estimate_tokens(it.content.as_str());
                    proof {
                        lemma_cap_step(acc.items@.len(), acc.used as nat, cost as nat);
                    }
                    match bound {
                        Some(bd) => {
                            if acc.used + cost > bd {
                                acc.stopped = true;
                                done = true;
                            } else {
                                push_item(acc, it, cost);
                            }
                        },
                        None => {
                            push_item(acc, it, cost);
                        },
                    }
                },
            }
        }
        i += 1;
    }
}

/// The symbols' contribution.
fn symbol_content(s: &Symbol) -> (r: String)
    ensures
        r@ == sym_content(*s),
{
    match &s.signature {
        Some(sig) => sig.clone(),
        None => {
            let mut out = text::owned(s.kind.label());
            text::push_str(&mut out, " ");
            text::push_str(&mut out, s.name.as_str());
            out
        },
    }
}

/// Positions of the symbols that match the terms.
fn matching_indices(syms: &Vec<Symbol>, terms: &Vec<String>) -> (r: Vec<usize>)
    requires
        terms@.len() <= i32::MAX,
    ensures
        r@.map_values(|k: usize| syms@[k as int]) == matching(syms@, graph::views(terms@)),
        forall|k: int| 0 <= k < r@.len() ==> #[trigger] r@[k] < syms@.len(),
{
    let mut out: Vec<usize> = Vec::new();
    let mut i: usize = 0;
    while i < syms.len()
        invariant
            i <= syms@.len(),
            terms@.len() <= i32::MAX,
            out@.map_values(|k: usize| syms@[k as int]) == matching(syms@.take(i as int), graph::views(terms@)),
            forall|k: int| 0 <= k < out@.len() ==> #[trigger] out@[k] < i,
        decreases syms@.len() - i,
    {
        let s = &syms[i];
        let mut t = s.name.clone();
        text::push_str(&mut t, " ");
        text::push_str(&mut t, s.path.as_str());
        let ghost pre = out@.map_values(|k: usize| syms@[k as int]);
        assert(syms@.take(i + 1).drop_last() =~= syms@.take(i as int));
        assert(syms@.take(i + 1).last() == *s);
        if score_text(t.as_str(), terms) > 0 {
            out.push(i);
            assert(out@.map_values(|k: usize| syms@[k as int]) =~= pre.push(*s));
        }
        i += 1;
    }
    assert(syms@.take(syms@.len() as int) =~= syms@);
    out
}

/// Runs `run_symbols` over the first 20 matching symbols.
fn run_symbols_exec(acc: &mut Acc, syms: &Vec<Symbol>, idx: &Vec<usize>, code: usize)
    requires
        old(acc).bounded(),
        old(acc).items@.len() + 20 <= 45,
        forall|k: int| 0 <= k < idx@.len() ==> #[trigger] idx@[k] < syms@.len(),
        forall|k: int| 0 <= k < syms@.len() ==> RetrievalPipeline::symbol_fits(#[trigger] syms@[k]),
    ensures
        final(acc).state() == run_symbols(
            old(acc).state(),
            idx@.map_values(|k: usize| syms@[k as int]),
            0,
            min_nat(20, idx@.len()),
            code as nat,
            0,
        ),
        final(acc).bounded(),
        final(acc).items@.len() <= old(acc).items@.len() + 20,
{
    let ghost ms = idx@.map_values(|k: usize| syms@[k as int]);
    let ghost init = acc.state();
    let ghost init_len = acc.items@.len();
    let ghost init_used = acc.used;
    let n = if idx.len() < 20 { idx.len() } else { 20 };
    let mut spent: usize = 0;
    let mut i: usize = 0;
    let mut done = false;
    while i < n && !done
        invariant
            n == min_nat(20, idx@.len()),
            i <= n <= idx@.len(),
            ms == idx@.map_values(|k: usize| syms@[k as int]),
            forall|k: int| 0 <= k < idx@.len() ==> #[trigger] idx@[k] < syms@.len(),
            forall|k: int| 0 <= k < syms@.len() ==> RetrievalPipeline::symbol_fits(#[trigger] syms@[k]),
            acc.bounded(),
            acc.items@.len() <= init_len + i,
            init_len + 20 <= 45,
            init_used + spent == acc.used,
            done ==> run_symbols(init, ms, 0, n as nat, code as nat, 0) == acc.state(),
            !done ==> run_symbols(init, ms, 0, n as nat, code as nat, 0) == run_symbols(acc.state(), ms, i as nat, n as nat, code as nat, spent as nat),
        decreases n - i,
    {
        if spent >= code {
            acc.stopped = true;
            done = true;
        } else {
            let s = &syms[idx[i]];
            assert(ms[i as int] == *s);
            let content = symbol_content(s);
            let cost = ContextBudget::estimate_tokens(content.as_str());
            proof {
                assert(RetrievalPipeline::symbol_fits(syms@[idx@[i as int] as int]));
                lemma_cap_step(acc.items@.len(), acc.used as nat, cost as nat);
            }
            if spent + cost > code {
                acc.stopped = true;
                done = true;
            } else {
                let mut path: Vec<String> = Vec::new();
                path.push(text::owned("query"));
                path.push(s.path.clone());
                path.push(s.name.clone());
                let item = RetrievedItem {
                    level: MemoryLevel::L1ActiveSymbols,
                    object_id: s.id.clone(),
                    tier: CompressionTier::Summary,
                    content,
                    confidence_reason: text::owned("symbol name/path match"),
                    retrieval_path: path,
                };
                assert(item@.path =~= seq!["query"@, s.path@, s.name@]);
                push_item(acc, item, cost);
                spent = spent + cost;
            }
        }
        i += 1;
    }
}


/// Ids of the module items, in order.
fn module_item_ids(items: &Vec<RetrievedItem>) -> (r: Vec<String>)
    ensures
        graph::views(r@) == module_ids(items@.map_values(|i: RetrievedItem| i@)),
{
    let ghost iv = items@.map_values(|i: RetrievedItem| i@);
    let mut out: Vec<String> = Vec::new();
    let mut k: usize = 0;
    while k < items.len()
        invariant
            k <= items@.len(),
            iv == items@.map_values(|i: RetrievedItem| i@),
            graph::views(out@) == module_ids(iv.take(k as int)),
        decreases items@.len() - k,
    {
        let ghost pre = graph::views(out@);
        assert(iv.take(k + 1).drop_last() =~= iv.take(k as int));
        assert(iv.take(k + 1).last() == items@[k as int]@);
        if items[k].level == MemoryLevel::L2Module {
            out.push(items[k].object_id.clone());
            assert(graph::views(out@) =~= pre.push(items@[k as int].object_id@));
        }
        k += 1;
    }
    assert(iv.take(items@.len() as int) =~= iv);
    out
}

/// Position of the first symbol whose id or file is `node`.
fn find_symbol_index(syms: &Vec<Symbol>, node: &String) -> (r: Option<usize>)
    ensures
        match r {
            Some(k) => k < syms@.len() && find_symbol(syms@, node@) == Some(syms@[k as int]),
            None => find_symbol(syms@, node@) is None,
        },
{
    let mut i: usize = 0;
    assert(syms@.skip(0) =~= syms@);
    while i < syms.len()
        invariant
            i <= syms@.len(),
            find_symbol(syms@, node@) == find_symbol(syms@.skip(i as int), node@),
        decreases syms@.len() - i,
    {
        assert(syms@.skip(i as int)[0] == syms@[i as int]);
        assert(syms@.skip(i as int).drop_first() =~= syms@.skip(i + 1));
        if syms[i].id == *node || syms[i].path == *node {
            return Some(i);
        }
        i += 1;
    }
    None
}

/// Runs `run_neighbors` over the first ten expanded nodes.
fn run_neighbors_exec(acc: &mut Acc, nodes: &Vec<String>, syms: &Vec<Symbol>, dep: usize)
    requires
        old(acc).bounded(),
        old(acc).items@.len() + 10 <= 45,
        forall|k: int| 0 <= k < syms@.len() ==> RetrievalPipeline::symbol_fits(#[trigger] syms@[k]),
    ensures
        final(acc).state() == run_neighbors(
            old(acc).state(),
            graph::views(nodes@),
            syms@,
            0,
            min_nat(10, nodes@.len()),
            dep as nat,
            0,
        ),
        final(acc).bounded(),
        final(acc).items@.len() <= old(acc).items@.len() + 10,
{
    let ghost nv = graph::views(nodes@);
    let ghost init = acc.state();
    let ghost init_len = acc.items@.len();
    let ghost init_used = acc.used;
    let n = if nodes.len() < 10 { nodes.len() } else { 10 };
    let mut spent: usize = 0;
    let mut i: usize = 0;
    let mut done = false;
    while i < n && !done
        invariant
            n == min_nat(10, nodes@.len()),
            i <= n <= nodes@.len(),
            nv == graph::views(nodes@),
            forall|k: int| 0 <= k < syms@.len() ==> RetrievalPipeline::symbol_fits(#[trigger] syms@[k]),
            acc.bounded(),
            acc.items@.len() <= init_len + i,
            init_len + 10 <= 45,
            init_used + spent == acc.used,
            done ==> run_neighbors(init, nv, syms@, 0, n as nat, dep as nat, 0) == acc.state(),
            !done ==> run_neighbors(init, nv, syms@, 0, n as nat, dep as nat, 0) == run_neighbors(acc.state(), nv, syms@, i as nat, n as nat, dep as nat, spent as nat),
        decreases n - i,
    {
        if spent >= dep {
            acc.stopped = true;
            done = true;
        } else {
            let node = &nodes[i];
            assert(nv[i as int] == node@);
            match find_symbol_index(syms, node) {
                None => {},
                Some(k) => {
                    let s = &syms[k];
                    let mut content = text::owned("neighbor: ");
                    text::push_str(&mut content, s.name.as_str());
                    text::push_str(&mut content, " at ");
                    text::push_str(&mut content, s.path.as_str());
                    let cost = ContextBudget::estimate_tokens(content.as_str());
                    proof {
                        assert(RetrievalPipeline::symbol_fits(syms@[k as int]));
                        assert(content@ =~= nb_content(*s));
                        lemma_cap_step(acc.items@.len(), acc.used as nat, cost as nat);
                    }
                    let mut path: Vec<String> = Vec::new();
                    path.push(text::owned("graph"));
                    path.push(node.clone());
                    let item = RetrievedItem {
                        level: MemoryLevel::L1ActiveSymbols,
                        object_id: s.id.clone(),
                        tier: CompressionTier::UltraSummary,
                        content,
                        confidence_reason: text::owned("dependency graph neighbor"),
                        retrieval_path: path,
                    };
                    assert(item@.path =~= seq!["graph"@, node@]);
                    push_item(acc, item, cost);
                    spent = spent + cost;
                },
            }
        }
        i += 1;
    }
}

impl RetrievalPipeline {
    pub fn new(
        graph: DependencyGraph,
        symbols: Vec<Symbol>,
        architecture: Vec<MemoryObject>,
        subsystems: Vec<MemoryObject>,
        modules: Vec<MemoryObject>,
        historical: Vec<MemoryObject>,
    ) -> (r: RetrievalPipeline)
        ensures
            r.graph == graph,
            r.symbols == symbols,
            r.architecture == architecture,
            r.subsystems == subsystems,
            r.modules == modules,
            r.historical == historical,
    {
        RetrievalPipeline { graph, symbols, architecture, subsystems, modules, historical }
    }

    /// Assembles context for a query within a budget: the best architecture object, then up
    /// to 3 subsystems, 8 modules, 20 matching symbols, 10 graph neighbors of the modules and
    /// 3 historical entries, each phase stopping early when its budget is spent.
    pub fn query(&self, query: &str, budget: ContextBudget) -> (r: AssembledContext)
        requires
            self.fits(query@),
            budget.architecture + budget.active_files + budget.active_files / 2 <= usize::MAX,
        ensures
            r.query@ == query@,
            r.budget == budget,
            r.items@.map_values(|i: RetrievedItem| i@) == self.retrieve(query@, budget).items,
            r.estimated_tokens as nat == self.retrieve(query@, budget).used,
            r.stopped_early == self.retrieve(query@, budget).stopped,
    {
        let terms = tokenize(query);
        proof {
            lemma_objects_fit_terms(self.architecture@, query@, terms@.len());
            lemma_objects_fit_terms(self.subsystems@, query@, terms@.len());
            lemma_objects_fit_terms(self.modules@, query@, terms@.len());
            lemma_objects_fit_terms(self.historical@, query@, terms@.len());
        }
        let ghost tv = graph::views(terms@);
        let mut acc = Acc { items: Vec::new(), used: 0, stopped: false };
        assert(acc.state().items =~= Seq::<ItemView>::empty());

        // L4 architecture
        if 0 < budget.architecture {
            match RetrievalPipeline::best_match(&self.architecture, &terms, budget.architecture) {
                Some(item) => {
                    let cost = ContextBudget::estimate_tokens(item.content.as_str());
                    proof {
                        let i = last_max(scored(self.architecture@, tv))->0;
                        lemma_last_max_range(scored(self.architecture@, tv));
                        assert(RetrievalPipeline::object_fits(self.architecture@[i], query@));
                        lemma_item_cost(self.architecture@[i], self.architecture@[i].kind.level_of(), CompressionTier::Summary);
                        lemma_item_cost(self.architecture@[i], self.architecture@[i].kind.level_of(), CompressionTier::UltraSummary);
                    }
                    push_item(&mut acc, item, cost);
                },
                None => {},
            }
        }

        // L3 subsystems
        let sub_budget = budget.active_files / 2;
        let order = rank(&self.subsystems, &terms);
        run_objects_exec(
            &mut acc,
            &self.subsystems,
            &order,
            3,
            MemoryLevel::L3Subsystem,
            budget.total_tokens,
            Some(budget.architecture + sub_budget),
        );

        // L2 modules
        let order = rank(&self.modules, &terms);
        run_objects_exec(
            &mut acc,
            &self.modules,
            &order,
            8,
            MemoryLevel::L2Module,
            budget.total_tokens,
            Some(budget.architecture + budget.active_files + sub_budget),
        );

        // L1 symbols
        let idx = matching_indices(&self.symbols, &terms);
        run_symbols_exec(&mut acc, &self.symbols, &idx, budget.code);

        // Dependency expansion from the module hits
        let seeds = module_item_ids(&acc.items);
        if seeds.len() > 0 {
            let expanded = self.graph.expand(&seeds, 1);
            run_neighbors_exec(&mut acc, &expanded, &self.symbols, budget.dependency_expansion);
        }

        // L5 historical
        let order = rank(&self.historical, &terms);
        run_objects_exec(
            &mut acc,
            &self.historical,
            &order,
            3,
            MemoryLevel::L5Historical,
            budget.total_tokens,
            None,
        );

        AssembledContext {
            query: text::owned(query),
            items: acc.items,
            estimated_tokens: acc.used,
            budget,
            stopped_early: acc.stopped,
        }
    }
}

// ---------------------------------------------------------------------------
// Machine limits
// ---------------------------------------------------------------------------

fn opt_tokens(o: &Option<String>) -> (r: usize)
    ensures
        r == budget::tokens_of(or_empty(*o)),
{
    match o {
        Some(s) => ContextBudget::estimate_tokens(s.as_str()),
        None => {
            proof {
                reveal_strlit("");
            }
            ContextBudget::estimate_tokens("")
        },
    }
}

fn object_fits_exec(o: &MemoryObject, qlen: usize) -> (r: bool)
    requires
        qlen <= i32::MAX,
    ensures
        r == (RetrievalPipeline::texts_fit(*o) && qlen * (12 + 2 * o.text.keywords@.len()) <= i32::MAX),
{
    let cap = usize::MAX / 64;
    if opt_tokens(&o.text.raw) > cap || opt_tokens(&o.text.summary) > cap || opt_tokens(&o.text.ultra_summary) > cap {
        return false;
    }
    if qlen == 0 {
        return true;
    }
    let kw = o.text.keywords.len();
    if kw >= 0x4000_0000 {
        assert(qlen * (12 + 2 * kw) > i32::MAX) by (nonlinear_arith)
            requires
                qlen >= 1,
                kw >= 0x4000_0000,
        ;
        return false;
    }
    let f: u64 = 12 + 2 * (kw as u64);
    assert((qlen as u64) * f <= 0x7fff_ffff * 0x8000_000c) by (nonlinear_arith)
        requires
            qlen <= 0x7fff_ffff,
            f <= 0x8000_000c,
    ;
    (qlen as u64) * f <= 0x7fff_ffff
}

fn objects_fit(objs: &Vec<MemoryObject>, qlen: usize, q: Ghost<Seq<char>>) -> (r: bool)
    requires
        qlen == query_terms(q@).len(),
        qlen <= i32::MAX,
    ensures
        r == forall|k: int| 0 <= k < objs@.len() ==> RetrievalPipeline::object_fits(#[trigger] objs@[k], q@),
{
    let mut i: usize = 0;
    while i < objs.len()
        invariant
            i <= objs@.len(),
            qlen == query_terms(q@).len(),
            qlen <= i32::MAX,
            forall|k: int| 0 <= k < i ==> RetrievalPipeline::object_fits(#[trigger] objs@[k], q@),
        decreases objs@.len() - i,
    {
        if !object_fits_exec(&objs[i], qlen) {
            assert(!RetrievalPipeline::object_fits(objs@[i as int], q@));
            return false;
        }
        i += 1;
    }
    true
}

impl RetrievalPipeline {
    /// Whether the token counts and scores of a query stay within the machine's integers,
    /// so that `query` may be asked.
    pub fn accepts(&self, query: &str) -> (r: bool)
        ensures
            r == self.fits(query@),
    {
        let terms = tokenize(query);
        let qlen = terms.len();
        if qlen > 0x7fff_ffff {
            return false;
        }
        let g = Ghost(query@);
        if !objects_fit(&self.architecture, qlen, g) || !objects_fit(&self.subsystems, qlen, g)
            || !objects_fit(&self.modules, qlen, g) || !objects_fit(&self.historical, qlen, g) {
            return false;
        }
        let cap = usize::MAX / 64;
        let mut i: usize = 0;
        while i < self.symbols.len()
            invariant
                i <= self.symbols@.len(),
                cap == Self::cost_cap(),
                forall|k: int| 0 <= k < i ==> Self::symbol_fits(#[trigger] self.symbols@[k]),
            decreases self.symbols@.len() - i,
        {
            let s = &self.symbols[i];
            let c = symbol_content(s);
            let mut n = text::owned("neighbor: ");
            text::push_str(&mut n, s.name.as_str());
            text::push_str(&mut n, " at ");
            text::push_str(&mut n, s.path.as_str());
            if ContextBudget::estimate_tokens(c.as_str()) > cap || ContextBudget::estimate_tokens(n.as_str()) > cap {
                return false;
            }
            i += 1;
        }
        true
    }
}

// ---------------------------------------------------------------------------
// Accounting law
// ---------------------------------------------------------------------------

/// The token estimates of the items' contents, summed.
pub open spec fn sum_tokens(items: Seq<ItemView>) -> nat
    decreases items.len(),
{
    if items.len() == 0 {
        0
    } else {
        sum_tokens(items.drop_last()) + budget::tokens_of(items.last().content)
    }
}

/// The state's token count is the sum over its items.
pub open spec fn accounted(st: QState) -> bool {
    st.used == sum_tokens(st.items)
}

proof fn lemma_add_item_accounted(st: QState, it: ItemView)
    requires
        accounted(st),
    ensures
        accounted(add_item(st, it)),
{
    assert(add_item(st, it).items.drop_last() =~= st.items);
}

proof fn lemma_run_objects_accounted(
    st: QState,
    objs: Seq<MemoryObject>,
    order: Seq<int>,
    i: nat,
    n: nat,
    level: MemoryLevel,
    total: nat,
    bound: Option<nat>,
)
    requires
        accounted(st),
    ensures
        accounted(run_objects(st, objs, order, i, n, level, total, bound)),
    decreases n - i,
{
    if i < n && st.used < total {
        match item_of(objs[order[i as int]], level, CompressionTier::Summary) {
            None => lemma_run_objects_accounted(st, objs, order, i + 1, n, level, total, bound),
            Some(it) => {
                lemma_add_item_accounted(st, it);
                lemma_run_objects_accounted(add_item(st, it), objs, order, i + 1, n, level, total, bound);
            },
        }
    }
}

proof fn lemma_run_symbols_accounted(st: QState, syms: Seq<Symbol>, i: nat, n: nat, code: nat, spent: nat)
    requires
        accounted(st),
    ensures
        accounted(run_symbols(st, syms, i, n, code, spent)),
    decreases n - i,
{
    if i < n && spent < code {
        let c = budget::tokens_of(sym_content(syms[i as int]));
        if spent + c <= code {
            lemma_add_item_accounted(st, sym_item(syms[i as int]));
            lemma_run_symbols_accounted(add_item(st, sym_item(syms[i as int])), syms, i + 1, n, code, spent + c);
        }
    }
}

proof fn lemma_run_neighbors_accounted(
    st: QState,
    nodes: Seq<Seq<char>>,
    syms: Seq<Symbol>,
    i: nat,
    n: nat,
    dep: nat,
    spent: nat,
)
    requires
        accounted(st),
    ensures
        accounted(run_neighbors(st, nodes, syms, i, n, dep, spent)),
    decreases n - i,
{
    if i < n && spent < dep {
        match find_symbol(syms, nodes[i as int]) {
            None => lemma_run_neighbors_accounted(st, nodes, syms, i + 1, n, dep, spent),
            Some(s) => {
                lemma_add_item_accounted(st, nb_item(s, nodes[i as int]));
                lemma_run_neighbors_accounted(
                    add_item(st, nb_item(s, nodes[i as int])),
                    nodes,
                    syms,
                    i + 1,
                    n,
                    dep,
                    spent + budget::tokens_of(nb_content(s)),
                );
            },
        }
    }
}

/// Accounting law: the estimated tokens of assembled context are exactly the token
/// estimates of the retrieved items' contents, summed.
pub proof fn lemma_retrieval_accounting(p: RetrievalPipeline, q: Seq<char>, b: ContextBudget)
    ensures
        p.retrieve(q, b).used == sum_tokens(p.retrieve(q, b).items),
{
    let terms = query_terms(q);
    let s0 = QState { items: Seq::empty(), used: 0, stopped: false };
    let s1 = if 0 < b.architecture {
        match arch_item(p.architecture@, terms, b.architecture as nat) {
            Some(it) => add_item(s0, it),
            None => s0,
        }
    } else {
        s0
    };
    if 0 < b.architecture {
        if let Some(it) = arch_item(p.architecture@, terms, b.architecture as nat) {
            lemma_add_item_accounted(s0, it);
        }
    }
    let sub_budget = b.active_files / 2;
    let s2 = run_objects(s1, p.subsystems@, rank_order(p.subsystems@, terms), 0, min_nat(3, p.subsystems@.len()), MemoryLevel::L3Subsystem, b.total_tokens as nat, Some((b.architecture + sub_budget) as nat));
    lemma_run_objects_accounted(s1, p.subsystems@, rank_order(p.subsystems@, terms), 0, min_nat(3, p.subsystems@.len()), MemoryLevel::L3Subsystem, b.total_tokens as nat, Some((b.architecture + sub_budget) as nat));
    let s3 = run_objects(s2, p.modules@, rank_order(p.modules@, terms), 0, min_nat(8, p.modules@.len()), MemoryLevel::L2Module, b.total_tokens as nat, Some((b.architecture + b.active_files + sub_budget) as nat));
    lemma_run_objects_accounted(s2, p.modules@, rank_order(p.modules@, terms), 0, min_nat(8, p.modules@.len()), MemoryLevel::L2Module, b.total_tokens as nat, Some((b.architecture + b.active_files + sub_budget) as nat));
    let syms = matching(p.symbols@, terms);
    let s4 = run_symbols(s3, syms, 0, min_nat(20, syms.len()), b.code as nat, 0);
    lemma_run_symbols_accounted(s3, syms, 0, min_nat(20, syms.len()), b.code as nat, 0);
    let seeds = module_ids(s4.items);
    let s5 = if seeds.len() == 0 {
        s4
    } else {
        let ex = graph::expand_of(p.graph.edge_views(), seeds, 1);
        run_neighbors(s4, ex, p.symbols@, 0, min_nat(10, ex.len()), b.dependency_expansion as nat, 0)
    };
    if seeds.len() != 0 {
        let ex = graph::expand_of(p.graph.edge_views(), seeds, 1);
        lemma_run_neighbors_accounted(s4, ex, p.symbols@, 0, min_nat(10, ex.len()), b.dependency_expansion as nat, 0);
    }
    lemma_run_objects_accounted(s5, p.historical@, rank_order(p.historical@, terms), 0, min_nat(3, p.historical@.len()), MemoryLevel::L5Historical, b.total_tokens as nat, None);
}

proof fn lemma_run_symbols_within(st: QState, syms: Seq<Symbol>, i: nat, n: nat, code: nat, spent: nat)
    requires
        spent <= code,
    ensures
        run_symbols(st, syms, i, n, code, spent).used + spent <= st.used + code,
        st.items.len() <= run_symbols(st, syms, i, n, code, spent).items.len(),
    decreases n - i,
{
    if i < n && spent < code {
        let c = budget::tokens_of(sym_content(syms[i as int]));
        if spent + c <= code {
            lemma_run_symbols_within(add_item(st, sym_item(syms[i as int])), syms, i + 1, n, code, spent + c);
        }
    }
}

/// Symbols never take more than the code budget: the symbol phase of a retrieval adds at most
/// `code` tokens to what the earlier phases used.
pub proof fn lemma_symbol_phase_within_code(st: QState, syms: Seq<Symbol>, n: nat, code: nat)
    ensures
        run_symbols(st, syms, 0, n, code, 0).used <= st.used + code,
{
    lemma_run_symbols_within(st, syms, 0, n, code, 0);
}
} // verus!
