//! A lightweight semantic layer: keyword overlap between queries and memory objects.
use vstd::prelude::*;
use crate::compression;
use crate::graph;
use crate::object::MemoryObject;
use crate::text;

verus! {

/// How many words of a summary stand in for missing keywords.
pub const SUMMARY_WORDS: usize = 10;

/// Keywords per object id, each id once, in order of first indexing.
pub struct SemanticIndex {
    vectors: Vec<(String, Vec<String>)>,
}

/// The content of an index entry.
pub open spec fn entry_view(p: (String, Vec<String>)) -> (Seq<char>, Seq<Seq<char>>) {
    (p.0@, graph::views(p.1@))
}

/// The keywords an object is indexed by: its own keywords, or else the first words of its
/// shortest summary, lower-cased.
pub open spec fn keywords_for(obj: MemoryObject) -> Seq<Seq<char>> {
    if obj.text.keywords@.len() > 0 {
        obj.text.keyword_views()
    } else {
        match compression::or_else(text::opt_chars(obj.text.ultra_summary), text::opt_chars(obj.text.summary)) {
            Some(s) => {
                let ws = text::words(s);
                let first = if ws.len() <= SUMMARY_WORDS {
                    ws
                } else {
                    ws.take(SUMMARY_WORDS as int)
                };
                first.map_values(|w: Seq<char>| text::unicode_lowercase(w))
            },
            None => Seq::empty(),
        }
    }
}

/// Position of the entry of `id`.
pub open spec fn entry_index(es: Seq<(Seq<char>, Seq<Seq<char>>)>, id: Seq<char>) -> Option<int>
    decreases es.len(),
{
    if es.len() == 0 {
        None
    } else {
        match entry_index(es.drop_last(), id) {
            Some(i) => Some(i),
            None => if es.last().0 == id {
                Some(es.len() - 1)
            } else {
                None
            },
        }
    }
}

/// The entry of `id` set to `kws`: replaced where it is, appended otherwise.
pub open spec fn set_entry(
    es: Seq<(Seq<char>, Seq<Seq<char>>)>,
    id: Seq<char>,
    kws: Seq<Seq<char>>,
) -> Seq<(Seq<char>, Seq<Seq<char>>)> {
    match entry_index(es, id) {
        Some(i) => es.update(i, (id, kws)),
        None => es.push((id, kws)),
    }
}

/// The entries of an index over some objects: a later object with an id already indexed
/// replaces its keywords.
pub open spec fn index_entries(objs: Seq<MemoryObject>) -> Seq<(Seq<char>, Seq<Seq<char>>)>
    decreases objs.len(),
{
    if objs.len() == 0 {
        Seq::empty()
    } else {
        set_entry(index_entries(objs.drop_last()), objs.last().id@, keywords_for(objs.last()))
    }
}

/// Some keyword contains the term.
pub open spec fn term_hit(kws: Seq<Seq<char>>, t: Seq<char>) -> bool {
    exists|k: int| 0 <= k < kws.len() && text::contains(kws[k], t)
}

/// How many of the terms some keyword contains.
pub open spec fn term_hits(kws: Seq<Seq<char>>, terms: Seq<Seq<char>>) -> nat
    decreases terms.len(),
{
    if terms.len() == 0 {
        0
    } else {
        term_hits(kws, terms.drop_last()) + if term_hit(kws, terms.last()) {
            1nat
        } else {
            0nat
        }
    }
}

/// The overlap of an object with the query terms: hits and number of terms; no hits for an
/// object that is not indexed.
pub open spec fn overlap_of(
    es: Seq<(Seq<char>, Seq<Seq<char>>)>,
    id: Seq<char>,
    terms: Seq<Seq<char>>,
) -> (nat, nat) {
    match entry_index(es, id) {
        Some(i) => (term_hits(es[i].1, terms), terms.len()),
        None => (0, terms.len()),
    }
}

proof fn lemma_entry_index_prefix(es: Seq<(Seq<char>, Seq<Seq<char>>)>, id: Seq<char>, j: int)
    requires
        0 <= j <= es.len(),
        entry_index(es.take(j), id) is None,
        j < es.len() ==> es[j].0 == id,
    ensures
        j < es.len() ==> entry_index(es, id) == Some(j),
        j == es.len() ==> entry_index(es, id) is None,
    decreases es.len(),
{
    if j == es.len() {
        assert(es.take(j) =~= es);
    } else if j == es.len() - 1 {
        assert(es.drop_last() =~= es.take(j));
    } else {
        assert(es.drop_last().take(j) =~= es.take(j));
        lemma_entry_index_prefix(es.drop_last(), id, j);
    }
}

fn keywords_of_object(obj: &MemoryObject) -> (r: Vec<String>)
    ensures
        graph::views(r@) == keywords_for(*obj),
{
    if obj.text.keywords.len() > 0 {
        let k = text::clone_strings(&obj.text.keywords);
        assert(graph::views(k@) =~= obj.text.keyword_views());
        return k;
    }
    let source = match &obj.text.ultra_summary {
        Some(u) => Some(u),
        None => match &obj.text.summary {
            Some(s) => Some(s),
            None => None,
        },
    };
    match source {
        Some(s) => {
            let ws = text::words_of(s.as_str());
            let ghost wv = ws@.map_values(|x: String| x@);
            let n = if ws.len() <= SUMMARY_WORDS {
                ws.len()
            } else {
                SUMMARY_WORDS
            };
            let ghost first = if wv.len() <= SUMMARY_WORDS {
                wv
            } else {
                wv.take(SUMMARY_WORDS as int)
            };
            let mut out: Vec<String> = Vec::new();
            let mut i: usize = 0;
            while i < n
                invariant
                    i <= n <= ws@.len(),
                    wv == ws@.map_values(|x: String| x@),
                    first.len() == n,
                    forall|k: int| 0 <= k < n ==> first[k] == wv[k],
                    graph::views(out@) == first.take(i as int).map_values(
                        |w: Seq<char>| text::unicode_lowercase(w),
                    ),
                decreases n - i,
            {
                let l = text::to_lowercase(ws[i].as_str());
                let ghost pre = graph::views(out@);
                out.push(l);
                assert(graph::views(out@) =~= pre.push(l@));
                assert(first.take(i + 1).map_values(|w: Seq<char>| text::unicode_lowercase(w))
                    =~= first.take(i as int).map_values(|w: Seq<char>| text::unicode_lowercase(w)).push(
                    text::unicode_lowercase(first[i as int]),
                ));
                i += 1;
            }
            assert(first.take(n as int) =~= first);
            out
        },
        None => Vec::new(),
    }
}

impl SemanticIndex {
    /// The entries of the index.
    pub closed spec fn entries(&self) -> Seq<(Seq<char>, Seq<Seq<char>>)> {
        self.vectors@.map_values(|p: (String, Vec<String>)| entry_view(p))
    }

    /// Indexes the objects by their keywords.
    pub fn from_objects(objects: &Vec<MemoryObject>) -> (r: SemanticIndex)
        ensures
            r.entries() == index_entries(objects@),
    {
        let mut vectors: Vec<(String, Vec<String>)> = Vec::new();
        let mut i: usize = 0;
        while i < objects.len()
            invariant
                i <= objects@.len(),
                vectors@.map_values(|p: (String, Vec<String>)| entry_view(p)) == index_entries(
                    objects@.take(i as int),
                ),
            decreases objects@.len() - i,
        {
            let obj = &objects[i];
            assert(objects@.take(i + 1).drop_last() =~= objects@.take(i as int));
            assert(objects@.take(i + 1).last() == *obj);
            let kws = keywords_of_object(obj);
            let ghost ev = vectors@.map_values(|p: (String, Vec<String>)| entry_view(p));
            let mut j: usize = 0;
            while j < vectors.len() && !text::str_eq(vectors[j].0.as_str(), obj.id.as_str())
                invariant
                    j <= vectors@.len(),
                    ev == vectors@.map_values(|p: (String, Vec<String>)| entry_view(p)),
                    entry_index(ev.take(j as int), obj.id@) is None,
                decreases vectors@.len() - j,
            {
                assert(ev.take(j + 1).drop_last() =~= ev.take(j as int));
                j += 1;
            }
            proof {
                lemma_entry_index_prefix(ev, obj.id@, j as int);
            }
            if j < vectors.len() {
                vectors.set(j, (obj.id.clone(), kws));
                assert(vectors@.map_values(|p: (String, Vec<String>)| entry_view(p)) =~= ev.update(
                    j as int,
                    (obj.id@, graph::views(kws@)),
                ));
            } else {
                vectors.push((obj.id.clone(), kws));
                assert(vectors@.map_values(|p: (String, Vec<String>)| entry_view(p)) =~= ev.push(
                    (obj.id@, graph::views(kws@)),
                ));
            }
            i += 1;
        }
        assert(objects@.take(objects@.len() as int) =~= objects@);
        SemanticIndex { vectors }
    }

    /// The keyword overlap of an object with the query terms, as the number of terms some
    /// keyword of the object contains and the number of terms. Their ratio is the score.
    pub fn score(&self, object_id: &str, query_terms: &Vec<String>) -> (r: (usize, usize))
        ensures
            (r.0 as nat, r.1 as nat) == overlap_of(self.entries(), object_id@, graph::views(query_terms@)),
    {
        let ghost ev = self.entries();
        let ghost tv = graph::views(query_terms@);
        let mut j: usize = 0;
        while j < self.vectors.len() && !text::str_eq(self.vectors[j].0.as_str(), object_id)
            invariant
                j <= self.vectors@.len(),
                ev == self.entries(),
                ev == self.vectors@.map_values(|p: (String, Vec<String>)| entry_view(p)),
                entry_index(ev.take(j as int), object_id@) is None,
            decreases self.vectors@.len() - j,
        {
            assert(ev.take(j + 1).drop_last() =~= ev.take(j as int));
            j += 1;
        }
        proof {
            lemma_entry_index_prefix(ev, object_id@, j as int);
        }
        if j == self.vectors.len() {
            return (0, query_terms.len());
        }
        let kws = &self.vectors[j].1;
        let ghost kv = graph::views(kws@);
        assert(kv == ev[j as int].1);
        let mut hits: usize = 0;
        let mut t: usize = 0;
        while t < query_terms.len()
            invariant
                t <= query_terms@.len(),
                tv == graph::views(query_terms@),
                kv == graph::views(kws@),
                hits == term_hits(kv, tv.take(t as int)),
                hits <= t,
            decreases query_terms@.len() - t,
        {
            assert(tv.take(t + 1).drop_last() =~= tv.take(t as int));
            assert(tv.take(t + 1).last() == query_terms@[t as int]@);
            let term = query_terms[t].as_str();
            let mut k: usize = 0;
            let mut hit = false;
            while k < kws.len() && !hit
                invariant
                    k <= kws@.len(),
                    kv == graph::views(kws@),
                    hit ==> term_hit(kv, term@),
                    !hit ==> forall|m: int| 0 <= m < k ==> !text::contains(kv[m], term@),
                decreases kws@.len() - k + if hit { 0int } else { 1int },
            {
                if text::str_contains(kws[k].as_str(), term) {
                    assert(text::contains(kv[k as int], term@));
                    hit = true;
                } else {
                    k += 1;
                }
            }
            if hit {
                hits += 1;
            }
            t += 1;
        }
        assert(tv.take(query_terms@.len() as int) =~= tv);
        (hits, query_terms.len())
    }
}

/// The hits never exceed the terms, so the score lies between 0 and 1.
pub proof fn lemma_overlap_bounded(es: Seq<(Seq<char>, Seq<Seq<char>>)>, id: Seq<char>, terms: Seq<Seq<char>>)
    ensures
        overlap_of(es, id, terms).0 <= overlap_of(es, id, terms).1,
        overlap_of(es, id, terms).1 == terms.len(),
{
    if let Some(i) = entry_index(es, id) {
        lemma_term_hits_bounded(es[i].1, terms);
    }
}

proof fn lemma_term_hits_bounded(kws: Seq<Seq<char>>, terms: Seq<Seq<char>>)
    ensures
        term_hits(kws, terms) <= terms.len(),
    decreases terms.len(),
{
    if terms.len() > 0 {
        lemma_term_hits_bounded(kws, terms.drop_last());
    }
}

} // verus!
