//! Lessons and decisions extracted from a session summary.
use vstd::prelude::*;
use crate::graph;
use crate::text;

verus! {

/// What a finished task taught: lessons, abstractions, architecture changes, mistakes and
/// decisions.
#[derive(Debug, Clone)]
pub struct Reflection {
    pub lessons: Vec<String>,
    pub abstractions: Vec<String>,
    pub architecture_changes: Vec<String>,
    pub mistakes: Vec<String>,
    pub decisions: Vec<String>,
}

/// A line as a bullet: trimmed, leading dashes removed, trimmed again.
pub open spec fn bullet_text(line: Seq<char>) -> Seq<char> {
    text::trim(text::strip_prefix_all(text::trim(line), "-"@))
}

/// A line speaks of `keyword` when, lowercased, it contains the keyword and its bullet is not
/// empty.
pub open spec fn speaks_of(line: Seq<char>, keyword: Seq<char>) -> bool {
    text::contains(text::unicode_lowercase(line), keyword) && bullet_text(line).len() > 0
}

/// The bullets of the lines that speak of `keyword`.
pub open spec fn all_bullets(lines: Seq<Seq<char>>, keyword: Seq<char>) -> Seq<Seq<char>>
    decreases lines.len(),
{
    if lines.len() == 0 {
        Seq::empty()
    } else {
        let prev = all_bullets(lines.drop_last(), keyword);
        let l = lines.last();
        if speaks_of(l, keyword) {
            prev.push(bullet_text(l))
        } else {
            prev
        }
    }
}

/// The first five bullets about `keyword` in `summary`.
pub open spec fn bullets_of(summary: Seq<char>, keyword: Seq<char>) -> Seq<Seq<char>> {
    let all = all_bullets(text::lines(summary), keyword);
    if all.len() <= 5 {
        all
    } else {
        all.take(5)
    }
}

fn extract_bullets(summary: &str, keyword: &str) -> (r: Vec<String>)
    ensures
        graph::views(r@) == bullets_of(summary@, keyword@),
{
    let lines = text::lines_of(summary);
    let ghost lv = graph::views(lines@);
    assert(lv =~= lines@.map_values(|x: String| x@));
    let mut all: Vec<String> = Vec::new();
    let mut i: usize = 0;
    while i < lines.len()
        invariant
            i <= lines@.len(),
            lv == graph::views(lines@),
            graph::views(all@) == all_bullets(lv.take(i as int), keyword@),
        decreases lines@.len() - i,
    {
        let l = lines[i].as_str();
        let ghost pre = graph::views(all@);
        assert(lv.take(i + 1).drop_last() =~= lv.take(i as int));
        assert(lv.take(i + 1).last() == l@);
        let lower = text::to_lowercase(l);
        if text::str_contains(lower.as_str(), keyword) {
            let t = text::trim_str(l);
            let t = text::strip_prefix_all_str(t.as_str(), "-");
            let t = text::trim_str(t.as_str());
            if !t.as_str().is_empty() {
                all.push(t);
                assert(graph::views(all@) =~= pre.push(bullet_text(l@)));
            }
        }
        i += 1;
    }
    assert(lv.take(lines@.len() as int) =~= lv);
    if all.len() <= 5 {
        all
    } else {
        let mut out: Vec<String> = Vec::new();
        let mut k: usize = 0;
        while k < 5
            invariant
                k <= 5 < all@.len(),
                graph::views(out@) == graph::views(all@).take(k as int),
            decreases 5 - k,
        {
            let ghost pre = graph::views(out@);
            out.push(all[k].clone());
            assert(graph::views(out@) =~= pre.push(all@[k as int]@));
            assert(graph::views(all@).take(k + 1) =~= graph::views(all@).take(k as int).push(all@[k as int]@));
            k += 1;
        }
        out
    }
}

impl Reflection {
    /// The five kinds of bullets of a reflection on a session summary.
    pub open spec fn reflects(self, summary: Seq<char>) -> bool {
        &&& graph::views(self.lessons@) == bullets_of(summary, "lesson"@)
        &&& graph::views(self.abstractions@) == bullets_of(summary, "abstraction"@)
        &&& graph::views(self.architecture_changes@) == bullets_of(summary, "architecture"@)
        &&& graph::views(self.mistakes@) == bullets_of(summary, "mistake"@)
        &&& graph::views(self.decisions@) == bullets_of(summary, "decision"@)
    }

    pub fn from_session_summary(summary: &str) -> (r: Reflection)
        ensures
            r.reflects(summary@),
            r.holds_nothing() <==> says_nothing(summary@),
    {
        let r = Reflection {
            lessons: extract_bullets(summary, "lesson"),
            abstractions: extract_bullets(summary, "abstraction"),
            architecture_changes: extract_bullets(summary, "architecture"),
            mistakes: extract_bullets(summary, "mistake"),
            decisions: extract_bullets(summary, "decision"),
        };
        proof {
            lemma_empty_reflection(r, summary@);
        }
        r
    }

    /// No bullet of any kind.
    pub open spec fn holds_nothing(self) -> bool {
        &&& self.lessons@.len() == 0
        &&& self.abstractions@.len() == 0
        &&& self.architecture_changes@.len() == 0
        &&& self.mistakes@.len() == 0
        &&& self.decisions@.len() == 0
    }

    pub fn is_empty(&self) -> (r: bool)
        ensures
            r == self.holds_nothing(),
    {
        self.lessons.len() == 0 && self.abstractions.len() == 0 && self.architecture_changes.len()
            == 0 && self.mistakes.len() == 0 && self.decisions.len() == 0
    }
}

/// No line of `summary` speaks of a lesson, an abstraction, an architecture change, a
/// mistake or a decision.
pub open spec fn says_nothing(summary: Seq<char>) -> bool {
    forall|l: Seq<char>| #[trigger] text::lines(summary).contains(l) ==> {
        &&& !speaks_of(l, "lesson"@)
        &&& !speaks_of(l, "abstraction"@)
        &&& !speaks_of(l, "architecture"@)
        &&& !speaks_of(l, "mistake"@)
        &&& !speaks_of(l, "decision"@)
    }
}

proof fn lemma_no_bullets(lines: Seq<Seq<char>>, keyword: Seq<char>)
    ensures
        all_bullets(lines, keyword).len() == 0 <==> forall|l: Seq<char>| #[trigger] lines.contains(l) ==> !speaks_of(l, keyword),
    decreases lines.len(),
{
    if lines.len() > 0 {
        let d = lines.drop_last();
        lemma_no_bullets(d, keyword);
        if all_bullets(lines, keyword).len() == 0 {
            assert forall|l: Seq<char>| #[trigger] lines.contains(l) implies !speaks_of(l, keyword) by {
                let k = choose|k: int| 0 <= k < lines.len() && lines[k] == l;
                if k < d.len() {
                    assert(d[k] == l);
                    assert(d.contains(l));
                }
            }
        } else {
            if !speaks_of(lines.last(), keyword) {
                let l = choose|l: Seq<char>| #[trigger] d.contains(l) && speaks_of(l, keyword);
                let k = choose|k: int| 0 <= k < d.len() && d[k] == l;
                assert(lines[k] == l);
                assert(lines.contains(l));
            } else {
                assert(lines.contains(lines[lines.len() - 1]));
            }
        }
    }
}

proof fn lemma_bullets_empty(summary: Seq<char>, keyword: Seq<char>)
    ensures
        bullets_of(summary, keyword).len() == 0 <==> forall|l: Seq<char>| #[trigger] text::lines(summary).contains(l)
            ==> !speaks_of(l, keyword),
{
    lemma_no_bullets(text::lines(summary), keyword);
}

/// A reflection on a session summary holds nothing exactly when no line of the summary
/// speaks of a lesson, an abstraction, an architecture change, a mistake or a decision.
pub proof fn lemma_empty_reflection(r: Reflection, summary: Seq<char>)
    requires
        r.reflects(summary),
    ensures
        r.holds_nothing() <==> says_nothing(summary),
{
    lemma_bullets_empty(summary, "lesson"@);
    lemma_bullets_empty(summary, "abstraction"@);
    lemma_bullets_empty(summary, "architecture"@);
    lemma_bullets_empty(summary, "mistake"@);
    lemma_bullets_empty(summary, "decision"@);
    assert(r.lessons@.len() == graph::views(r.lessons@).len());
    assert(r.abstractions@.len() == graph::views(r.abstractions@).len());
    assert(r.architecture_changes@.len() == graph::views(r.architecture_changes@).len());
    assert(r.mistakes@.len() == graph::views(r.mistakes@).len());
    assert(r.decisions@.len() == graph::views(r.decisions@).len());
}

/// Every bullet of a reflection is non-empty, and there are at most five of each kind.
pub proof fn lemma_bullets_bounded(summary: Seq<char>, keyword: Seq<char>)
    ensures
        bullets_of(summary, keyword).len() <= 5,
        forall|k: int| 0 <= k < bullets_of(summary, keyword).len() ==> #[trigger] bullets_of(summary, keyword)[k].len() > 0,
{
    lemma_all_bullets_nonempty(text::lines(summary), keyword);
}

proof fn lemma_all_bullets_nonempty(lines: Seq<Seq<char>>, keyword: Seq<char>)
    ensures
        forall|k: int| 0 <= k < all_bullets(lines, keyword).len() ==> #[trigger] all_bullets(lines, keyword)[k].len() > 0,
    decreases lines.len(),
{
    if lines.len() > 0 {
        lemma_all_bullets_nonempty(lines.drop_last(), keyword);
        let prev = all_bullets(lines.drop_last(), keyword);
        let cur = all_bullets(lines, keyword);
        assert forall|k: int| 0 <= k < cur.len() implies #[trigger] cur[k].len() > 0 by {
            if k < prev.len() {
                assert(cur[k] == prev[k]);
            }
        }
    }
}

} // verus!
