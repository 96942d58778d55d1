//! Progressive compression: raw text, summaries, keywords.
use vstd::prelude::*;
use crate::graph;
use crate::text;

verus! {

/// Progressive compression tiers. Models pick the smallest useful representation.
#[derive(Debug, Clone, Copy, PartialEq, Eq, Structural)]
pub enum CompressionTier {
    Raw,
    Summary,
    UltraSummary,
    Keywords,
    Embedding,
}

impl CompressionTier {
    /// The target size of a tier, in tokens (`usize::MAX` for raw text: no target).
    pub open spec fn target_of(self) -> nat {
        match self {
            CompressionTier::Raw => usize::MAX as nat,
            CompressionTier::Summary => 400,
            CompressionTier::UltraSummary => 100,
            CompressionTier::Keywords => 20,
            CompressionTier::Embedding => 0,
        }
    }

    /// The next smaller tier, if any.
    pub open spec fn next_of(self) -> Option<CompressionTier> {
        match self {
            CompressionTier::Raw => Some(CompressionTier::Summary),
            CompressionTier::Summary => Some(CompressionTier::UltraSummary),
            CompressionTier::UltraSummary => Some(CompressionTier::Keywords),
            CompressionTier::Keywords => Some(CompressionTier::Embedding),
            CompressionTier::Embedding => None,
        }
    }

    pub fn target_tokens(self) -> (r: usize)
        ensures
            r == self.target_of(),
    {
        match self {
            CompressionTier::Raw => usize::MAX,
            CompressionTier::Summary => 400,
            CompressionTier::UltraSummary => 100,
            CompressionTier::Keywords => 20,
            CompressionTier::Embedding => 0,
        }
    }

    pub fn next(self) -> (r: Option<CompressionTier>)
        ensures
            r == self.next_of(),
    {
        match self {
            CompressionTier::Raw => Some(CompressionTier::Summary),
            CompressionTier::Summary => Some(CompressionTier::UltraSummary),
            CompressionTier::UltraSummary => Some(CompressionTier::Keywords),
            CompressionTier::Keywords => Some(CompressionTier::Embedding),
            CompressionTier::Embedding => None,
        }
    }
}

/// Every step down the tier chain strictly shrinks the target size, and the chain ends at
/// `Embedding`.
pub proof fn lemma_tier_chain_shrinks(t: CompressionTier)
    ensures
        t.next_of() matches Some(n) ==> n.target_of() < t.target_of(),
        t.next_of() is None <==> t == CompressionTier::Embedding,
{
}

/// Multi-resolution text stored on every memory object.
#[derive(Debug, Clone)]
pub struct CompressedText {
    pub raw: Option<String>,
    pub summary: Option<String>,
    pub ultra_summary: Option<String>,
    pub keywords: Vec<String>,
    /// Opaque embedding vector, each component held as the bit pattern of an `f32`.
    pub embedding: Option<Vec<u32>>,
}

/// A borrowed view of an optional string.
pub fn opt_as_str(o: &Option<String>) -> (r: Option<&str>)
    ensures
        match r {
            Some(s) => text::opt_chars(*o) == Some(s@),
            None => o.is_none(),
        },
{
    match o {
        Some(s) => Some(s.as_str()),
        None => None,
    }
}

/// The first of two optional texts that is present.
pub open spec fn or_else(a: Option<Seq<char>>, b: Option<Seq<char>>) -> Option<Seq<char>> {
    if a is Some {
        a
    } else {
        b
    }
}

impl CompressedText {
    /// The keyword texts.
    pub open spec fn keyword_views(self) -> Seq<Seq<char>> {
        self.keywords@.map_values(|k: String| k@)
    }

    /// The text held for a tier: a tier that is missing falls back to the next larger one;
    /// keywords and embeddings have no text here.
    pub open spec fn text_at(self, tier: CompressionTier) -> Option<Seq<char>> {
        match tier {
            CompressionTier::Raw => text::opt_chars(self.raw),
            CompressionTier::Summary => or_else(text::opt_chars(self.summary), text::opt_chars(self.raw)),
            CompressionTier::UltraSummary => or_else(
                text::opt_chars(self.ultra_summary),
                or_else(text::opt_chars(self.summary), text::opt_chars(self.raw)),
            ),
            CompressionTier::Keywords => None,
            CompressionTier::Embedding => None,
        }
    }

    pub fn from_raw(raw: String) -> (r: CompressedText)
        ensures
            text::opt_chars(r.raw) == Some(raw@),
            r.summary is None,
            r.ultra_summary is None,
            r.keywords@.len() == 0,
            r.embedding is None,
    {
        CompressedText {
            raw: Some(raw),
            summary: None,
            ultra_summary: None,
            keywords: Vec::new(),
            embedding: None,
        }
    }

    pub fn at_tier(&self, tier: CompressionTier) -> (r: Option<&str>)
        ensures
            match r {
                Some(s) => self.text_at(tier) == Some(s@),
                None => self.text_at(tier) is None,
            },
    {
        match tier {
            CompressionTier::Raw => opt_as_str(&self.raw),
            CompressionTier::Summary => {
                match opt_as_str(&self.summary) {
                    Some(s) => Some(s),
                    None => opt_as_str(&self.raw),
                }
            },
            CompressionTier::UltraSummary => {
                match opt_as_str(&self.ultra_summary) {
                    Some(s) => Some(s),
                    None => match opt_as_str(&self.summary) {
                        Some(s) => Some(s),
                        None => opt_as_str(&self.raw),
                    },
                }
            },
            CompressionTier::Keywords => None,
            CompressionTier::Embedding => None,
        }
    }

    pub fn keywords_line(&self) -> (r: String)
        ensures
            r@ == text::join(self.keyword_views(), ", "@),
    {
        text::join_strings(&self.keywords, ", ")
    }
}


// ---------------------------------------------------------------------------
// Heuristic summaries
// ---------------------------------------------------------------------------

/// A trimmed line that a summary keeps: non-empty, not a `//` comment, not a `#` line.
pub open spec fn keeps_line(t: Seq<char>) -> bool {
    t.len() > 0 && !(t.len() >= 2 && t[0] == '/' && t[1] == '/') && t[0] != '#'
}

/// The first twelve kept lines, trimmed.
pub open spec fn kept_lines(lines: Seq<Seq<char>>) -> Seq<Seq<char>>
    decreases lines.len(),
{
    if lines.len() == 0 {
        Seq::empty()
    } else {
        let prev = kept_lines(lines.drop_last());
        let t = text::trim(lines.last());
        if keeps_line(t) && prev.len() < 12 {
            prev.push(t)
        } else {
            prev
        }
    }
}

/// The kept lines of a text joined by spaces.
pub open spec fn summary_joined(s: Seq<char>) -> Seq<char> {
    text::join(kept_lines(text::lines(s)), " "@)
}

/// Where a summary longer than `max` bytes is cut: three bytes before `max`.
pub open spec fn cut_point(max: nat) -> nat {
    if max >= 3 {
        (max - 3) as nat
    } else {
        0
    }
}

/// Summarising `s` to `max` bytes does not cut inside a character.
pub open spec fn summary_cut_ok(s: Seq<char>, max: nat) -> bool {
    let j = summary_joined(s);
    text::byte_len(j) <= max || vstd::utf8::is_char_boundary(vstd::utf8::encode_utf8(j), cut_point(max) as int)
}

/// The summary of `s` within `max` bytes: the kept lines joined, or when that is longer
/// than `max` bytes, its first `max - 3` bytes followed by `...`.
pub open spec fn summary_of(s: Seq<char>, max: nat) -> Seq<char> {
    let j = summary_joined(s);
    if text::byte_len(j) <= max {
        j
    } else {
        vstd::utf8::decode_utf8(vstd::utf8::encode_utf8(j).subrange(0, cut_point(max) as int)) + "..."@
    }
}

/// A heuristic summary is never longer than its budget in bytes.
pub proof fn lemma_summary_within(s: Seq<char>, max: nat)
    requires
        summary_cut_ok(s, max),
        max >= 3,
    ensures
        text::byte_len(summary_of(s, max)) <= max,
{
    let j = summary_joined(s);
    if text::byte_len(j) > max {
        let b = vstd::utf8::encode_utf8(j);
        let c = cut_point(max) as int;
        vstd::utf8::encode_utf8_valid_utf8(j);
        vstd::utf8::valid_utf8_split(b, c);
        vstd::utf8::decode_utf8_encode_utf8(b.subrange(0, c));
        let head = vstd::utf8::decode_utf8(b.subrange(0, c));
        text::lemma_byte_len_concat(head, "..."@);
        reveal_strlit("...");
        assert(vstd::utf8::encode_utf8("..."@).len() == 3) by {
            let d = "..."@;
            let d1 = d.drop_first();
            let d2 = d1.drop_first();
            let d3 = d2.drop_first();
            assert(d3 =~= Seq::<char>::empty());
            assert(vstd::utf8::encode_utf8(d3).len() == 0);
            assert(vstd::utf8::encode_utf8(d2).len() == 1);
            assert(vstd::utf8::encode_utf8(d1).len() == 2);
        }
    }
}

/// The kept lines of a text joined by spaces.
fn summary_lines_joined(s: &str) -> (r: String)
    ensures
        r@ == summary_joined(s@),
{
    let lines = text::lines_of(s);
    let ghost lv = graph::views(lines@);
    assert(lv =~= lines@.map_values(|x: String| x@));
    let mut kept: Vec<String> = Vec::new();
    let mut i: usize = 0;
    while i < lines.len()
        invariant
            i <= lines@.len(),
            lv == graph::views(lines@),
            graph::views(kept@) == kept_lines(lv.take(i as int)),
        decreases lines@.len() - i,
    {
        let ghost pre = graph::views(kept@);
        assert(lv.take(i + 1).drop_last() =~= lv.take(i as int));
        assert(lv.take(i + 1).last() == lines@[i as int]@);
        let t = text::trim_str(lines[i].as_str());
        let tc = text::chars_of(t.as_str());
        let keep = tc.len() > 0 && !(tc.len() >= 2 && tc[0] == '/' && tc[1] == '/') && tc[0] != '#';
        if keep && kept.len() < 12 {
            kept.push(t);
            assert(graph::views(kept@) =~= pre.push(tc@));
        }
        i += 1;
    }
    assert(lv.take(lines@.len() as int) =~= lv);
    let joined = text::join_strings(&kept, " ");
    assert(graph::views(kept@) =~= kept@.map_values(|x: String| x@));
    joined
}

/// Whether summarising `s` to `max_chars` bytes cuts at a character boundary.
pub fn summary_fits(s: &str, max_chars: usize) -> (r: bool)
    ensures
        r == summary_cut_ok(s@, max_chars as nat),
{
    let joined = summary_lines_joined(s);
    let n = text::str_byte_len(joined.as_str());
    if n <= max_chars {
        true
    } else {
        let cut = if max_chars >= 3 { max_chars - 3 } else { 0 };
        joined.as_str().is_char_boundary(cut)
    }
}

/// The kept lines of a text joined by spaces, cut to `max_chars` bytes with `...` when longer.
pub fn heuristic_summary(s: &str, max_chars: usize) -> (r: String)
    requires
        summary_cut_ok(s@, max_chars as nat),
    ensures
        r@ == summary_of(s@, max_chars as nat),
{
    let joined = summary_lines_joined(s);
    let n = text::str_byte_len(joined.as_str());
    if n <= max_chars {
        joined
    } else {
        let cut = if max_chars >= 3 { max_chars - 3 } else { 0 };
        let (a, _) = joined.as_str().split_at(cut);
        let mut out = text::owned(a);
        text::push_str(&mut out, "...");
        proof {
            vstd::utf8::encode_utf8_decode_utf8(a@);
        }
        out
    }
}

// ---------------------------------------------------------------------------
// Keywords
// ---------------------------------------------------------------------------

/// Identifier-like words of at least three characters.
pub const KEYWORD_PATTERN: &'static str = "\\b[A-Za-z_][A-Za-z0-9_]{2,}\\b";

/// What `regex::Regex::new(pattern)` and `find_iter(text)` give: the texts of the matches in
/// order, or `None` when the pattern does not compile.
pub uninterp spec fn regex_matches(pattern: Seq<char>, text: Seq<char>) -> Option<Seq<Seq<char>>>;

/// The views of an optional list of strings.
pub open spec fn opt_views(o: Option<Vec<String>>) -> Option<Seq<Seq<char>>> {
    match o {
        Some(v) => Some(graph::views(v@)),
        None => None,
    }
}

/// Compiles `pattern` with `regex::Regex::new` and collects `find_iter(text)`; the result is
/// named by `regex_matches`.
#[verifier::external_body]
fn regex_find_all(pattern: &str, text: &str) -> (r: Option<Vec<String>>)
    ensures
        opt_views(r) == regex_matches(pattern@, text@),
{
    match regex::Regex::new(pattern) {
        Ok(re) => Some(re.find_iter(text).map(|m| m.as_str().to_string()).collect()),
        Err(_) => None,
    }
}

/// Words that never count as keywords (compared lower-cased).
pub open spec fn is_stop(w: Seq<char>) -> bool {
    let l = text::unicode_lowercase(w);
    ||| l == "the"@ ||| l == "and"@ ||| l == "for"@ ||| l == "with"@ ||| l == "this"@
    ||| l == "that"@ ||| l == "from"@ ||| l == "return"@ ||| l == "true"@ ||| l == "false"@
    ||| l == "null"@ ||| l == "none"@ ||| l == "some"@ ||| l == "let"@ ||| l == "mut"@
    ||| l == "pub"@ ||| l == "use"@ ||| l == "fn"@ ||| l == "impl"@ ||| l == "struct"@
    ||| l == "enum"@ ||| l == "mod"@ ||| l == "const"@ ||| l == "async"@ ||| l == "await"@
    ||| l == "self"@ ||| l == "super"@ ||| l == "crate"@
}

fn is_stopword(word: &str) -> (r: bool)
    ensures
        r == is_stop(word@),
{
    let l = text::to_lowercase(word);
    let l = l.as_str();
    text::str_eq(l, "the") || text::str_eq(l, "and") || text::str_eq(l, "for") || text::str_eq(l, "with")
        || text::str_eq(l, "this") || text::str_eq(l, "that") || text::str_eq(l, "from")
        || text::str_eq(l, "return") || text::str_eq(l, "true") || text::str_eq(l, "false")
        || text::str_eq(l, "null") || text::str_eq(l, "none") || text::str_eq(l, "some")
        || text::str_eq(l, "let") || text::str_eq(l, "mut") || text::str_eq(l, "pub")
        || text::str_eq(l, "use") || text::str_eq(l, "fn") || text::str_eq(l, "impl")
        || text::str_eq(l, "struct") || text::str_eq(l, "enum") || text::str_eq(l, "mod")
        || text::str_eq(l, "const") || text::str_eq(l, "async") || text::str_eq(l, "await")
        || text::str_eq(l, "self") || text::str_eq(l, "super") || text::str_eq(l, "crate")
}

/// Position of the first entry counting word `k`.
pub open spec fn key_index(counts: Seq<(Seq<char>, nat)>, k: Seq<char>) -> Option<int>
    decreases counts.len(),
{
    if counts.len() == 0 {
        None
    } else {
        match key_index(counts.drop_last(), k) {
            Some(i) => Some(i),
            None => if counts.last().0 == k {
                Some(counts.len() - 1)
            } else {
                None
            },
        }
    }
}

/// Occurrence counts of the lower-cased non-stop words, in order of first occurrence.
pub open spec fn count_words(words: Seq<Seq<char>>) -> Seq<(Seq<char>, nat)>
    decreases words.len(),
{
    if words.len() == 0 {
        Seq::empty()
    } else {
        let prev = count_words(words.drop_last());
        let w = words.last();
        if is_stop(w) {
            prev
        } else {
            let k = text::unicode_lowercase(w);
            match key_index(prev, k) {
                Some(i) => prev.update(i, (k, prev[i].1 + 1)),
                None => prev.push((k, 1)),
            }
        }
    }
}

/// Lexicographic order of character sequences by code point.
pub open spec fn lex_lt(a: Seq<char>, b: Seq<char>) -> bool
    decreases a.len(),
{
    if a.len() == 0 {
        b.len() > 0
    } else if b.len() == 0 {
        false
    } else if a[0] != b[0] {
        (a[0] as u32) < (b[0] as u32)
    } else {
        lex_lt(a.drop_first(), b.drop_first())
    }
}

/// No sequence is before itself.
pub proof fn lemma_lex_irreflexive(a: Seq<char>)
    ensures
        !lex_lt(a, a),
    decreases a.len(),
{
    if a.len() > 0 {
        lemma_lex_irreflexive(a.drop_first());
    }
}

/// The code-point order is transitive.
pub proof fn lemma_lex_transitive(a: Seq<char>, b: Seq<char>, c: Seq<char>)
    requires
        lex_lt(a, b),
        lex_lt(b, c),
    ensures
        lex_lt(a, c),
    decreases a.len(),
{
    if a.len() > 0 && b.len() > 0 && c.len() > 0 && a[0] == b[0] && b[0] == c[0] {
        lemma_lex_transitive(a.drop_first(), b.drop_first(), c.drop_first());
    }
}

/// Of two different sequences one is before the other.
pub proof fn lemma_lex_total(a: Seq<char>, b: Seq<char>)
    requires
        a != b,
    ensures
        lex_lt(a, b) || lex_lt(b, a),
    decreases a.len(),
{
    if a.len() == 0 {
        assert(b.len() > 0) by {
            if b.len() == 0 {
                assert(a =~= b);
            }
        }
    } else if b.len() == 0 {
    } else if a[0] != b[0] {
        assert((a[0] as u32) != (b[0] as u32)) by {
            vstd::utf8::char_u32_cast(a[0], a[0] as u32);
            vstd::utf8::char_u32_cast(b[0], b[0] as u32);
        }
    } else {
        assert(a.drop_first() != b.drop_first()) by {
            if a.drop_first() == b.drop_first() {
                assert(a =~= seq![a[0]] + a.drop_first());
                assert(b =~= seq![b[0]] + b.drop_first());
            }
        }
        lemma_lex_total(a.drop_first(), b.drop_first());
    }
}

/// A common prefix does not change the order.
pub proof fn lemma_lex_prefix(p: Seq<char>, a: Seq<char>, b: Seq<char>)
    ensures
        lex_lt(p + a, p + b) == lex_lt(a, b),
    decreases p.len(),
{
    if p.len() > 0 {
        assert((p + a).drop_first() =~= p.drop_first() + a);
        assert((p + b).drop_first() =~= p.drop_first() + b);
        lemma_lex_prefix(p.drop_first(), a, b);
    } else {
        assert(p + a =~= a);
        assert(p + b =~= b);
    }
}

/// `x` ranks before `y`: a higher count, or the same count and a smaller word.
pub open spec fn ranks_before(x: (Seq<char>, nat), y: (Seq<char>, nat)) -> bool {
    x.1 > y.1 || (x.1 == y.1 && lex_lt(x.0, y.0))
}

/// Inserts a counted word into a ranked list, after every entry it does not rank before.
pub open spec fn insert_kw(s: Seq<(Seq<char>, nat)>, x: (Seq<char>, nat)) -> Seq<(Seq<char>, nat)>
    decreases s.len(),
{
    if s.len() == 0 || !ranks_before(x, s.last()) {
        s.push(x)
    } else {
        insert_kw(s.drop_last(), x).push(s.last())
    }
}

/// Counted words sorted by descending count, then by word.
pub open spec fn sort_kw(s: Seq<(Seq<char>, nat)>) -> Seq<(Seq<char>, nat)>
    decreases s.len(),
{
    if s.len() == 0 {
        Seq::empty()
    } else {
        insert_kw(sort_kw(s.drop_last()), s.last())
    }
}

/// The five most frequent identifier-like non-stop words of a text, lower-cased, ties
/// broken by the word.
pub open spec fn keywords_of(s: Seq<char>) -> Seq<Seq<char>> {
    match regex_matches(KEYWORD_PATTERN@, s) {
        None => Seq::empty(),
        Some(ws) => {
            let sorted = sort_kw(count_words(ws));
            let top = if sorted.len() <= 5 {
                sorted
            } else {
                sorted.take(5)
            };
            top.map_values(|p: (Seq<char>, nat)| p.0)
        },
    }
}


/// A keyword fingerprint has at most five words.
pub proof fn lemma_keywords_at_most_five(s: Seq<char>)
    ensures
        keywords_of(s).len() <= 5,
{
}
pub fn lex_less(a: &String, b: &String) -> (r: bool)
    ensures
        r == lex_lt(a@, b@),
{
    let ac = text::chars_of(a.as_str());
    let bc = text::chars_of(b.as_str());
    let mut i: usize = 0;
    assert(ac@ =~= ac@.skip(0));
    assert(bc@ =~= bc@.skip(0));
    while i < ac.len() && i < bc.len() && ac[i] == bc[i]
        invariant
            i <= ac@.len(),
            i <= bc@.len(),
            lex_lt(ac@, bc@) == lex_lt(ac@.skip(i as int), bc@.skip(i as int)),
        decreases ac@.len() - i,
    {
        assert(ac@.skip(i as int).drop_first() =~= ac@.skip(i + 1));
        assert(bc@.skip(i as int).drop_first() =~= bc@.skip(i + 1));
        i += 1;
    }
    assert(ac@ =~= ac@.skip(0));
    assert(bc@ =~= bc@.skip(0));
    if i == ac.len() {
        i < bc.len()
    } else if i == bc.len() {
        false
    } else {
        (ac[i] as u32) < (bc[i] as u32)
    }
}

/// The view of a counted word.
pub open spec fn count_view(p: (String, usize)) -> (Seq<char>, nat) {
    (p.0@, p.1 as nat)
}

proof fn lemma_insert_kw_at(s: Seq<(Seq<char>, nat)>, x: (Seq<char>, nat), j: int)
    requires
        0 <= j <= s.len(),
        forall|k: int| j <= k < s.len() ==> ranks_before(x, #[trigger] s[k]),
        j == 0 || !ranks_before(x, s[j - 1]),
    ensures
        insert_kw(s, x) == s.subrange(0, j).push(x) + s.subrange(j, s.len() as int),
    decreases s.len(),
{
    if s.len() == j {
        assert(s.subrange(0, j) =~= s);
        assert(s.push(x) =~= s.subrange(0, j).push(x) + s.subrange(j, s.len() as int));
    } else {
        let d = s.drop_last();
        assert(ranks_before(x, s[s.len() - 1]));
        lemma_insert_kw_at(d, x, j);
        assert(insert_kw(s, x) =~= s.subrange(0, j).push(x) + s.subrange(j, s.len() as int));
    }
}

fn extract_keywords(s: &str) -> (r: Vec<String>)
    ensures
        graph::views(r@) == keywords_of(s@),
{
    let words = match regex_find_all(KEYWORD_PATTERN, s) {
        None => {
            return Vec::new();
        },
        Some(ws) => ws,
    };
    let ghost wv = graph::views(words@);
    let mut counts: Vec<(String, usize)> = Vec::new();
    let mut i: usize = 0;
    while i < words.len()
        invariant
            i <= words@.len(),
            wv == graph::views(words@),
            counts@.map_values(|p: (String, usize)| count_view(p)) == count_words(wv.take(i as int)),
            forall|k: int| 0 <= k < counts@.len() ==> #[trigger] counts@[k].1 <= i,
        decreases words@.len() - i,
    {
        let w = words[i].as_str();
        let ghost cv = counts@.map_values(|p: (String, usize)| count_view(p));
        assert(wv.take(i + 1).drop_last() =~= wv.take(i as int));
        assert(wv.take(i + 1).last() == w@);
        if !is_stopword(w) {
            let k = text::to_lowercase(w);
            let mut j: usize = 0;
            while j < counts.len() && !text::str_eq(counts[j].0.as_str(), k.as_str())
                invariant
                    j <= counts@.len(),
                    cv == counts@.map_values(|p: (String, usize)| count_view(p)),
                    key_index(cv.take(j as int), k@) is None,
                decreases counts@.len() - j,
            {
                assert(cv.take(j + 1).drop_last() =~= cv.take(j as int));
                j += 1;
            }
            proof {
                lemma_key_index_prefix(cv, k@, j as int);
            }
            if j < counts.len() {
                let c = counts[j].1;
                let ghost old_counts = counts@;
                counts.set(j, (k, c + 1));
                assert(counts@.map_values(|p: (String, usize)| count_view(p)) =~= cv.update(j as int, (cv[j as int].0, cv[j as int].1 + 1)));
                assert forall|m: int| 0 <= m < counts@.len() implies #[trigger] counts@[m].1 <= i + 1 by {
                    if m != j {
                        assert(counts@[m] == old_counts[m]);
                    }
                }
            } else {
                counts.push((k, 1));
                assert(counts@.map_values(|p: (String, usize)| count_view(p)) =~= cv.push((k@, 1nat)));
            }
        }
        i += 1;
    }
    assert(wv.take(words@.len() as int) =~= wv);
    let ghost cv = counts@.map_values(|p: (String, usize)| count_view(p));
    let mut sorted: Vec<(String, usize)> = Vec::new();
    let mut m: usize = 0;
    while m < counts.len()
        invariant
            m <= counts@.len(),
            cv == counts@.map_values(|p: (String, usize)| count_view(p)),
            sorted@.map_values(|p: (String, usize)| count_view(p)) == sort_kw(cv.take(m as int)),
        decreases counts@.len() - m,
    {
        let x = (counts[m].0.clone(), counts[m].1);
        let ghost prev = sorted@.map_values(|p: (String, usize)| count_view(p));
        let mut j = sorted.len();
        while j > 0 && (x.1 > sorted[j - 1].1 || (x.1 == sorted[j - 1].1 && lex_less(&x.0, &sorted[j - 1].0)))
            invariant
                j <= sorted@.len(),
                prev == sorted@.map_values(|p: (String, usize)| count_view(p)),
                forall|k: int| j <= k < sorted@.len() ==> ranks_before(count_view(x), #[trigger] prev[k]),
            decreases j,
        {
            j -= 1;
        }
        proof {
            assert(cv.take(m + 1).drop_last() =~= cv.take(m as int));
            assert(cv.take(m + 1).last() == count_view(x));
            lemma_insert_kw_at(prev, count_view(x), j as int);
        }
        let ghost olds = sorted@;
        sorted.insert(j, x);
        assert(sorted@ == olds.insert(j as int, x));
        assert(sorted@.map_values(|p: (String, usize)| count_view(p)) =~= prev.subrange(0, j as int).push(count_view(x)) + prev.subrange(j as int, prev.len() as int));
        m += 1;
    }
    assert(cv.take(counts@.len() as int) =~= cv);
    let ghost sv = sorted@.map_values(|p: (String, usize)| count_view(p));
    let n = if sorted.len() <= 5 { sorted.len() } else { 5 };
    let mut out: Vec<String> = Vec::new();
    let mut k: usize = 0;
    while k < n
        invariant
            k <= n <= sorted@.len(),
            n == if sorted@.len() <= 5 { sorted@.len() } else { 5 },
            sv == sorted@.map_values(|p: (String, usize)| count_view(p)),
            graph::views(out@) == sv.take(k as int).map_values(|p: (Seq<char>, nat)| p.0),
        decreases n - k,
    {
        let ghost pre = graph::views(out@);
        out.push(sorted[k].0.clone());
        assert(graph::views(out@) =~= pre.push(sv[k as int].0));
        assert(sv.take(k + 1).map_values(|p: (Seq<char>, nat)| p.0) =~= sv.take(k as int).map_values(|p: (Seq<char>, nat)| p.0).push(sv[k as int].0));
        k += 1;
    }
    assert(sv.take(n as int) =~= if sv.len() <= 5 { sv } else { sv.take(5) });
    out
}

pub proof fn lemma_key_index_prefix(cv: Seq<(Seq<char>, nat)>, k: Seq<char>, j: int)
    requires
        0 <= j <= cv.len(),
        key_index(cv.take(j), k) is None,
        j < cv.len() ==> cv[j].0 == k,
    ensures
        j < cv.len() ==> key_index(cv, k) == Some(j),
        j == cv.len() ==> key_index(cv, k) is None,
    decreases cv.len(),
{
    if j == cv.len() {
        assert(cv.take(j) =~= cv);
    } else if j == cv.len() - 1 {
        assert(cv.drop_last() =~= cv.take(j));
    } else {
        assert(cv.drop_last().take(j) =~= cv.take(j));
        lemma_key_index_prefix(cv.drop_last(), k, j);
    }
}

impl CompressedText {
    /// The summary the heuristic leaves: the existing one, or one made from the raw text.
    pub open spec fn summary_after(self) -> Seq<char> {
        match self.summary {
            Some(x) => x@,
            None => summary_of(text::or_empty_chars(self.raw), 400),
        }
    }

    /// Compressing does not cut inside a character.
    pub open spec fn compressible(self) -> bool {
        match self.raw {
            None => true,
            Some(r) => {
                &&& (self.summary is None ==> summary_cut_ok(r@, 400))
                &&& (self.ultra_summary is None ==> summary_cut_ok(self.summary_after(), 100))
            },
        }
    }

    /// What heuristic compression makes of this text: without a raw text, the same text;
    /// else raw text and embedding kept, a summary, an ultra summary and keywords kept where
    /// present and filled in from the raw text where missing.
    pub open spec fn compresses_to(self, t: CompressedText) -> bool {
        &&& self.raw is None ==> t == self
        &&& t.raw == self.raw
        &&& t.embedding == self.embedding
        &&& self.raw is Some ==> {
            &&& text::opt_chars(t.summary) == Some(self.summary_after())
            &&& text::opt_chars(t.ultra_summary) == Some(
                match self.ultra_summary {
                    Some(u) => u@,
                    None => summary_of(self.summary_after(), 100),
                },
            )
            &&& t.keyword_views() == if self.keywords@.len() == 0 {
                keywords_of(text::or_empty_chars(self.raw))
            } else {
                self.keyword_views()
            }
        }
    }

    /// Two texts hold the same tiers, keywords and embedding.
    pub open spec fn same_tiers(self, t: CompressedText) -> bool {
        &&& text::opt_chars(self.raw) == text::opt_chars(t.raw)
        &&& text::opt_chars(self.summary) == text::opt_chars(t.summary)
        &&& text::opt_chars(self.ultra_summary) == text::opt_chars(t.ultra_summary)
        &&& self.keyword_views() == t.keyword_views()
        &&& self.embedding == t.embedding
    }

    /// Heuristic compression without a model: fills in whatever of summary, ultra summary
    /// and keywords is missing, from the raw text.
    pub fn compress_heuristic(&mut self)
        requires
            old(self).compressible(),
        ensures
            old(self).compresses_to(*final(self)),
    {
        let raw = match &self.raw {
            None => {
                return;
            },
            Some(r) => r.clone(),
        };
        if self.summary.is_none() {
            self.summary = Some(heuristic_summary(raw.as_str(), 400));
        }
        if self.ultra_summary.is_none() {
            let src = match &self.summary {
                Some(x) => x.clone(),
                None => raw.clone(),
            };
            self.ultra_summary = Some(heuristic_summary(src.as_str(), 100));
        }
        if self.keywords.len() == 0 {
            self.keywords = extract_keywords(raw.as_str());
        }
    }
}
/// Heuristic compression is idempotent: what it makes can be compressed again, and that
/// changes none of its tiers, keywords or embedding.
pub proof fn lemma_compress_idempotent(t0: CompressedText, t1: CompressedText, t2: CompressedText)
    requires
        t0.compressible(),
        t0.compresses_to(t1),
        t1.compresses_to(t2),
    ensures
        t1.compressible(),
        t1.same_tiers(t2),
{
    if t0.raw is Some {
        assert(t1.summary is Some);
        assert(t1.ultra_summary is Some);
        assert(t1.summary_after() == text::opt_chars(t1.summary)->Some_0);
        assert(t1.keywords@.len() == t1.keyword_views().len());
        assert(t0.keywords@.len() == t0.keyword_views().len());
        if t1.keywords@.len() == 0 {
            assert(t0.keywords@.len() == 0);
            assert(text::or_empty_chars(t1.raw) == text::or_empty_chars(t0.raw));
        }
    }
}

/// The words no keyword fingerprint holds.
spec fn stop_listed(k: Seq<char>) -> bool {
    k == "the"@ || k == "and"@ || k == "for"@ || k == "with"@ || k == "this"@ || k == "that"@ || k == "from"@ || k == "return"@ || k == "true"@ || k == "false"@ || k == "null"@ || k == "none"@ || k == "some"@ || k == "let"@ || k == "mut"@ || k == "pub"@ || k == "use"@ || k == "fn"@ || k == "impl"@ || k == "struct"@ || k == "enum"@ || k == "mod"@ || k == "const"@ || k == "async"@ || k == "await"@ || k == "self"@ || k == "super"@ || k == "crate"@
}

proof fn lemma_key_index_range(counts: Seq<(Seq<char>, nat)>, k: Seq<char>)
    ensures
        key_index(counts, k) matches Some(i) ==> 0 <= i < counts.len() && counts[i].0 == k,
    decreases counts.len(),
{
    if counts.len() > 0 {
        lemma_key_index_range(counts.drop_last(), k);
    }
}

proof fn lemma_count_words_keys(words: Seq<Seq<char>>)
    ensures
        forall|i: int| 0 <= i < count_words(words).len() ==> !stop_listed(#[trigger] count_words(words)[i].0),
    decreases words.len(),
{
    if words.len() > 0 {
        lemma_count_words_keys(words.drop_last());
        let prev = count_words(words.drop_last());
        let cur = count_words(words);
        assert forall|i: int| 0 <= i < cur.len() implies !stop_listed(#[trigger] cur[i].0) by {
            if !is_stop(words.last()) {
                let k = text::unicode_lowercase(words.last());
                assert(!stop_listed(k));
                lemma_key_index_range(prev, k);
                match key_index(prev, k) {
                    Some(j) => {
                        if i != j {
                            assert(cur[i] == prev[i]);
                        }
                    },
                    None => {
                        if i < prev.len() {
                            assert(cur[i] == prev[i]);
                        }
                    },
                }
            }
        }
    }
}

proof fn lemma_insert_kw_keys(s: Seq<(Seq<char>, nat)>, x: (Seq<char>, nat))
    requires
        forall|i: int| 0 <= i < s.len() ==> !stop_listed(#[trigger] s[i].0),
        !stop_listed(x.0),
    ensures
        forall|i: int| 0 <= i < insert_kw(s, x).len() ==> !stop_listed(#[trigger] insert_kw(s, x)[i].0),
    decreases s.len(),
{
    if !(s.len() == 0 || !ranks_before(x, s.last())) {
        let d = s.drop_last();
        assert forall|i: int| 0 <= i < d.len() implies !stop_listed(#[trigger] d[i].0) by {
            assert(d[i] == s[i]);
        }
        lemma_insert_kw_keys(d, x);
        let u = insert_kw(d, x);
        let t = insert_kw(s, x);
        assert forall|i: int| 0 <= i < t.len() implies !stop_listed(#[trigger] t[i].0) by {
            if i < u.len() {
                assert(t[i] == u[i]);
            } else {
                assert(t[i] == s[s.len() - 1]);
            }
        }
    } else {
        let t = insert_kw(s, x);
        assert forall|i: int| 0 <= i < t.len() implies !stop_listed(#[trigger] t[i].0) by {
            if i < s.len() {
                assert(t[i] == s[i]);
            }
        }
    }
}

proof fn lemma_sort_kw_keys(s: Seq<(Seq<char>, nat)>)
    requires
        forall|i: int| 0 <= i < s.len() ==> !stop_listed(#[trigger] s[i].0),
    ensures
        forall|i: int| 0 <= i < sort_kw(s).len() ==> !stop_listed(#[trigger] sort_kw(s)[i].0),
    decreases s.len(),
{
    if s.len() > 0 {
        let d = s.drop_last();
        assert forall|i: int| 0 <= i < d.len() implies !stop_listed(#[trigger] d[i].0) by {
            assert(d[i] == s[i]);
        }
        lemma_sort_kw_keys(d);
        assert(!stop_listed(s[s.len() - 1].0));
        lemma_insert_kw_keys(sort_kw(d), s.last());
    }
}

/// Stop-word law: no keyword of a text is one of the words "the", "and", "for", "with",
/// "this", "that", "from", "return", "true", "false", "null", "none", "some", "let", "mut",
/// "pub", "use", "fn", "impl", "struct", "enum", "mod", "const", "async", "await", "self",
/// "super" or "crate".
pub proof fn lemma_keywords_skip_stop_words(s: Seq<char>)
    ensures
        forall|i: int| 0 <= i < keywords_of(s).len() ==> {
            let k = #[trigger] keywords_of(s)[i];
            !(k == "the"@ || k == "and"@ || k == "for"@ || k == "with"@ || k == "this"@ || k == "that"@ || k == "from"@ || k == "return"@ || k == "true"@ || k == "false"@ || k == "null"@ || k == "none"@ || k == "some"@ || k == "let"@ || k == "mut"@ || k == "pub"@ || k == "use"@ || k == "fn"@ || k == "impl"@ || k == "struct"@ || k == "enum"@ || k == "mod"@ || k == "const"@ || k == "async"@ || k == "await"@ || k == "self"@ || k == "super"@ || k == "crate"@)
        },
{
    match regex_matches(KEYWORD_PATTERN@, s) {
        None => {},
        Some(ws) => {
            lemma_count_words_keys(ws);
            lemma_sort_kw_keys(count_words(ws));
            let sorted = sort_kw(count_words(ws));
            let top = if sorted.len() <= 5 {
                sorted
            } else {
                sorted.take(5)
            };
            assert forall|i: int| 0 <= i < top.len() implies !stop_listed(#[trigger] top[i].0) by {
                assert(top[i] == sorted[i]);
            }
            assert forall|i: int| 0 <= i < keywords_of(s).len() implies !stop_listed(#[trigger] keywords_of(s)[i]) by {
                assert(keywords_of(s)[i] == top[i].0);
            }
        },
    }
}

} // verus!
