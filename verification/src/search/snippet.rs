//! Snippets that keep to sentence boundaries.
use vstd::prelude::*;
use vstd::string::StringSliceAdditionalSpecFns;
use vstd::utf8::*;

use crate::search::scan::{
    all_nonempty, around_end, around_start, ahead_by, back_by, boundary_at_or_before,
    bounds_around, check_windows_fit, covered, encoded, excerpt, excerpt_around, excerpt_text,
    find_sentence_end, find_sentence_start, find_windows, lemma_encode_nonempty,
    lemma_sentence_end_boundary, overlaps_with_ranges, scan_windows, sentence_end, sentence_start,
    term_bytes, lemma_scan_windows_bounds, windows_fit, Window, back_to_boundary, boundary_at_or_after,
};
use crate::text::{chars_of, lemma_words_shape, lowercase, to_lowercase, views, words, words_in};

verus! {

/// Bytes in each window of the match scan.
pub const MATCH_WINDOW: usize = 200;

/// Bytes between the starts of two windows of the match scan.
pub const MATCH_STEP: usize = 50;

/// `s` with `x` placed before the first window that has fewer matches than
/// it, so that windows with as many matches keep their order.
pub open spec fn insert_by_matches(s: Seq<Window>, x: Window) -> Seq<Window>
    decreases s.len(),
{
    if s.len() == 0 {
        seq![x]
    } else if s[0].matches < x.matches {
        seq![x] + s
    } else {
        seq![s[0]] + insert_by_matches(s.drop_first(), x)
    }
}

/// The windows ordered by matches, most first; windows with as many matches
/// keep their order (a stable sort).
pub open spec fn sort_by_matches(s: Seq<Window>) -> Seq<Window>
    decreases s.len(),
{
    if s.len() == 0 {
        s
    } else {
        insert_by_matches(sort_by_matches(s.drop_last()), s.last())
    }
}

/// Whether the windows are ordered by matches, most first.
pub open spec fn ordered_by_matches(s: Seq<Window>) -> bool {
    forall|i: int, j: int| 0 <= i < j < s.len() ==> s[j].matches <= s[i].matches
}

/// Inserting into an ordered sequence keeps it ordered and adds the element.
proof fn lemma_insert_by_matches(s: Seq<Window>, x: Window)
    requires
        ordered_by_matches(s),
    ensures
        ordered_by_matches(insert_by_matches(s, x)),
        insert_by_matches(s, x).len() == s.len() + 1,
        insert_by_matches(s, x).to_multiset() == s.to_multiset().insert(x),
    decreases s.len(),
{
    broadcast use vstd::seq_lib::group_to_multiset_ensures;

    if s.len() == 0 {
        assert(seq![x] =~= s.push(x));
    } else if s[0].matches < x.matches {
        assert((seq![x] + s).to_multiset() =~= s.to_multiset().insert(x)) by {
            vstd::seq_lib::lemma_multiset_commutative(seq![x], s);
            assert(seq![x] =~= Seq::<Window>::empty().push(x));
        }
    } else {
        let t = s.drop_first();
        lemma_insert_by_matches(t, x);
        let r = insert_by_matches(t, x);
        assert(seq![s[0]] + t =~= s);
        vstd::seq_lib::lemma_multiset_commutative(seq![s[0]], r);
        vstd::seq_lib::lemma_multiset_commutative(seq![s[0]], t);
        assert forall|i: int, j: int| 0 <= i < j < (seq![s[0]] + r).len() implies (seq![s[0]]
            + r)[j].matches <= (seq![s[0]] + r)[i].matches by {
            if i == 0 {
                let k = j - 1;
                assert(r.to_multiset().count(r[k]) > 0);
                assert(s.to_multiset().insert(x).count(r[k]) > 0);
                if r[k] != x {
                    assert(t.to_multiset().count(r[k]) > 0);
                    let m = choose|m: int| 0 <= m < t.len() && t[m] == r[k];
                    assert(s[m + 1] == t[m]);
                }
            }
        }
    }
}

/// The stable sort orders the windows and keeps all of them.
pub proof fn lemma_sort_by_matches(s: Seq<Window>)
    ensures
        ordered_by_matches(sort_by_matches(s)),
        sort_by_matches(s).len() == s.len(),
        sort_by_matches(s).to_multiset() == s.to_multiset(),
    decreases s.len(),
{
    broadcast use vstd::seq_lib::group_to_multiset_ensures;

    if s.len() > 0 {
        lemma_sort_by_matches(s.drop_last());
        lemma_insert_by_matches(sort_by_matches(s.drop_last()), s.last());
        assert(s.drop_last().push(s.last()) =~= s);
    }
}

/// The windows ordered by matches, most first, in a stable way.
pub fn sort_windows(v: &Vec<Window>) -> (r: Vec<Window>)
    ensures
        r@ == sort_by_matches(v@),
{
    let mut out: Vec<Window> = Vec::new();
    let mut i: usize = 0;
    while i < v.len()
        invariant
            i <= v@.len(),
            out@ == sort_by_matches(v@.take(i as int)),
        decreases v@.len() - i,
    {
        let x = v[i];
        let mut k: usize = 0;
        assert(out@.skip(0) =~= out@);
        assert(out@.take(0) + insert_by_matches(out@, x) =~= insert_by_matches(out@, x));
        while k < out.len() && out[k].matches >= x.matches
            invariant
                k <= out@.len(),
                insert_by_matches(out@, x) == out@.take(k as int) + insert_by_matches(
                    out@.skip(k as int),
                    x,
                ),
            decreases out@.len() - k,
        {
            let ghost t = out@.skip(k as int);
            assert(t.drop_first() =~= out@.skip(k + 1));
            assert(out@.take(k + 1) =~= out@.take(k as int).push(t[0]));
            assert(out@.take(k as int) + insert_by_matches(t, x) =~= out@.take(k + 1)
                + insert_by_matches(out@.skip(k + 1), x));
            k += 1;
        }
        let ghost before = out@;
        out.insert(k, x);
        proof {
            assert(v@.take(i + 1).drop_last() =~= v@.take(i as int));
            assert(insert_by_matches(before.skip(k as int), x) =~= seq![x] + before.skip(k as int));
            assert(out@ =~= before.take(k as int) + (seq![x] + before.skip(k as int)));
        }
        i += 1;
    }
    assert(v@.take(v@.len() as int) =~= v@);
    out
}

/// The excerpts picked from `cands` in turn, and the ranges they claim: a
/// candidate whose start lies in a claimed range is skipped, as is one whose
/// excerpt is empty; a claimed range reaches `w` bytes either side of the
/// start; nothing is picked once `max` excerpts are.
pub open spec fn pick_excerpts(b: Seq<u8>, cands: Seq<Window>, w: int, max: int) -> (
    Seq<Seq<char>>,
    Seq<(usize, usize)>,
)
    decreases cands.len(),
{
    if cands.len() == 0 {
        (seq![], seq![])
    } else {
        let (snips, ranges) = pick_excerpts(b, cands.drop_last(), w, max);
        let pos = cands.last().start as int;
        if snips.len() >= max || covered(pos, ranges) {
            (snips, ranges)
        } else {
            let t = excerpt_around(b, pos, w);
            if t.len() > 0 {
                (
                    snips.push(t),
                    ranges.push((back_by(pos, w) as usize, ahead_by(pos, w, b.len() as int) as usize)),
                )
            } else {
                (snips, ranges)
            }
        }
    }
}

/// The excerpt at the start of the text: up to the end of the sentence that
/// holds byte `max_len`.
pub open spec fn leading_excerpt(b: Seq<u8>, max_len: int) -> Seq<char> {
    excerpt(
        b,
        0,
        boundary_at_or_before(b, 0, sentence_end(b, if max_len < b.len() { max_len } else { b.len() as int })),
    )
}

/// The snippets of a text with bytes `b` for the query terms `terms`, found
/// in `low`, the lowercased text: the windows in which the terms occur most,
/// at most `max` of them, each widened to whole sentences; where no window
/// holds a term, or none gives an excerpt, the start of the text.
pub open spec fn snippets_of(
    b: Seq<u8>,
    low: Seq<u8>,
    terms: Seq<Seq<u8>>,
    max_len: int,
    max: int,
    w: int,
) -> Seq<Seq<char>> {
    let hits = scan_windows(b, low, terms, MATCH_WINDOW as int, MATCH_STEP as int, 0);
    let fallback = seq![leading_excerpt(b, max_len)];
    if hits.len() == 0 {
        fallback
    } else {
        let cands = sort_by_matches(hits).take(if max < hits.len() { max } else { hits.len() as int });
        let picked = pick_excerpts(b, cands, w, max).0;
        if picked.len() == 0 {
            fallback
        } else {
            picked
        }
    }
}

/// No more than `max` excerpts are picked.
proof fn lemma_pick_count(b: Seq<u8>, cands: Seq<Window>, w: int, max: int)
    requires
        max >= 0,
    ensures
        pick_excerpts(b, cands, w, max).0.len() <= max,
    decreases cands.len(),
{
    if cands.len() > 0 {
        lemma_pick_count(b, cands.drop_last(), w, max);
    }
}

/// A generator gives one snippet at least and no more than its maximum
/// (where that is at least one).
pub proof fn law_snippet_count(b: Seq<u8>, low: Seq<u8>, terms: Seq<Seq<u8>>, max_len: int, max: int, w: int)
    requires
        max >= 1,
    ensures
        1 <= snippets_of(b, low, terms, max_len, max, w).len() <= max,
{
    let hits = scan_windows(b, low, terms, MATCH_WINDOW as int, MATCH_STEP as int, 0);
    if hits.len() > 0 {
        let cands = sort_by_matches(hits).take(if max < hits.len() { max } else { hits.len() as int });
        lemma_pick_count(b, cands, w, max);
    }
}

/// Makes snippets that start and end at sentence boundaries.
#[derive(Debug)]
pub struct SnippetGenerator {
    max_snippet_length: usize,
    max_snippets: usize,
    context_window: usize,
}

impl SnippetGenerator {
    /// Bytes taken from the start of the text when no match is found.
    pub closed spec fn max_len(&self) -> int {
        self.max_snippet_length as int
    }

    /// The most snippets returned.
    pub closed spec fn max_count(&self) -> int {
        self.max_snippets as int
    }

    /// Bytes of context taken either side of a match.
    pub closed spec fn window(&self) -> int {
        self.context_window as int
    }

    /// A generator of at most 3 snippets, with 50 bytes of context either
    /// side of a match and 300 bytes from the start of the text where
    /// nothing matches.
    pub fn new() -> (r: Self)
        ensures
            r.max_len() == 300,
            r.max_count() == 3,
            r.window() == 50,
    {
        SnippetGenerator { max_snippet_length: 300, max_snippets: 3, context_window: 50 }
    }

    /// Scanning back from `position` for the start of its sentence.
    pub fn find_sentence_start(&self, content: &str, position: usize) -> (r: usize)
        requires
            position <= content.spec_bytes().len(),
        ensures
            r == sentence_start(content.spec_bytes(), position as int),
    {
        find_sentence_start(content, position)
    }

    /// Scanning forward from `position` for the end of its sentence.
    pub fn find_sentence_end(&self, content: &str, position: usize) -> (r: usize)
        ensures
            r == sentence_end(content.spec_bytes(), position as int),
    {
        find_sentence_end(content, position)
    }

    /// The excerpt at the start of `content`.
    fn leading_snippet(&self, content: &str) -> (r: String)
        ensures
            r@ == leading_excerpt(content.spec_bytes(), self.max_len()),
    {
        let len = content.as_bytes().len();
        let end = if self.max_snippet_length < len { self.max_snippet_length } else { len };
        let sentence_end = find_sentence_end(content, end);
        let end_byte = back_to_boundary(content, 0, sentence_end);
        proof {
            encode_utf8_valid_utf8(content@);
            lemma_sentence_end_boundary(content.spec_bytes(), end as int);
            is_char_boundary_start_end_of_seq(content.spec_bytes());
        }
        excerpt_text(content, 0, end_byte)
    }

    /// The snippets for the windows `cands`, taken in turn.
    fn pick(&self, content: &str, cands: &Vec<Window>, count: usize) -> (r: Vec<String>)
        requires
            count <= cands@.len(),
            forall|i: int| 0 <= i < cands@.len() ==> #[trigger] cands@[i].start <= content.spec_bytes().len(),
        ensures
            views(r@) == pick_excerpts(content.spec_bytes(), cands@.take(count as int), self.window(), self.max_count()).0,
    {
        let ghost b = content.spec_bytes();
        let len = content.as_bytes().len();
        let w = self.context_window;
        let mut snippets: Vec<String> = Vec::new();
        let mut ranges: Vec<(usize, usize)> = Vec::new();
        let mut i: usize = 0;
        while i < count
            invariant
                count <= cands@.len(),
                forall|i: int| 0 <= i < cands@.len() ==> #[trigger] cands@[i].start <= b.len(),
                b == content.spec_bytes(),
                len == b.len(),
                w == self.window(),
                i <= count,
                (views(snippets@), ranges@) == pick_excerpts(b, cands@.take(i as int), w as int, self.max_count()),
            decreases count - i,
        {
            let pos = cands[i].start;
            let ghost prev = pick_excerpts(b, cands@.take(i as int), w as int, self.max_count());
            proof {
                assert(cands@.take(i + 1).drop_last() =~= cands@.take(i as int));
                assert(cands@.take(i + 1).last() == cands@[i as int]);
            }
            if snippets.len() < self.max_snippets && !overlaps_with_ranges(pos, &ranges) {
                let (a, e) = bounds_around(content, pos, w);
                let snippet = excerpt_text(content, a, e);
                if !snippet.as_str().is_empty() {
                    let back = if pos >= w { pos - w } else { 0 };
                    let ahead = if len - pos > w { pos + w } else { len };
                    let ghost old_snips = snippets@;
                    ranges.push((back, ahead));
                    snippets.push(snippet);
                    proof {
                        assert(views(snippets@) =~= views(old_snips).push(snippet@));
                    }
                }
            }
            i += 1;
        }
        snippets
    }

    /// The snippets of `content` for `terms`, whose occurrences are counted in
    /// `lower`, the lowercased text.
    pub fn snippets_for(&self, content: &str, lower: &str, terms: &Vec<String>) -> (r: Vec<String>)
        requires
            windows_fit(content.spec_bytes(), lower.spec_bytes(), MATCH_WINDOW as int, MATCH_STEP as int, 0),
            all_nonempty(term_bytes(terms@)),
        ensures
            views(r@) == snippets_of(
                content.spec_bytes(),
                lower.spec_bytes(),
                term_bytes(terms@),
                self.max_len(),
                self.max_count(),
                self.window(),
            ),
    {
        let ghost b = content.spec_bytes();
        let clen = content.as_bytes().len();
        let hits = find_windows(content, lower, terms, MATCH_WINDOW, MATCH_STEP);
        if hits.len() == 0 {
            let s = self.leading_snippet(content);
            let r = vec![s];
            assert(views(r@) =~= seq![s@]);
            return r;
        }
        let sorted = sort_windows(&hits);
        let count = if self.max_snippets < sorted.len() { self.max_snippets } else { sorted.len() };
        proof {
            broadcast use vstd::seq_lib::group_to_multiset_ensures;

            encode_utf8_valid_utf8(content@);
            lemma_scan_windows_bounds(b, lower.spec_bytes(), term_bytes(terms@), MATCH_WINDOW as int, MATCH_STEP as int, 0);
            lemma_sort_by_matches(hits@);
            assert forall|i: int| 0 <= i < sorted@.len() implies #[trigger] sorted@[i].start <= b.len() by {
                assert(sorted@.to_multiset().count(sorted@[i]) > 0);
                assert(hits@.to_multiset().count(sorted@[i]) > 0);
                let k = choose|k: int| 0 <= k < hits@.len() && hits@[k] == sorted@[i];
            }
            assert(sorted@.take(count as int).take(count as int) =~= sorted@.take(count as int));
        }
        let picked = self.pick(content, &sorted, count);
        if picked.len() == 0 {
            let s = self.leading_snippet(content);
            let r = vec![s];
            assert(views(r@) =~= seq![s@]);
            return r;
        }
        picked
    }

    /// Snippets of `content` around the places where the words of `query`
    /// occur most, each widened to whole sentences: at most three, or the
    /// start of the content when no word occurs; none for an empty content
    /// or query. Words are matched case-insensitively.
    pub fn generate_snippets(&self, content: &str, query: &str) -> (r: Vec<String>)
        ensures
            content@.len() == 0 || query@.len() == 0 ==> r@.len() == 0,
            content@.len() > 0 && query@.len() > 0 && windows_fit(
                content.spec_bytes(),
                encode_utf8(lowercase(content@)),
                MATCH_WINDOW as int,
                MATCH_STEP as int,
                0,
            ) ==> views(r@) == snippets_of(
                content.spec_bytes(),
                encode_utf8(lowercase(content@)),
                encoded(words(lowercase(query@))),
                self.max_len(),
                self.max_count(),
                self.window(),
            ),
            content@.len() > 0 && query@.len() > 0 && !windows_fit(
                content.spec_bytes(),
                encode_utf8(lowercase(content@)),
                MATCH_WINDOW as int,
                MATCH_STEP as int,
                0,
            ) ==> r@.len() == 0,
    {
        if content.is_empty() || query.is_empty() {
            return Vec::new();
        }
        let lower_query = to_lowercase(query);
        let qchars = chars_of(lower_query.as_str());
        let terms = words_in(&qchars, 0, qchars.len());
        let lower = to_lowercase(content);
        proof {
            assert(qchars@.subrange(0, qchars@.len() as int) =~= qchars@);
            lemma_words_shape(qchars@);
            assert forall|i: int| 0 <= i < term_bytes(terms@).len() implies #[trigger] term_bytes(
                terms@,
            )[i].len() > 0 by {
                lemma_encode_nonempty(views(terms@)[i]);
            }
        }
        if !check_windows_fit(content, lower.as_str(), MATCH_WINDOW, MATCH_STEP) {
            return Vec::new();
        }
        self.snippets_for(content, lower.as_str(), &terms)
    }
}

impl Default for SnippetGenerator {
    fn default() -> (r: Self)
        ensures
            r.max_len() == 300,
            r.max_count() == 3,
            r.window() == 50,
    {
        Self::new()
    }
}

} // verus!
