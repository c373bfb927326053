//! Records that present search results to an AI client.
use vstd::prelude::*;
use vstd::string::StringSliceAdditionalSpecFns;
use vstd::utf8::*;

use crate::text::{chars_of, lowercase, same_text, string_from_range, to_lowercase, views, words, words_in};

verus! {

/// What was searched for, and how many results were found and returned.
#[derive(Debug, Clone)]
pub struct QueryMetadata {
    pub original_query: String,
    pub total_matches: usize,
    pub returned_primary: usize,
    pub returned_supplementary: usize,
    pub search_strategy: String,
}

/// What the results hold, put together.
#[derive(Debug, Clone)]
pub struct ContentSummary {
    /// Distinct snippets of the results.
    pub combined_snippets: Vec<String>,
    /// Words frequent in the titles of the results.
    pub common_topics: Vec<String>,
    /// Domains of the results.
    pub domains: Vec<String>,
    /// Bytes of the snippets combined.
    pub total_content_chars: usize,
}

/// The full content of one result.
#[derive(Debug, Clone)]
pub struct FullContent {
    pub url: String,
    pub title: String,
    pub content: String,
    pub truncated: bool,
}

/// Hints on how to use the results.
#[derive(Debug, Clone)]
pub struct AIProcessingHints {
    /// Topics to focus on.
    pub focus_areas: Vec<String>,
    /// Whether the best result seems to answer the query.
    pub high_confidence_match: bool,
    /// How to answer.
    pub response_strategy: String,
}

/// What the summary of search results reads of one result.
#[derive(Debug, Clone)]
pub struct ResultDigest {
    pub title: String,
    pub domain: String,
    pub content_snippets: Vec<String>,
}

/// The mathematical value of a result digest.
pub struct DigestView {
    pub title: Seq<char>,
    pub domain: Seq<char>,
    pub snippets: Seq<Seq<char>>,
}

impl View for ResultDigest {
    type V = DigestView;

    open spec fn view(&self) -> DigestView {
        DigestView {
            title: self.title@,
            domain: self.domain@,
            snippets: views(self.content_snippets@),
        }
    }
}

/// The views of a sequence of result digests.
pub open spec fn digest_views(rs: Seq<ResultDigest>) -> Seq<DigestView> {
    rs.map_values(|r: ResultDigest| r@)
}

/// The number of bytes of a text in UTF-8.
pub open spec fn byte_len(s: Seq<char>) -> nat {
    encode_utf8(s).len()
}

/// The number of bytes of texts together.
pub open spec fn total_bytes(ss: Seq<Seq<char>>) -> nat
    decreases ss.len(),
{
    if ss.len() == 0 {
        0
    } else {
        total_bytes(ss.drop_last()) + byte_len(ss.last())
    }
}

/// What tells snippets apart: their first 50 characters.
pub open spec fn snippet_key(s: Seq<char>) -> Seq<char> {
    if s.len() <= 50 {
        s
    } else {
        s.take(50)
    }
}

/// Whether a snippet of `acc` begins as `s` does.
pub open spec fn key_seen(acc: Seq<Seq<char>>, s: Seq<char>) -> bool {
    exists|i: int| 0 <= i < acc.len() && snippet_key(#[trigger] acc[i]) == snippet_key(s)
}

/// The snippets `acc` with those of `ss` taken in order: a snippet is
/// taken unless one taken begins as it does, and none once the snippets
/// taken hold more than `max` bytes.
pub open spec fn absorb(acc: Seq<Seq<char>>, ss: Seq<Seq<char>>, max: nat) -> Seq<Seq<char>>
    decreases ss.len(),
{
    if ss.len() == 0 {
        acc
    } else {
        let a = absorb(acc, ss.drop_last(), max);
        if total_bytes(a) > max || key_seen(a, ss.last()) {
            a
        } else {
            a.push(ss.last())
        }
    }
}

/// The snippets taken from the results `rs`, result by result.
pub open spec fn combined(rs: Seq<DigestView>, max: nat) -> Seq<Seq<char>>
    decreases rs.len(),
{
    if rs.len() == 0 {
        Seq::empty()
    } else {
        absorb(combined(rs.drop_last(), max), rs.last().snippets, max)
    }
}

/// The domains of the results `rs`, each once in the order met, up to the
/// result after which the snippets taken hold more than `max` bytes.
pub open spec fn summary_domains(rs: Seq<DigestView>, max: nat) -> Seq<Seq<char>>
    decreases rs.len(),
{
    if rs.len() == 0 {
        Seq::empty()
    } else {
        let prev = summary_domains(rs.drop_last(), max);
        if total_bytes(combined(rs.drop_last(), max)) > max || prev.contains(rs.last().domain) {
            prev
        } else {
            prev.push(rs.last().domain)
        }
    }
}

/// The first 50 characters of a snippet.
fn key_of(s: &String) -> (k: String)
    ensures
        k@ == snippet_key(s@),
{
    let v = chars_of(s.as_str());
    let end = if v.len() <= 50 { v.len() } else { 50 };
    let k = string_from_range(&v, 0, end);
    assert(v@.subrange(0, v@.len() as int) =~= v@);
    k
}

/// Whether `v` holds the text `s`.
fn holds_text(v: &Vec<String>, s: &String) -> (r: bool)
    ensures
        r == views(v@).contains(s@),
{
    let mut i: usize = 0;
    while i < v.len()
        invariant
            i <= v@.len(),
            forall|j: int| 0 <= j < i ==> v@[j]@ != s@,
        decreases v@.len() - i,
    {
        if same_text(v[i].as_str(), s.as_str()) {
            assert(views(v@)[i as int] == s@);
            return true;
        }
        i += 1;
    }
    assert forall|j: int| 0 <= j < views(v@).len() implies views(v@)[j] != s@ by {
        assert(views(v@)[j] == v@[j]@);
    }
    false
}

/// Adding a text adds its bytes.
proof fn lemma_total_bytes_push(ss: Seq<Seq<char>>, s: Seq<char>)
    ensures
        total_bytes(ss.push(s)) == total_bytes(ss) + byte_len(s),
{
    assert(ss.push(s).drop_last() =~= ss);
}

/// The keys of texts.
pub open spec fn keys_of(ss: Seq<Seq<char>>) -> Seq<Seq<char>> {
    ss.map_values(|c: Seq<char>| snippet_key(c))
}

/// Takes the snippets `ss` into `combined` as `absorb` says; `keys` holds
/// the keys of the snippets taken and `total` their bytes.
fn absorb_snippets(
    combined: &mut Vec<String>,
    keys: &mut Vec<String>,
    total: &mut usize,
    ss: &Vec<String>,
    max: usize,
)
    requires
        views(old(keys)@) == keys_of(views(old(combined)@)),
        *old(total) == total_bytes(views(old(combined)@)),
        forall|j: int| 0 <= j < ss@.len() ==> byte_len(#[trigger] ss@[j]@) + max <= usize::MAX,
    ensures
        views(final(combined)@) == absorb(views(old(combined)@), views(ss@), max as nat),
        views(final(keys)@) == keys_of(views(final(combined)@)),
        *final(total) == total_bytes(views(final(combined)@)),
{
    let ghost c0 = views(combined@);
    let mut j: usize = 0;
    assert(views(ss@).take(0) =~= Seq::<Seq<char>>::empty());
    while j < ss.len()
        invariant
            j <= ss@.len(),
            forall|k: int| 0 <= k < ss@.len() ==> byte_len(#[trigger] ss@[k]@) + max <= usize::MAX,
            views(combined@) == absorb(c0, views(ss@).take(j as int), max as nat),
            views(keys@) == keys_of(views(combined@)),
            *total == total_bytes(views(combined@)),
        decreases ss@.len() - j,
    {
        let ghost a = views(combined@);
        let s = &ss[j];
        proof {
            assert(views(ss@).take(j + 1).drop_last() =~= views(ss@).take(j as int));
            assert(views(ss@).take(j + 1).last() == s@);
        }
        if *total <= max {
            let k = key_of(s);
            let seen = holds_text(keys, &k);
            proof {
                if seen {
                    let i = choose|i: int| 0 <= i < views(keys@).len() && views(keys@)[i] == k@;
                    assert(snippet_key(a[i]) == snippet_key(s@));
                } else {
                    assert forall|i: int| 0 <= i < a.len() implies snippet_key(#[trigger] a[i]) != snippet_key(s@) by {
                        assert(views(keys@)[i] == snippet_key(a[i]));
                    }
                }
            }
            if !seen {
                proof {
                    lemma_total_bytes_push(a, s@);
                }
                let len = s.as_str().as_bytes().len();
                *total = *total + len;
                combined.push(s.clone());
                keys.push(k);
                proof {
                    assert(views(combined@) =~= a.push(s@));
                    assert(keys_of(a.push(s@)) =~= keys_of(a).push(snippet_key(s@)));
                    assert(views(keys@) =~= keys_of(a).push(k@));
                }
            }
        }
        j += 1;
    }
    assert(views(ss@).take(j as int) =~= views(ss@));
}

/// The words of `ws` lowercased, those of more than 3 bytes.
pub open spec fn long_lowercase(ws: Seq<Seq<char>>) -> Seq<Seq<char>>
    decreases ws.len(),
{
    if ws.len() == 0 {
        Seq::empty()
    } else {
        let p = long_lowercase(ws.drop_last());
        let l = lowercase(ws.last());
        if byte_len(l) > 3 {
            p.push(l)
        } else {
            p
        }
    }
}

/// The candidate topics of results: the lowercased words of more than 3
/// bytes of their titles, title by title.
pub open spec fn title_words(rs: Seq<DigestView>) -> Seq<Seq<char>>
    decreases rs.len(),
{
    if rs.len() == 0 {
        Seq::empty()
    } else {
        title_words(rs.drop_last()) + long_lowercase(words(rs.last().title))
    }
}

/// The number of words of the titles of results, before any is left out.
pub open spec fn title_word_count(rs: Seq<DigestView>) -> nat
    decreases rs.len(),
{
    if rs.len() == 0 {
        0
    } else {
        title_word_count(rs.drop_last()) + words(rs.last().title).len()
    }
}

/// How often `w` occurs in `ws`.
pub open spec fn occurrences(ws: Seq<Seq<char>>, w: Seq<char>) -> nat
    decreases ws.len(),
{
    if ws.len() == 0 {
        0
    } else {
        occurrences(ws.drop_last(), w) + if ws.last() == w { 1nat } else { 0nat }
    }
}

/// The words of `ws`, each once, in the order they first occur.
pub open spec fn distinct_words(ws: Seq<Seq<char>>) -> Seq<Seq<char>>
    decreases ws.len(),
{
    if ws.len() == 0 {
        Seq::empty()
    } else {
        let d = distinct_words(ws.drop_last());
        if d.contains(ws.last()) {
            d
        } else {
            d.push(ws.last())
        }
    }
}

/// `s` with `x` placed before the first word counted less often, so that
/// words counted as often keep their order.
pub open spec fn insert_by_count(s: Seq<(Seq<char>, nat)>, x: (Seq<char>, nat)) -> Seq<(Seq<char>, nat)>
    decreases s.len(),
{
    if s.len() == 0 {
        seq![x]
    } else if s[0].1 < x.1 {
        seq![x] + s
    } else {
        seq![s[0]] + insert_by_count(s.drop_first(), x)
    }
}

/// Counted words ordered by count, most first; words of equal count keep
/// their order (a stable sort).
pub open spec fn sort_by_count(s: Seq<(Seq<char>, nat)>) -> Seq<(Seq<char>, nat)>
    decreases s.len(),
{
    if s.len() == 0 {
        s
    } else {
        insert_by_count(sort_by_count(s.drop_last()), s.last())
    }
}

/// The topics of results: among the candidate words of the first 10
/// titles, the 5 that occur most often, most frequent first; words as
/// frequent come in the order they first occur.
pub open spec fn common_topics(rs: Seq<DigestView>) -> Seq<Seq<char>> {
    let ws = title_words(rs.take(if rs.len() <= 10 { rs.len() as int } else { 10 }));
    let ranked = sort_by_count(distinct_words(ws).map_values(|w: Seq<char>| (w, occurrences(ws, w))));
    ranked.take(if ranked.len() <= 5 { ranked.len() as int } else { 5 }).map_values(
        |p: (Seq<char>, nat)| p.0,
    )
}

/// A word occurs no more often than there are words.
proof fn lemma_occurrences_bound(ws: Seq<Seq<char>>, w: Seq<char>)
    ensures
        occurrences(ws, w) <= ws.len(),
    decreases ws.len(),
{
    if ws.len() > 0 {
        lemma_occurrences_bound(ws.drop_last(), w);
    }
}

/// Leaving words out gives no more words.
proof fn lemma_long_lowercase_len(ws: Seq<Seq<char>>)
    ensures
        long_lowercase(ws).len() <= ws.len(),
    decreases ws.len(),
{
    if ws.len() > 0 {
        lemma_long_lowercase_len(ws.drop_last());
    }
}

/// The candidate words of results are no more than the words of their
/// titles.
proof fn lemma_title_words_len(rs: Seq<DigestView>)
    ensures
        title_words(rs).len() <= title_word_count(rs),
    decreases rs.len(),
{
    if rs.len() > 0 {
        lemma_title_words_len(rs.drop_last());
        lemma_long_lowercase_len(words(rs.last().title));
    }
}

/// The word counts of a prefix of results are no more than those of all.
proof fn lemma_title_word_count_prefix(rs: Seq<DigestView>, i: int)
    requires
        0 <= i <= rs.len(),
    ensures
        title_word_count(rs.take(i)) <= title_word_count(rs),
    decreases rs.len(),
{
    if i < rs.len() {
        lemma_title_word_count_prefix(rs.drop_last(), i);
        assert(rs.drop_last().take(i) =~= rs.take(i));
    } else {
        assert(rs.take(i) =~= rs);
    }
}

/// The position of the text `s` in `v`, if `v` holds it.
fn position_of_text(v: &Vec<String>, s: &String) -> (r: Option<usize>)
    ensures
        r matches Some(k) ==> k < v@.len() && v@[k as int]@ == s@,
        r is None ==> !views(v@).contains(s@),
{
    let mut i: usize = 0;
    while i < v.len()
        invariant
            i <= v@.len(),
            forall|j: int| 0 <= j < i ==> v@[j]@ != s@,
        decreases v@.len() - i,
    {
        if same_text(v[i].as_str(), s.as_str()) {
            return Some(i);
        }
        i += 1;
    }
    assert forall|j: int| 0 <= j < views(v@).len() implies views(v@)[j] != s@ by {
        assert(views(v@)[j] == v@[j]@);
    }
    None
}

/// The words of `ds` with the counts `cs`.
pub open spec fn counted(ds: Seq<Seq<char>>, cs: Seq<usize>) -> Seq<(Seq<char>, nat)> {
    Seq::new(ds.len(), |i: int| (ds[i], cs[i] as nat))
}

/// Whether `found` and `counts` hold the distinct words of `ws` and how often
/// each occurs.
pub open spec fn tallies(found: Seq<String>, counts: Seq<usize>, ws: Seq<Seq<char>>) -> bool {
    &&& views(found) == distinct_words(ws)
    &&& counts.len() == found.len()
    &&& forall|k: int| 0 <= k < counts.len() ==> counts[k] == occurrences(ws, #[trigger] views(found)[k])
}

/// Distinct words occur once each.
proof fn lemma_distinct_words_unique(ws: Seq<Seq<char>>)
    ensures
        forall|a: int, b: int|
            0 <= a < b < distinct_words(ws).len() ==> distinct_words(ws)[a] != distinct_words(ws)[b],
        forall|w: Seq<char>| distinct_words(ws).contains(w) <==> ws.contains(w),
    decreases ws.len(),
{
    if ws.len() > 0 {
        lemma_distinct_words_unique(ws.drop_last());
        let d = distinct_words(ws.drop_last());
        let dl = ws.drop_last();
        assert forall|w: Seq<char>| ws.contains(w) <==> (dl.contains(w) || ws.last() == w) by {
            if ws.contains(w) {
                let k = choose|k: int| 0 <= k < ws.len() && ws[k] == w;
                if k < ws.len() - 1 {
                    assert(dl[k] == w);
                }
            }
            if dl.contains(w) {
                let k = choose|k: int| 0 <= k < dl.len() && dl[k] == w;
                assert(ws[k] == w);
            }
            if ws.last() == w {
                assert(ws[ws.len() - 1] == w);
            }
        }
        assert forall|w: Seq<char>| distinct_words(ws).contains(w) <==> (d.contains(w) || ws.last() == w) by {
            if d.contains(ws.last()) {
            } else {
                let e = d.push(ws.last());
                if e.contains(w) {
                    let k = choose|k: int| 0 <= k < e.len() && e[k] == w;
                    if k < d.len() {
                        assert(d[k] == w);
                    }
                }
                if d.contains(w) {
                    let k = choose|k: int| 0 <= k < d.len() && d[k] == w;
                    assert(e[k] == w);
                }
                if ws.last() == w {
                    assert(e[d.len() as int] == w);
                }
            }
        }
    }
}

/// Counts the word `w` into `found` and `counts`.
fn tally_word(found: &mut Vec<String>, counts: &mut Vec<usize>, w: String, Ghost(ws): Ghost<Seq<Seq<char>>>)
    requires
        tallies(old(found)@, old(counts)@, ws),
        ws.len() < usize::MAX,
    ensures
        tallies(final(found)@, final(counts)@, ws.push(w@)),
{
    let ghost wv = w@;
    proof {
        lemma_distinct_words_unique(ws);
        assert(ws.push(wv).drop_last() =~= ws);
        assert(ws.push(wv).last() == wv);
    }
    match position_of_text(found, &w) {
        Some(k) => {
            proof {
                assert(views(found@)[k as int] == wv);
                assert(distinct_words(ws).contains(wv));
                lemma_occurrences_bound(ws, wv);
            }
            let c = counts[k] + 1;
            counts.set(k, c);
            proof {
                assert forall|m: int| 0 <= m < counts@.len() implies counts@[m] == occurrences(ws.push(wv), #[trigger] views(found@)[m]) by {
                    if m != k {
                        assert(views(found@)[m] != views(found@)[k as int]);
                    }
                }
            }
        },
        None => {
            found.push(w);
            counts.push(1);
            proof {
                assert(views(found@) =~= distinct_words(ws).push(wv));
                assert forall|m: int| 0 <= m < counts@.len() implies counts@[m] == occurrences(ws.push(wv), #[trigger] views(found@)[m]) by {
                    if m < counts@.len() - 1 {
                        assert(views(found@)[m] == distinct_words(ws)[m]);
                        assert(distinct_words(ws).contains(distinct_words(ws)[m]));
                        assert(views(found@)[m] != wv);
                    } else {
                        assert(!ws.contains(wv));
                        lemma_occurrences_absent(ws, wv);
                    }
                }
            }
        },
    }
}

/// A word that does not occur has no occurrences.
proof fn lemma_occurrences_absent(ws: Seq<Seq<char>>, w: Seq<char>)
    requires
        !ws.contains(w),
    ensures
        occurrences(ws, w) == 0,
    decreases ws.len(),
{
    if ws.len() > 0 {
        assert(ws[ws.len() - 1] == ws.last());
        assert forall|k: int| 0 <= k < ws.drop_last().len() implies ws.drop_last()[k] != w by {
            assert(ws[k] == ws.drop_last()[k]);
        }
        lemma_occurrences_absent(ws.drop_last(), w);
    }
}

/// Counts the candidate topic words of `title` into `found` and `counts`.
fn tally_title(found: &mut Vec<String>, counts: &mut Vec<usize>, title: &String, Ghost(ws): Ghost<Seq<Seq<char>>>)
    requires
        tallies(old(found)@, old(counts)@, ws),
        ws.len() + words(title@).len() <= usize::MAX,
    ensures
        tallies(final(found)@, final(counts)@, ws + long_lowercase(words(title@))),
{
    let v = chars_of(title.as_str());
    let tw = words_in(&v, 0, v.len());
    assert(v@.subrange(0, v@.len() as int) =~= title@);
    let ghost all = views(tw@);
    let mut j: usize = 0;
    proof {
        assert(all.take(0) =~= Seq::<Seq<char>>::empty());
        assert(ws + long_lowercase(all.take(0)) =~= ws);
    }
    while j < tw.len()
        invariant
            j <= tw@.len(),
            all == views(tw@),
            all == words(title@),
            ws.len() + all.len() <= usize::MAX,
            tallies(found@, counts@, ws + long_lowercase(all.take(j as int))),
        decreases tw@.len() - j,
    {
        let ghost cur = ws + long_lowercase(all.take(j as int));
        proof {
            assert(all.take(j + 1).drop_last() =~= all.take(j as int));
            assert(all.take(j + 1).last() == tw@[j as int]@);
            lemma_long_lowercase_len(all.take(j as int));
        }
        let lw = to_lowercase(tw[j].as_str());
        let lw_bytes = lw.as_str().as_bytes().len();
        assert(all[j as int] == tw@[j as int]@);
        assert(all.take(j + 1).last() == all[j as int]);
        if lw_bytes > 3 {
            tally_word(found, counts, lw, Ghost(cur));
            assert(cur.push(lw@) =~= ws + long_lowercase(all.take(j + 1)));
        } else {
            assert(long_lowercase(all.take(j + 1)) == long_lowercase(all.take(j as int)));
        }
        j += 1;
    }
    assert(all.take(j as int) =~= all);
}

/// The words of `ds`, counted `cs`, in the order of the positions `order`.
pub open spec fn in_order(ds: Seq<Seq<char>>, cs: Seq<usize>, order: Seq<usize>) -> Seq<(Seq<char>, nat)> {
    order.map_values(|i: usize| counted(ds, cs)[i as int])
}

/// The positions of the words `found`, ordered by their counts as
/// `sort_by_count` orders them.
fn rank_by_count(found: &Vec<String>, counts: &Vec<usize>) -> (order: Vec<usize>)
    requires
        counts@.len() == found@.len(),
    ensures
        forall|i: int| 0 <= i < order@.len() ==> order@[i] < found@.len(),
        in_order(views(found@), counts@, order@) == sort_by_count(counted(views(found@), counts@)),
{
    let ghost ps = counted(views(found@), counts@);
    let mut order: Vec<usize> = Vec::new();
    let mut i: usize = 0;
    assert(ps.take(0) =~= Seq::<(Seq<char>, nat)>::empty());
    assert(in_order(views(found@), counts@, order@) =~= Seq::<(Seq<char>, nat)>::empty());
    while i < found.len()
        invariant
            i <= found@.len(),
            counts@.len() == found@.len(),
            ps == counted(views(found@), counts@),
            forall|m: int| 0 <= m < order@.len() ==> order@[m] < i,
            in_order(views(found@), counts@, order@) == sort_by_count(ps.take(i as int)),
        decreases found@.len() - i,
    {
        let ghost vs = in_order(views(found@), counts@, order@);
        let c = counts[i];
        let mut k: usize = 0;
        assert(vs.skip(0) =~= vs);
        assert(vs.take(0) + insert_by_count(vs, ps[i as int]) =~= insert_by_count(vs, ps[i as int]));
        while k < order.len() && c <= counts[order[k]]
            invariant
                k <= order@.len(),
                counts@.len() == found@.len(),
                i < found@.len(),
                c == counts@[i as int],
                ps == counted(views(found@), counts@),
                forall|m: int| 0 <= m < order@.len() ==> order@[m] < i,
                vs == in_order(views(found@), counts@, order@),
                insert_by_count(vs, ps[i as int]) == vs.take(k as int) + insert_by_count(vs.skip(k as int), ps[i as int]),
            decreases order@.len() - k,
        {
            let ghost t = vs.skip(k as int);
            assert(t[0] == ps[order@[k as int] as int]);
            assert(t.drop_first() =~= vs.skip(k + 1));
            assert(vs.take(k + 1) =~= vs.take(k as int).push(t[0]));
            assert(vs.take(k as int) + insert_by_count(t, ps[i as int]) =~= vs.take(k + 1) + insert_by_count(
                vs.skip(k + 1),
                ps[i as int],
            ));
            k += 1;
        }
        let ghost before = order@;
        order.insert(k, i);
        proof {
            let t = vs.skip(k as int);
            if k < before.len() {
                assert(t[0] == ps[before[k as int] as int]);
            }
            assert(insert_by_count(t, ps[i as int]) =~= seq![ps[i as int]] + t);
            assert(in_order(views(found@), counts@, order@) =~= vs.take(k as int) + (seq![ps[i as int]] + t));
            assert(ps.take(i + 1).drop_last() =~= ps.take(i as int));
            assert(ps.take(i + 1).last() == ps[i as int]);
        }
        i += 1;
    }
    assert(ps.take(i as int) =~= ps);
    order
}

/// Search results split for an AI client: the best ones, more for context,
/// what was searched for, and a summary of their content.
#[derive(Debug)]
pub struct AggregatedSearchResult<T> {
    /// The best results.
    pub primary_results: Vec<T>,
    /// The results that follow them, for context.
    pub supplementary_results: Vec<T>,
    pub query_metadata: QueryMetadata,
    pub content_summary: ContentSummary,
}

/// The hints for an AI client: the first 3 topics to focus on; and the
/// strategy, `direct_answer` where the best result answers the query
/// confidently, else `synthesize_multiple` where there are more than 3
/// primary results, else `exploratory`.
pub fn generate_hints(high_confidence_match: bool, primary_count: usize, common_topics: &Vec<String>) -> (r:
    AIProcessingHints)
    ensures
        views(r.focus_areas@) == views(common_topics@).take(
            if common_topics@.len() <= 3 { common_topics@.len() as int } else { 3 },
        ),
        r.high_confidence_match == high_confidence_match,
        r.response_strategy@ == (if high_confidence_match {
            "direct_answer"@
        } else if primary_count > 3 {
            "synthesize_multiple"@
        } else {
            "exploratory"@
        }),
{
    let n: usize = if common_topics.len() <= 3 { common_topics.len() } else { 3 };
    let mut focus_areas: Vec<String> = Vec::new();
    let mut i: usize = 0;
    while i < n
        invariant
            n <= common_topics@.len(),
            i <= n,
            views(focus_areas@) == views(common_topics@).take(i as int),
        decreases n - i,
    {
        let ghost before = views(focus_areas@);
        focus_areas.push(common_topics[i].clone());
        assert(views(focus_areas@) =~= before.push(common_topics@[i as int]@));
        assert(views(common_topics@)[i as int] == common_topics@[i as int]@);
        assert(views(focus_areas@) =~= views(common_topics@).take(i + 1));
        i += 1;
    }
    let response_strategy = if high_confidence_match {
        let t = String::from_str("direct_answer");
        proof {
            reveal_strlit("direct_answer");
        }
        t
    } else if primary_count > 3 {
        let t = String::from_str("synthesize_multiple");
        proof {
            reveal_strlit("synthesize_multiple");
        }
        t
    } else {
        let t = String::from_str("exploratory");
        proof {
            reveal_strlit("exploratory");
        }
        t
    };
    AIProcessingHints { focus_areas, high_confidence_match, response_strategy }
}

/// Whether no two of the snippets begin alike.
pub open spec fn keys_distinct(c: Seq<Seq<char>>) -> bool {
    forall|a: int, b: int| 0 <= a < b < c.len() ==> snippet_key(c[a]) != snippet_key(c[b])
}

/// Whether the snippets before the last hold at most `max` bytes.
pub open spec fn fits_but_last(c: Seq<Seq<char>>, max: nat) -> bool {
    c.len() > 0 ==> total_bytes(c.drop_last()) <= max
}

/// Taking snippets keeps them distinct and within the limit but for the
/// last.
proof fn lemma_absorb_keeps(acc: Seq<Seq<char>>, ss: Seq<Seq<char>>, max: nat)
    requires
        keys_distinct(acc),
        fits_but_last(acc, max),
    ensures
        keys_distinct(absorb(acc, ss, max)),
        fits_but_last(absorb(acc, ss, max), max),
    decreases ss.len(),
{
    if ss.len() > 0 {
        lemma_absorb_keeps(acc, ss.drop_last(), max);
        let a = absorb(acc, ss.drop_last(), max);
        if !(total_bytes(a) > max || key_seen(a, ss.last())) {
            let c = a.push(ss.last());
            assert(c.drop_last() =~= a);
            assert forall|x: int, y: int| 0 <= x < y < c.len() implies snippet_key(c[x]) != snippet_key(c[y]) by {
                if y == c.len() - 1 {
                    assert(c[x] == a[x]);
                    assert(!(snippet_key(a[x]) == snippet_key(ss.last())));
                } else {
                    assert(c[x] == a[x] && c[y] == a[y]);
                }
            }
        }
    }
}

/// The snippets taken from results are distinct and within the limit but
/// for the last.
proof fn lemma_combined_keeps(rs: Seq<DigestView>, max: nat)
    ensures
        keys_distinct(combined(rs, max)),
        fits_but_last(combined(rs, max), max),
    decreases rs.len(),
{
    if rs.len() > 0 {
        lemma_combined_keeps(rs.drop_last(), max);
        lemma_absorb_keeps(combined(rs.drop_last(), max), rs.last().snippets, max);
    }
}

/// The summary lists each domain once.
proof fn lemma_domains_distinct(rs: Seq<DigestView>, max: nat)
    ensures
        forall|a: int, b: int|
            0 <= a < b < summary_domains(rs, max).len() ==> summary_domains(rs, max)[a] != summary_domains(
                rs,
                max,
            )[b],
    decreases rs.len(),
{
    if rs.len() > 0 {
        lemma_domains_distinct(rs.drop_last(), max);
        let prev = summary_domains(rs.drop_last(), max);
        let d = summary_domains(rs, max);
        if d != prev {
            assert forall|a: int, b: int| 0 <= a < b < d.len() implies d[a] != d[b] by {
                if b == d.len() - 1 {
                    assert(d[a] == prev[a]);
                    assert(!prev.contains(rs.last().domain));
                }
            }
        }
    }
}

/// The content summary holds no two snippets that begin alike (in their
/// first 50 characters) and no domain twice; and the snippets stop at the
/// first that brings them past the content limit: all before it fit.
pub proof fn law_summary_unique_and_bounded(rs: Seq<DigestView>, max: nat)
    ensures
        keys_distinct(combined(rs, max)),
        fits_but_last(combined(rs, max), max),
        forall|a: int, b: int|
            0 <= a < b < summary_domains(rs, max).len() ==> summary_domains(rs, max)[a] != summary_domains(
                rs,
                max,
            )[b],
{
    lemma_combined_keeps(rs, max);
    lemma_domains_distinct(rs, max);
}

/// The first `n` results, or all where there are fewer.
pub open spec fn first_results(rs: Seq<DigestView>, n: nat) -> Seq<DigestView> {
    if rs.len() <= n {
        rs
    } else {
        rs.take(n as int)
    }
}

/// Splits search results into primary and supplementary ones and sums up
/// their content.
#[derive(Debug)]
pub struct SearchAggregator {
    max_primary: usize,
    max_supplementary: usize,
    max_content_size: usize,
}

impl SearchAggregator {
    /// The two result limits add up within `usize`.
    #[verifier::type_invariant]
    spec fn limits_fit(self) -> bool {
        self.max_primary + self.max_supplementary <= usize::MAX
    }

    /// The summary of results, ordered best first: from the first primary
    /// and supplementary ones, their domains (each once) and their distinct
    /// snippets, taken in order until they hold more than the content limit
    /// in bytes, and the bytes taken; and the topics of all the results.
    pub fn build_content_summary(&self, results: &[ResultDigest]) -> (r: ContentSummary)
        requires
            forall|i: int, j: int|
                0 <= i < results@.len() && 0 <= j < results@[i].content_snippets@.len()
                    ==> byte_len(#[trigger] results@[i].content_snippets@[j]@) + self.content_limit() <= usize::MAX,
            title_word_count(digest_views(results@)) <= usize::MAX,
        ensures
            views(r.combined_snippets@) == combined(
                first_results(digest_views(results@), self.primary_limit() + self.supplementary_limit()),
                self.content_limit(),
            ),
            views(r.domains@) == summary_domains(
                first_results(digest_views(results@), self.primary_limit() + self.supplementary_limit()),
                self.content_limit(),
            ),
            r.total_content_chars == total_bytes(
                combined(
                    first_results(digest_views(results@), self.primary_limit() + self.supplementary_limit()),
                    self.content_limit(),
                ),
            ),
            views(r.common_topics@) == common_topics(digest_views(results@)),
    {
        proof {
            use_type_invariant(self);
        }
        let ghost rs = digest_views(results@);
        let limit = self.max_primary + self.max_supplementary;
        let n: usize = if results.len() <= limit { results.len() } else { limit };
        let ghost firsts = first_results(rs, limit as nat);
        assert(firsts == rs.take(n as int));
        let max = self.max_content_size;
        let mut taken: Vec<String> = Vec::new();
        let mut keys: Vec<String> = Vec::new();
        let mut domains: Vec<String> = Vec::new();
        let mut total: usize = 0;
        let mut i: usize = 0;
        proof {
            assert(firsts.take(0) =~= Seq::<DigestView>::empty());
            assert(views(taken@) =~= Seq::<Seq<char>>::empty());
            assert(views(keys@) =~= keys_of(Seq::<Seq<char>>::empty()));
            assert(views(domains@) =~= Seq::<Seq<char>>::empty());
        }
        while i < n
            invariant
                n <= results@.len(),
                i <= n,
                rs == digest_views(results@),
                firsts == rs.take(n as int),
                max == self.content_limit(),
                forall|a: int, b: int|
                    0 <= a < results@.len() && 0 <= b < results@[a].content_snippets@.len()
                        ==> byte_len(#[trigger] results@[a].content_snippets@[b]@) + max <= usize::MAX,
                views(taken@) == combined(firsts.take(i as int), max as nat),
                views(keys@) == keys_of(views(taken@)),
                total == total_bytes(views(taken@)),
                views(domains@) == summary_domains(firsts.take(i as int), max as nat),
            decreases n - i,
        {
            let result = &results[i];
            proof {
                assert(firsts.take(i + 1).drop_last() =~= firsts.take(i as int));
                assert(firsts.take(i + 1).last() == result@);
            }
            if total <= max && !holds_text(&domains, &result.domain) {
                domains.push(result.domain.clone());
                assert(views(domains@) =~= summary_domains(firsts.take(i as int), max as nat).push(result.domain@));
            }
            assert(forall|b: int| 0 <= b < result.content_snippets@.len()
                ==> byte_len(#[trigger] result.content_snippets@[b]@) + max <= usize::MAX);
            absorb_snippets(&mut taken, &mut keys, &mut total, &result.content_snippets, max);
            i += 1;
        }
        assert(firsts.take(i as int) =~= firsts);
        let common_topics = self.extract_common_topics(results);
        ContentSummary { combined_snippets: taken, common_topics, domains, total_content_chars: total }
    }

    /// Aggregates results ordered best first, `digests` describing them one
    /// for one: the first primary ones, the supplementary ones that follow,
    /// the query with the numbers of results, and the content summary.
    pub fn aggregate_ranked<T>(&self, query: &str, ranked: Vec<T>, digests: &[ResultDigest]) -> (r:
        AggregatedSearchResult<T>)
        requires
            digests@.len() == ranked@.len(),
            forall|i: int, j: int|
                0 <= i < digests@.len() && 0 <= j < digests@[i].content_snippets@.len()
                    ==> byte_len(#[trigger] digests@[i].content_snippets@[j]@) + self.content_limit() <= usize::MAX,
            title_word_count(digest_views(digests@)) <= usize::MAX,
        ensures
            r.primary_results@ == ranked@.take(
                if ranked@.len() <= self.primary_limit() { ranked@.len() as int } else { self.primary_limit() as int },
            ),
            r.supplementary_results@ == ranked@.skip(r.primary_results@.len() as int).take(
                if ranked@.len() - r.primary_results@.len() <= self.supplementary_limit() {
                    ranked@.len() - r.primary_results@.len()
                } else {
                    self.supplementary_limit() as int
                },
            ),
            r.query_metadata.original_query@ == query@,
            r.query_metadata.total_matches == ranked@.len(),
            r.query_metadata.returned_primary == r.primary_results@.len(),
            r.query_metadata.returned_supplementary == r.supplementary_results@.len(),
            r.query_metadata.search_strategy@ == "field_boosting_v1.2"@,
            views(r.content_summary.combined_snippets@) == combined(
                first_results(digest_views(digests@), self.primary_limit() + self.supplementary_limit()),
                self.content_limit(),
            ),
            views(r.content_summary.domains@) == summary_domains(
                first_results(digest_views(digests@), self.primary_limit() + self.supplementary_limit()),
                self.content_limit(),
            ),
            r.content_summary.total_content_chars == total_bytes(
                combined(
                    first_results(digest_views(digests@), self.primary_limit() + self.supplementary_limit()),
                    self.content_limit(),
                ),
            ),
            views(r.content_summary.common_topics@) == common_topics(digest_views(digests@)),
    {
        let total = ranked.len();
        let content_summary = self.build_content_summary(digests);
        let mut primary = ranked;
        let p: usize = if total <= self.max_primary { total } else { self.max_primary };
        let mut supplementary = primary.split_off(p);
        let rest = total - p;
        let q: usize = if rest <= self.max_supplementary { rest } else { self.max_supplementary };
        supplementary.truncate(q);
        let strategy = String::from_str("field_boosting_v1.2");
        proof {
            reveal_strlit("field_boosting_v1.2");
        }
        let query_metadata = QueryMetadata {
            original_query: String::from_str(query),
            total_matches: total,
            returned_primary: primary.len(),
            returned_supplementary: supplementary.len(),
            search_strategy: strategy,
        };
        AggregatedSearchResult {
            primary_results: primary,
            supplementary_results: supplementary,
            query_metadata,
            content_summary,
        }
    }

    /// The topics of the results: among the lowercased words of more than 3
    /// bytes of the first 10 titles, the 5 that occur most often, most
    /// frequent first, words as frequent in the order they first occur.
    pub fn extract_common_topics(&self, results: &[ResultDigest]) -> (r: Vec<String>)
        requires
            title_word_count(digest_views(results@)) <= usize::MAX,
        ensures
            views(r@) == common_topics(digest_views(results@)),
    {
        let ghost rs = digest_views(results@);
        let n: usize = if results.len() <= 10 { results.len() } else { 10 };
        let ghost firsts = rs.take(n as int);
        let mut found: Vec<String> = Vec::new();
        let mut counts: Vec<usize> = Vec::new();
        let mut i: usize = 0;
        proof {
            lemma_title_word_count_prefix(rs, n as int);
            assert(firsts.take(0) =~= Seq::<DigestView>::empty());
            assert(views(found@) =~= Seq::<Seq<char>>::empty());
        }
        while i < n
            invariant
                n <= results@.len(),
                i <= n,
                rs == digest_views(results@),
                firsts == rs.take(n as int),
                title_word_count(firsts) <= usize::MAX,
                tallies(found@, counts@, title_words(firsts.take(i as int))),
            decreases n - i,
        {
            let ghost ws = title_words(firsts.take(i as int));
            proof {
                assert(firsts.take(i + 1).drop_last() =~= firsts.take(i as int));
                assert(firsts.take(i + 1).last() == results@[i as int]@);
                lemma_title_words_len(firsts.take(i as int));
                lemma_title_word_count_prefix(firsts, i + 1);
            }
            tally_title(&mut found, &mut counts, &results[i].title, Ghost(ws));
            i += 1;
        }
        assert(firsts.take(i as int) =~= firsts);
        let ghost ws = title_words(firsts);
        let order = rank_by_count(&found, &counts);
        let ghost ranked = in_order(views(found@), counts@, order@);
        proof {
            assert(counted(views(found@), counts@) =~= distinct_words(ws).map_values(
                |w: Seq<char>| (w, occurrences(ws, w)),
            ));
            assert(ranked.len() == order@.len());
        }
        let m: usize = if order.len() <= 5 { order.len() } else { 5 };
        let mut topics: Vec<String> = Vec::new();
        let mut k: usize = 0;
        while k < m
            invariant
                m <= order@.len(),
                k <= m,
                forall|a: int| 0 <= a < order@.len() ==> order@[a] < found@.len(),
                ranked == in_order(views(found@), counts@, order@),
                views(topics@) == ranked.take(k as int).map_values(|p: (Seq<char>, nat)| p.0),
            decreases m - k,
        {
            let idx = order[k];
            let ghost before = views(topics@);
            topics.push(found[idx].clone());
            proof {
                assert(ranked[k as int].0 == found@[idx as int]@);
                assert(views(topics@) =~= before.push(found@[idx as int]@));
                assert(ranked.take(k + 1).map_values(|p: (Seq<char>, nat)| p.0) =~= ranked.take(
                    k as int,
                ).map_values(|p: (Seq<char>, nat)| p.0).push(ranked[k as int].0));
            }
            k += 1;
        }
        topics
    }

    /// The most primary results.
    pub closed spec fn primary_limit(&self) -> nat {
        self.max_primary as nat
    }

    /// The most supplementary results.
    pub closed spec fn supplementary_limit(&self) -> nat {
        self.max_supplementary as nat
    }

    /// The most bytes of snippets combined.
    pub closed spec fn content_limit(&self) -> nat {
        self.max_content_size as nat
    }

    /// An aggregator of 5 primary and 10 supplementary results and up to
    /// 50000 bytes of snippets.
    pub fn new() -> (r: Self)
        ensures
            r.primary_limit() == 5,
            r.supplementary_limit() == 10,
            r.content_limit() == 50000,
    {
        SearchAggregator { max_primary: 5, max_supplementary: 10, max_content_size: 50000 }
    }
}

impl Default for SearchAggregator {
    fn default() -> (r: Self)
        ensures
            r.primary_limit() == 5,
            r.supplementary_limit() == 10,
            r.content_limit() == 50000,
    {
        Self::new()
    }
}

} // verus!
