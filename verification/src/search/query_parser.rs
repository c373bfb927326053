//! Parsing of search queries into quoted phrases and single words.
use vstd::prelude::*;

use crate::text::{
    chars_of, is_trimmed, is_ws, lemma_trim_is_trimmed, lemma_trim_of_trimmed, lemma_words_fold_shape,
    lemma_words_of_word, lemma_words_shape, no_ws, push_char, string_from_range, trim, trim_bounds, views, words,
    words_fold, words_in,
};

verus! {

/// A parsed query term.
#[derive(Debug, Clone, PartialEq)]
pub enum QueryTerm {
    /// A phrase that must appear exactly as written (quoted in the query).
    Phrase(String),
    /// A single word or token.
    Word(String),
}

/// The mathematical value of a query term.
pub enum TermView {
    Phrase(Seq<char>),
    Word(Seq<char>),
}

impl View for QueryTerm {
    type V = TermView;

    open spec fn view(&self) -> TermView {
        match self {
            QueryTerm::Phrase(p) => TermView::Phrase(p@),
            QueryTerm::Word(w) => TermView::Word(w@),
        }
    }
}

/// A term as it is written in a query: a phrase between double quotes, a
/// word as it is.
pub open spec fn written(t: TermView) -> Seq<char> {
    match t {
        TermView::Phrase(p) => seq!['"'] + p + seq!['"'],
        TermView::Word(w) => w,
    }
}

impl QueryTerm {
    /// The term as it is written in a query.
    pub fn to_text(&self) -> (r: String)
        ensures
            r@ == written(self@),
    {
        match self {
            QueryTerm::Phrase(p) => {
                let mut s = String::new();
                push_char(&mut s, '"');
                s.append(p.as_str());
                push_char(&mut s, '"');
                assert(s@ =~= written(self@));
                s
            },
            QueryTerm::Word(w) => w.clone(),
        }
    }
}

/// The views of a sequence of terms.
pub open spec fn term_views(v: Seq<QueryTerm>) -> Seq<TermView> {
    v.map_values(|t: QueryTerm| t@)
}

/// The text of a term.
pub open spec fn term_text(t: TermView) -> Seq<char> {
    match t {
        TermView::Phrase(p) => p,
        TermView::Word(w) => w,
    }
}

/// Characters that end a word outside a phrase.
pub open spec fn is_separator(c: char) -> bool {
    c == ' ' || c == '\t' || c == '\n' || c == '\r'
}

/// Each word of `ws` as a word term.
pub open spec fn word_terms(ws: Seq<Seq<char>>) -> Seq<TermView> {
    ws.map_values(|w: Seq<char>| TermView::Word(w))
}

/// The state of the parser after reading part of a query.
pub struct ParseState {
    pub terms: Seq<TermView>,
    pub current: Seq<char>,
    pub in_phrase: bool,
    pub escape_next: bool,
}

/// The state before any character is read.
pub open spec fn initial_state() -> ParseState {
    ParseState { terms: Seq::empty(), current: Seq::empty(), in_phrase: false, escape_next: false }
}

/// Reading one character `c` in state `st`.
///
/// A backslash makes the next character literal; a double quote opens or
/// closes a phrase; space, tab, newline and carriage return end a word
/// outside a phrase; every other character is kept.
pub open spec fn step(st: ParseState, c: char) -> ParseState {
    if st.escape_next {
        ParseState { terms: st.terms, current: st.current.push(c), in_phrase: st.in_phrase, escape_next: false }
    } else if c == '\\' {
        ParseState { terms: st.terms, current: st.current, in_phrase: st.in_phrase, escape_next: true }
    } else if c == '"' {
        if st.in_phrase {
            ParseState {
                terms: if trim(st.current).len() > 0 {
                    st.terms.push(TermView::Phrase(trim(st.current)))
                } else {
                    st.terms
                },
                current: Seq::empty(),
                in_phrase: false,
                escape_next: false,
            }
        } else {
            ParseState {
                terms: if trim(st.current).len() > 0 {
                    st.terms + word_terms(words(st.current))
                } else {
                    st.terms
                },
                current: Seq::empty(),
                in_phrase: true,
                escape_next: false,
            }
        }
    } else if is_separator(c) {
        if st.in_phrase {
            ParseState { terms: st.terms, current: st.current.push(c), in_phrase: true, escape_next: false }
        } else {
            ParseState {
                terms: if trim(st.current).len() > 0 {
                    st.terms.push(TermView::Word(trim(st.current)))
                } else {
                    st.terms
                },
                current: Seq::empty(),
                in_phrase: false,
                escape_next: false,
            }
        }
    } else {
        ParseState { terms: st.terms, current: st.current.push(c), in_phrase: st.in_phrase, escape_next: false }
    }
}

/// The state after reading all of `q`.
pub open spec fn parse_fold(q: Seq<char>) -> ParseState
    decreases q.len(),
{
    if q.len() == 0 {
        initial_state()
    } else {
        step(parse_fold(q.drop_last()), q.last())
    }
}

/// The terms of a query: those closed while reading it, then what is left.
/// An unclosed phrase counts as a phrase; leftover text outside a phrase is
/// split into words.
pub open spec fn parse_query(q: Seq<char>) -> Seq<TermView> {
    let st = parse_fold(q);
    if st.in_phrase && trim(st.current).len() > 0 {
        st.terms.push(TermView::Phrase(trim(st.current)))
    } else if trim(st.current).len() > 0 {
        st.terms + word_terms(words(st.current))
    } else {
        st.terms
    }
}

/// Whether a term is a phrase.
pub open spec fn is_phrase(t: TermView) -> bool {
    t is Phrase
}

/// The texts of the phrase terms of `ts`, in order.
pub open spec fn phrases_of(ts: Seq<TermView>) -> Seq<Seq<char>>
    decreases ts.len(),
{
    if ts.len() == 0 {
        Seq::empty()
    } else {
        let rest = phrases_of(ts.drop_last());
        match ts.last() {
            TermView::Phrase(p) => rest.push(p),
            TermView::Word(_) => rest,
        }
    }
}

/// The texts of the word terms of `ts`, in order.
pub open spec fn words_of(ts: Seq<TermView>) -> Seq<Seq<char>>
    decreases ts.len(),
{
    if ts.len() == 0 {
        Seq::empty()
    } else {
        let rest = words_of(ts.drop_last());
        match ts.last() {
            TermView::Word(w) => rest.push(w),
            TermView::Phrase(_) => rest,
        }
    }
}

/// Parser for search queries with phrase support.
pub struct QueryParser;

impl QueryParser {
    /// Parses a query into terms: phrases in double quotes and single words.
    pub fn parse(query: &str) -> (terms: Vec<QueryTerm>)
        ensures
            term_views(terms@) == parse_query(query@),
    {
        let chars = chars_of(query);
        let n = chars.len();
        let mut terms: Vec<QueryTerm> = Vec::new();
        let mut current: Vec<char> = Vec::new();
        let mut in_phrase = false;
        let mut escape_next = false;
        let mut i: usize = 0;
        assert(chars@.take(0) =~= Seq::<char>::empty());
        assert(term_views(terms@) =~= Seq::<TermView>::empty());
        while i < n
            invariant
                n == chars.len(),
                chars@ == query@,
                i <= n,
                parse_fold(chars@.take(i as int)) == (ParseState {
                    terms: term_views(terms@),
                    current: current@,
                    in_phrase,
                    escape_next,
                }),
            decreases n - i,
        {
            let ch = chars[i];
            assert(chars@.take(i + 1).drop_last() =~= chars@.take(i as int));
            if escape_next {
                current.push(ch);
                escape_next = false;
            } else if ch == '\\' {
                escape_next = true;
            } else if ch == '"' {
                let len = current.len();
                let (a, b) = trim_bounds(&current, 0, len);
                assert(current@.subrange(0, len as int) =~= current@);
                if in_phrase {
                    if a < b {
                        let p = string_from_range(&current, a, b);
                        terms.push(QueryTerm::Phrase(p));
                        assert(term_views(terms@) =~= parse_fold(chars@.take(i as int)).terms.push(
                            TermView::Phrase(trim(current@)),
                        ));
                    }
                    in_phrase = false;
                } else {
                    if a < b {
                        let ws = words_in(&current, 0, len);
                        let ghost before = term_views(terms@);
                        let mut k: usize = 0;
                        while k < ws.len()
                            invariant
                                k <= ws.len(),
                                views(ws@) == words(current@),
                                term_views(terms@) == before + word_terms(views(ws@).take(k as int)),
                            decreases ws.len() - k,
                        {
                            let w = ws[k].clone();
                            let ghost old_terms = terms@;
                            terms.push(QueryTerm::Word(w));
                            proof {
                                let t = views(ws@).take(k as int);
                                assert(views(ws@).take(k + 1) =~= t.push(views(ws@)[k as int]));
                                assert(word_terms(t.push(views(ws@)[k as int])) =~= word_terms(t).push(
                                    TermView::Word(views(ws@)[k as int]),
                                ));
                                assert(term_views(terms@) =~= term_views(old_terms).push(
                                    TermView::Word(w@),
                                ));
                                assert(term_views(terms@) =~= before + word_terms(views(ws@).take(k + 1)));
                            }
                            k += 1;
                        }
                        assert(views(ws@).take(ws.len() as int) =~= views(ws@));
                    }
                    in_phrase = true;
                }
                current = Vec::new();
            } else if ch == ' ' || ch == '\t' || ch == '\n' || ch == '\r' {
                if in_phrase {
                    current.push(ch);
                } else {
                    let len = current.len();
                    let (a, b) = trim_bounds(&current, 0, len);
                    assert(current@.subrange(0, len as int) =~= current@);
                    if a < b {
                        let w = string_from_range(&current, a, b);
                        terms.push(QueryTerm::Word(w));
                        assert(term_views(terms@) =~= parse_fold(chars@.take(i as int)).terms.push(
                            TermView::Word(trim(current@)),
                        ));
                    }
                    current = Vec::new();
                }
            } else {
                current.push(ch);
            }
            i += 1;
        }
        assert(chars@.take(n as int) =~= query@);
        let len = current.len();
        let (a, b) = trim_bounds(&current, 0, len);
        assert(current@.subrange(0, len as int) =~= current@);
        if in_phrase && a < b {
            let p = string_from_range(&current, a, b);
            terms.push(QueryTerm::Phrase(p));
            assert(term_views(terms@) =~= parse_fold(query@).terms.push(TermView::Phrase(trim(current@))));
        } else if a < b {
            let ws = words_in(&current, 0, len);
            let ghost before = term_views(terms@);
            let mut k: usize = 0;
            while k < ws.len()
                invariant
                    k <= ws.len(),
                    views(ws@) == words(current@),
                    term_views(terms@) == before + word_terms(views(ws@).take(k as int)),
                decreases ws.len() - k,
            {
                let w = ws[k].clone();
                let ghost old_terms = terms@;
                terms.push(QueryTerm::Word(w));
                proof {
                    let t = views(ws@).take(k as int);
                    assert(views(ws@).take(k + 1) =~= t.push(views(ws@)[k as int]));
                    assert(word_terms(t.push(views(ws@)[k as int])) =~= word_terms(t).push(
                        TermView::Word(views(ws@)[k as int]),
                    ));
                    assert(term_views(terms@) =~= term_views(old_terms).push(TermView::Word(w@)));
                    assert(term_views(terms@) =~= before + word_terms(views(ws@).take(k + 1)));
                }
                k += 1;
            }
            assert(views(ws@).take(ws.len() as int) =~= views(ws@));
        }
        terms
    }

    /// Whether any term is a phrase.
    pub fn has_phrases(terms: &[QueryTerm]) -> (b: bool)
        ensures
            b == exists|i: int| 0 <= i < terms@.len() && is_phrase(#[trigger] terms@[i]@),
    {
        let mut i: usize = 0;
        while i < terms.len()
            invariant
                i <= terms@.len(),
                forall|j: int| 0 <= j < i ==> !is_phrase(#[trigger] terms@[j]@),
            decreases terms.len() - i,
        {
            if let QueryTerm::Phrase(_) = &terms[i] {
                assert(is_phrase(terms@[i as int]@));
                return true;
            }
            i += 1;
        }
        false
    }

    /// The texts of the phrase terms, in order.
    pub fn extract_phrases(terms: &[QueryTerm]) -> (r: Vec<String>)
        ensures
            views(r@) == phrases_of(term_views(terms@)),
    {
        let mut r: Vec<String> = Vec::new();
        let mut i: usize = 0;
        assert(term_views(terms@).take(0) =~= Seq::<TermView>::empty());
        while i < terms.len()
            invariant
                i <= terms@.len(),
                views(r@) == phrases_of(term_views(terms@).take(i as int)),
            decreases terms.len() - i,
        {
            assert(term_views(terms@).take(i + 1).drop_last() =~= term_views(terms@).take(i as int));
            if let QueryTerm::Phrase(p) = &terms[i] {
                let ghost old_r = r@;
                r.push(p.clone());
                assert(views(r@) =~= views(old_r).push(p@));
            }
            i += 1;
        }
        assert(term_views(terms@).take(terms@.len() as int) =~= term_views(terms@));
        r
    }

    /// The texts of the word terms, in order.
    pub fn extract_words(terms: &[QueryTerm]) -> (r: Vec<String>)
        ensures
            views(r@) == words_of(term_views(terms@)),
    {
        let mut r: Vec<String> = Vec::new();
        let mut i: usize = 0;
        assert(term_views(terms@).take(0) =~= Seq::<TermView>::empty());
        while i < terms.len()
            invariant
                i <= terms@.len(),
                views(r@) == words_of(term_views(terms@).take(i as int)),
            decreases terms.len() - i,
        {
            assert(term_views(terms@).take(i + 1).drop_last() =~= term_views(terms@).take(i as int));
            if let QueryTerm::Word(w) = &terms[i] {
                let ghost old_r = r@;
                r.push(w.clone());
                assert(views(r@) =~= views(old_r).push(w@));
            }
            i += 1;
        }
        assert(term_views(terms@).take(terms@.len() as int) =~= term_views(terms@));
        r
    }
}


/// A term whose text is nonempty and neither starts nor ends with whitespace.
pub open spec fn well_formed_term(t: TermView) -> bool {
    term_text(t).len() > 0 && is_trimmed(term_text(t))
}

proof fn lemma_word_terms_well_formed(s: Seq<char>)
    ensures
        forall|i: int| 0 <= i < word_terms(words(s)).len() ==> well_formed_term(
            #[trigger] word_terms(words(s))[i],
        ),
{
    lemma_words_shape(s);
    assert forall|i: int| 0 <= i < word_terms(words(s)).len() implies well_formed_term(
        #[trigger] word_terms(words(s))[i],
    ) by {
        let w = words(s)[i];
        assert(w.len() > 0 && no_ws(w));
        assert(!is_ws(w[0]) && !is_ws(w[w.len() - 1]));
    }
}

proof fn lemma_fold_terms_well_formed(q: Seq<char>)
    ensures
        forall|i: int| 0 <= i < parse_fold(q).terms.len() ==> well_formed_term(
            #[trigger] parse_fold(q).terms[i],
        ),
    decreases q.len(),
{
    if q.len() > 0 {
        let st = parse_fold(q.drop_last());
        lemma_fold_terms_well_formed(q.drop_last());
        lemma_trim_is_trimmed(st.current);
        lemma_word_terms_well_formed(st.current);
        let ts = parse_fold(q).terms;
        assert forall|i: int| 0 <= i < ts.len() implies well_formed_term(#[trigger] ts[i]) by {
            if i < st.terms.len() {
                assert(ts[i] == st.terms[i]);
            } else if ts != st.terms.push(TermView::Phrase(trim(st.current))) && ts != st.terms.push(
                TermView::Word(trim(st.current)),
            ) {
                assert(ts == st.terms + word_terms(words(st.current)));
                assert(ts[i] == word_terms(words(st.current))[i - st.terms.len()]);
            }
        }
    }
}

/// Parsing never yields an empty term, nor one with whitespace at either end:
/// empty and blank phrases are dropped, and phrases and words are trimmed.
pub proof fn law_parse_terms_well_formed(q: Seq<char>)
    ensures
        forall|i: int| 0 <= i < parse_query(q).len() ==> well_formed_term(#[trigger] parse_query(q)[i]),
{
    let st = parse_fold(q);
    lemma_fold_terms_well_formed(q);
    lemma_trim_is_trimmed(st.current);
    lemma_word_terms_well_formed(st.current);
    let ts = parse_query(q);
    assert forall|i: int| 0 <= i < ts.len() implies well_formed_term(#[trigger] ts[i]) by {
        if i < st.terms.len() {
            assert(ts[i] == st.terms[i]);
        } else if !(st.in_phrase && trim(st.current).len() > 0) && trim(st.current).len() > 0 {
            assert(ts[i] == word_terms(words(st.current))[i - st.terms.len()]);
        }
    }
}

/// Every term is either a phrase or a word: the phrases and the words of a
/// term list together number as many as the terms.
pub proof fn law_phrases_and_words_partition(ts: Seq<TermView>)
    ensures
        phrases_of(ts).len() + words_of(ts).len() == ts.len(),
    decreases ts.len(),
{
    if ts.len() > 0 {
        law_phrases_and_words_partition(ts.drop_last());
    }
}

/// A term list holds a phrase exactly when its list of phrases is nonempty.
pub proof fn law_has_phrases_iff_phrases(ts: Seq<TermView>)
    ensures
        (exists|i: int| 0 <= i < ts.len() && is_phrase(#[trigger] ts[i])) <==> phrases_of(ts).len() > 0,
    decreases ts.len(),
{
    if ts.len() > 0 {
        let init = ts.drop_last();
        law_has_phrases_iff_phrases(init);
        if exists|i: int| 0 <= i < init.len() && is_phrase(#[trigger] init[i]) {
            let i = choose|i: int| 0 <= i < init.len() && is_phrase(#[trigger] init[i]);
            assert(ts[i] == init[i]);
        }
        if exists|i: int| 0 <= i < ts.len() && is_phrase(#[trigger] ts[i]) {
            let i = choose|i: int| 0 <= i < ts.len() && is_phrase(#[trigger] ts[i]);
            if i < init.len() {
                assert(init[i] == ts[i]);
            }
        }
        if is_phrase(ts.last()) {
            assert(is_phrase(ts[ts.len() - 1]));
        }
    }
}

/// A query without quotes or backslashes, whose only whitespace characters
/// are spaces, tabs, newlines and carriage returns.
pub open spec fn is_plain_query(q: Seq<char>) -> bool {
    forall|i: int| 0 <= i < q.len() ==> {
        &&& #[trigger] q[i] != '"'
        &&& q[i] != '\\'
        &&& is_ws(q[i]) ==> is_separator(q[i])
    }
}

proof fn lemma_plain_fold(q: Seq<char>)
    requires
        is_plain_query(q),
    ensures
        parse_fold(q) == (ParseState {
            terms: word_terms(words_fold(q).0),
            current: words_fold(q).1,
            in_phrase: false,
            escape_next: false,
        }),
    decreases q.len(),
{
    if q.len() == 0 {
        assert(word_terms(Seq::<Seq<char>>::empty()) =~= Seq::<TermView>::empty());
    } else {
        let p = q.drop_last();
        assert(is_plain_query(p)) by {
            assert forall|i: int| 0 <= i < p.len() implies {
                &&& #[trigger] p[i] != '"'
                &&& p[i] != '\\'
                &&& is_ws(p[i]) ==> is_separator(p[i])
            } by {
                assert(p[i] == q[i]);
            }
        }
        lemma_plain_fold(p);
        lemma_words_fold_shape(p);
        let (done, cur) = words_fold(p);
        let c = q.last();
        assert(q[q.len() - 1] == c);
        assert(c != '"' && c != '\\');
        if is_ws(c) {
            assert(is_trimmed(cur)) by {
                if cur.len() > 0 {
                    assert(!is_ws(cur[cur.len() - 1]));
                }
            }
            lemma_trim_of_trimmed(cur);
            if cur.len() > 0 {
                assert(word_terms(done.push(cur)) =~= word_terms(done).push(TermView::Word(cur)));
            }
        } else if is_separator(c) {
            assert(false);
        }
    }
}

/// A plain query (no quotes, no backslashes, and no whitespace but spaces,
/// tabs, newlines and carriage returns) parses to its whitespace-separated
/// words, in order.
pub proof fn law_plain_query_is_words(q: Seq<char>)
    requires
        is_plain_query(q),
    ensures
        parse_query(q) == word_terms(words(q)),
{
    lemma_plain_fold(q);
    lemma_words_fold_shape(q);
    let (done, cur) = words_fold(q);
    assert(is_trimmed(cur)) by {
        if cur.len() > 0 {
            assert(!is_ws(cur[0]) && !is_ws(cur[cur.len() - 1]));
        }
    }
    lemma_trim_of_trimmed(cur);
    if cur.len() > 0 {
        lemma_words_of_word(cur);
        assert(words(cur) =~= seq![cur]);
        assert(word_terms(done.push(cur)) =~= word_terms(done) + word_terms(seq![cur]));
    }
}

/// Whether `p` holds neither a quote nor a backslash.
pub open spec fn no_quote_or_escape(p: Seq<char>) -> bool {
    forall|i: int| 0 <= i < p.len() ==> #[trigger] p[i] != '"' && p[i] != '\\'
}

proof fn lemma_open_phrase_fold(p: Seq<char>)
    requires
        no_quote_or_escape(p),
    ensures
        parse_fold(seq!['"'] + p) == (ParseState {
            terms: Seq::empty(),
            current: p,
            in_phrase: true,
            escape_next: false,
        }),
    decreases p.len(),
{
    if p.len() == 0 {
        let q = seq!['"'] + p;
        assert(p =~= Seq::<char>::empty());
        assert(q =~= seq!['"']);
        assert(q.drop_last() =~= Seq::<char>::empty());
        assert(parse_fold(q.drop_last()) == initial_state());
        assert(trim(Seq::<char>::empty()) =~= Seq::<char>::empty());
        assert(q.last() == '"');
        assert(parse_fold(q) == step(parse_fold(q.drop_last()), q.last()));
        assert(parse_fold(q).terms == Seq::<TermView>::empty());
    } else {
        let init = p.drop_last();
        assert(no_quote_or_escape(init)) by {
            assert forall|i: int| 0 <= i < init.len() implies #[trigger] init[i] != '"' && init[i] != '\\' by {
                assert(init[i] == p[i]);
            }
        }
        lemma_open_phrase_fold(init);
        assert((seq!['"'] + p).drop_last() =~= seq!['"'] + init);
        assert((seq!['"'] + p).last() == p[p.len() - 1]);
        assert(p[p.len() - 1] != '"' && p[p.len() - 1] != '\\');
        assert(init.push(p.last()) =~= p);
        let q = seq!['"'] + p;
        assert(parse_fold(q) == step(parse_fold(q.drop_last()), q.last()));
        assert(parse_fold(q.drop_last()) == parse_fold(seq!['"'] + init));
        assert(parse_fold(q).current == p);
        assert(parse_fold(q).terms == Seq::<TermView>::empty());
    }
}

/// A query made of one quoted text without quotes or backslashes inside
/// parses to that text, trimmed, as a phrase; a blank phrase yields nothing.
pub proof fn law_quoted_text_is_phrase(p: Seq<char>)
    requires
        no_quote_or_escape(p),
    ensures
        parse_query(seq!['"'] + p + seq!['"']) == (if trim(p).len() > 0 {
            seq![TermView::Phrase(trim(p))]
        } else {
            Seq::<TermView>::empty()
        }),
{
    lemma_open_phrase_fold(p);
    let q = seq!['"'] + p + seq!['"'];
    assert(q.drop_last() =~= seq!['"'] + p);
    assert(q.last() == '"');
    assert(trim(Seq::<char>::empty()) =~= Seq::<char>::empty());
    if trim(p).len() > 0 {
        assert(Seq::<TermView>::empty().push(TermView::Phrase(trim(p))) =~= seq![TermView::Phrase(trim(p))]);
    }
}

} // verus!
