//! Which search results an AI client should read in full.
use vstd::prelude::*;

use crate::search::aggregator::{byte_len, total_bytes};
use crate::search::scored_snippet::{contains_chars, has_sub};
use crate::text::{chars_of, views, words, words_in};

verus! {

/// How much context a query needs.
#[derive(Debug, Clone, Copy, PartialEq, Eq, Structural)]
pub enum QueryComplexity {
    Low,
    Medium,
    High,
}

/// Whether the query joins terms with an operator word.
pub open spec fn has_operators(q: Seq<char>) -> bool {
    has_sub(q, " AND "@) || has_sub(q, " OR "@) || has_sub(q, " NOT "@)
}

/// Whether the query asks a question.
pub open spec fn has_questions(q: Seq<char>) -> bool {
    has_sub(q, "how"@) || has_sub(q, "why"@) || has_sub(q, "what"@) || has_sub(q, "比較"@) || has_sub(
        q,
        "違い"@,
    )
}

/// The complexity of a query: high with more than 5 words, an operator or
/// a question; else medium with more than 2 words; else low.
pub open spec fn complexity_of(q: Seq<char>) -> QueryComplexity {
    if words(q).len() > 5 || has_operators(q) || has_questions(q) {
        QueryComplexity::High
    } else if words(q).len() > 2 {
        QueryComplexity::Medium
    } else {
        QueryComplexity::Low
    }
}

/// A query that holds a question word ("how", "why", "what", "比較" or
/// "違い") or an operator (" AND ", " OR ", " NOT ") anywhere is of high
/// complexity, whatever stands around it.
pub proof fn law_questions_and_operators_are_complex(before: Seq<char>, w: Seq<char>, after: Seq<char>)
    requires
        w == "how"@ || w == "why"@ || w == "what"@ || w == "比較"@ || w == "違い"@ || w == " AND "@ || w == " OR "@
            || w == " NOT "@,
    ensures
        complexity_of(before + w + after) == QueryComplexity::High,
{
    let q = before + w + after;
    assert(q.subrange(before.len() as int, (before.len() + w.len()) as int) =~= w);
    assert(has_sub(q, w));
}

/// A query of more than five words is of high complexity; one of three to
/// five words is of at least medium complexity.
pub proof fn law_long_queries_are_complex(q: Seq<char>)
    ensures
        words(q).len() > 5 ==> complexity_of(q) == QueryComplexity::High,
        words(q).len() > 2 ==> complexity_of(q) != QueryComplexity::Low,
{
}

/// Whether `p` occurs in the characters `t`.
fn occurs(t: &Vec<char>, p: &str) -> (r: bool)
    ensures
        r == has_sub(t@, p@),
{
    let pc = chars_of(p);
    contains_chars(t, &pc)
}

/// The complexity of a query.
pub fn analyze_query_complexity(query: &str) -> (r: QueryComplexity)
    ensures
        r == complexity_of(query@),
{
    let q = chars_of(query);
    let ws = words_in(&q, 0, q.len());
    assert(q@.subrange(0, q@.len() as int) =~= query@);
    let word_count = ws.len();
    assert(word_count == words(query@).len()) by {
        assert(views(ws@).len() == ws@.len());
    }
    let operators = occurs(&q, " AND ") || occurs(&q, " OR ") || occurs(&q, " NOT ");
    let questions = occurs(&q, "how") || occurs(&q, "why") || occurs(&q, "what") || occurs(&q, "比較")
        || occurs(&q, "違い");
    if word_count > 5 || operators || questions {
        QueryComplexity::High
    } else if word_count > 2 {
        QueryComplexity::Medium
    } else {
        QueryComplexity::Low
    }
}

/// Why a result's full content is worth reading.
#[derive(Debug, Clone, Copy, PartialEq, Eq, Structural)]
pub enum FetchReason {
    /// Its score is above the threshold.
    HighRelevanceScore,
    /// It matched in title, URL and content.
    MultipleFieldMatch,
    /// Its snippets say too little.
    InsufficientSnippetContext,
    /// The query needs more context.
    UserQueryComplexity,
    /// It is among the first results; its rank, from 1.
    TopNResults(usize),
}

/// What the fetch decision reads of a search result: its URL, whether its
/// score is above the threshold, and its snippets.
#[derive(Debug, Clone)]
pub struct FetchCandidate {
    pub url: String,
    pub high_score: bool,
    pub content_snippets: Vec<String>,
}

/// The mathematical value of a candidate.
pub struct CandidateView {
    pub url: Seq<char>,
    pub high_score: bool,
    pub snippets: Seq<Seq<char>>,
}

impl View for FetchCandidate {
    type V = CandidateView;

    open spec fn view(&self) -> CandidateView {
        CandidateView { url: self.url@, high_score: self.high_score, snippets: views(self.content_snippets@) }
    }
}

/// The views of candidates.
pub open spec fn candidate_views(cs: Seq<FetchCandidate>) -> Seq<CandidateView> {
    cs.map_values(|c: FetchCandidate| c@)
}

/// The results fetched in full: their URLs, why each is fetched, and the
/// tokens they are estimated to take.
#[derive(Debug, Clone)]
pub struct SmartFetchStrategy {
    pub fetch_full_content: Vec<String>,
    pub fetch_reasons: Vec<FetchReason>,
    pub estimated_tokens: usize,
}

/// Characters estimated for a document read in full.
pub const CHARS_PER_DOCUMENT: usize = 5000;

/// Why the result at `index` is fetched, if it is: it is among the first
/// `top_n`; its score is high; the query is complex; its snippets hold fewer
/// than 200 bytes; checked in that order.
pub open spec fn reason_for(index: int, c: CandidateView, cx: QueryComplexity, top_n: nat) -> Option<FetchReason> {
    if index < top_n {
        Some(FetchReason::TopNResults((index + 1) as usize))
    } else if c.high_score {
        Some(FetchReason::HighRelevanceScore)
    } else if cx == QueryComplexity::High {
        Some(FetchReason::UserQueryComplexity)
    } else if total_bytes(c.snippets) < 200 {
        Some(FetchReason::InsufficientSnippetContext)
    } else {
        None
    }
}

/// The results among the first `n` that are worth fetching, in order, each
/// with its reason.
pub open spec fn worth_fetching(cs: Seq<CandidateView>, n: int, cx: QueryComplexity, top_n: nat) -> Seq<
    (Seq<char>, FetchReason),
>
    decreases n,
{
    if n <= 0 {
        Seq::empty()
    } else {
        let p = worth_fetching(cs, n - 1, cx, top_n);
        match reason_for(n - 1, cs[n - 1], cx, top_n) {
            Some(r) => p.push((cs[n - 1].url, r)),
            None => p,
        }
    }
}

/// Decides which results an AI client should read in full.
pub struct SmartFetcher {
    auto_fetch_top_n: usize,
    max_tokens: usize,
}

impl SmartFetcher {
    /// The token budget leaves room for the estimate of one more document.
    #[verifier::type_invariant]
    spec fn budget_fits(self) -> bool {
        self.max_tokens * 4 + CHARS_PER_DOCUMENT <= usize::MAX
    }

    /// The number of first results always fetched.
    pub closed spec fn top_n(&self) -> nat {
        self.auto_fetch_top_n as nat
    }

    /// The tokens that fetched content may take.
    pub closed spec fn token_budget(&self) -> nat {
        self.max_tokens as nat
    }

    /// The most results fetched: the fetched documents stop at the first
    /// whose estimate passes the budget of 4 characters a token.
    pub open spec fn most_fetched(&self) -> nat {
        (self.token_budget() * 4 / CHARS_PER_DOCUMENT as nat + 1) as nat
    }

    /// A fetcher that always fetches the first 2 results, within 10000
    /// tokens.
    pub fn new() -> (r: Self)
        ensures
            r.top_n() == 2,
            r.token_budget() == 10000,
    {
        SmartFetcher { auto_fetch_top_n: 2, max_tokens: 10000 }
    }

    /// The results to fetch in full, among `results` ordered best first:
    /// those worth fetching, in order, up to the first whose estimated
    /// 5000 characters bring the estimate past the token budget (4
    /// characters a token); with their reasons and the tokens estimated.
    pub fn determine_fetch_strategy(&self, query: &str, results: &[FetchCandidate]) -> (r: SmartFetchStrategy)
        requires
            forall|i: int| 0 <= i < results@.len() ==> total_bytes(#[trigger] results@[i]@.snippets) <= usize::MAX,
        ensures
            ({
                let all = worth_fetching(
                    candidate_views(results@),
                    results@.len() as int,
                    complexity_of(query@),
                    self.top_n(),
                );
                let m = if all.len() <= self.most_fetched() { all.len() } else { self.most_fetched() };
                &&& views(r.fetch_full_content@) == all.take(m as int).map_values(|p: (Seq<char>, FetchReason)| p.0)
                &&& r.fetch_reasons@ == all.take(m as int).map_values(|p: (Seq<char>, FetchReason)| p.1)
                &&& r.estimated_tokens == m * CHARS_PER_DOCUMENT / 4
            }),
    {
        proof {
            use_type_invariant(self);
        }
        let complexity = analyze_query_complexity(query);
        let ghost cs = candidate_views(results@);
        let ghost cx = complexity_of(query@);
        let ghost top_n = self.top_n();
        let ghost k = self.most_fetched();
        let mut urls: Vec<String> = Vec::new();
        let mut reasons: Vec<FetchReason> = Vec::new();
        let mut estimated_chars: usize = 0;
        let mut i: usize = 0;
        while i < results.len()
            invariant_except_break
                forall|a: int| 0 <= a < results@.len() ==> total_bytes(#[trigger] results@[a]@.snippets) <= usize::MAX,
                cs == candidate_views(results@),
                cx == complexity_of(query@),
                complexity == cx,
                top_n == self.top_n(),
                k == self.most_fetched(),
                self.max_tokens * 4 + CHARS_PER_DOCUMENT <= usize::MAX,
                i <= results@.len(),
                views(urls@) == worth_fetching(cs, i as int, cx, top_n).map_values(|p: (Seq<char>, FetchReason)| p.0),
                reasons@ == worth_fetching(cs, i as int, cx, top_n).map_values(|p: (Seq<char>, FetchReason)| p.1),
                urls@.len() < k,
                estimated_chars == urls@.len() * CHARS_PER_DOCUMENT,
            ensures
                ({
                    let all = worth_fetching(cs, results@.len() as int, cx, top_n);
                    let m = if all.len() <= k { all.len() } else { k };
                    &&& views(urls@) == all.take(m as int).map_values(|p: (Seq<char>, FetchReason)| p.0)
                    &&& reasons@ == all.take(m as int).map_values(|p: (Seq<char>, FetchReason)| p.1)
                    &&& estimated_chars == m * CHARS_PER_DOCUMENT
                }),
            decreases results@.len() - i,
        {
            let ghost before = worth_fetching(cs, i as int, cx, top_n);
            let reason = self.should_fetch_content(&results[i], i, complexity);
            assert(reason == reason_for(i as int, cs[i as int], cx, top_n));
            if let Some(r) = reason {
                let ghost after = before.push((results@[i as int].url@, r));
                let ghost old_urls = views(urls@);
                let ghost old_reasons = reasons@;
                urls.push(results[i].url.clone());
                reasons.push(r);
                estimated_chars = estimated_chars + CHARS_PER_DOCUMENT;
                proof {
                    assert(cs[i as int].url == results@[i as int].url@);
                    assert(worth_fetching(cs, i + 1, cx, top_n) == after);
                    assert(views(urls@) =~= old_urls.push(results@[i as int].url@));
                    assert(after.map_values(|p: (Seq<char>, FetchReason)| p.0) =~= before.map_values(
                        |p: (Seq<char>, FetchReason)| p.0,
                    ).push(results@[i as int].url@));
                    assert(after.map_values(|p: (Seq<char>, FetchReason)| p.1) =~= before.map_values(
                        |p: (Seq<char>, FetchReason)| p.1,
                    ).push(r));
                    assert(views(urls@) =~= after.map_values(|p: (Seq<char>, FetchReason)| p.0));
                    assert(reasons@ =~= after.map_values(|p: (Seq<char>, FetchReason)| p.1));
                }
                if estimated_chars > self.max_tokens * 4 {
                    proof {
                        lemma_worth_fetching_prefix(cs, i + 1, results@.len() as int, cx, top_n);
                        assert(urls@.len() == k) by (nonlinear_arith)
                            requires
                                estimated_chars == urls@.len() * 5000,
                                estimated_chars > self.max_tokens * 4,
                                (urls@.len() - 1) * 5000 <= self.max_tokens * 4,
                                k == self.max_tokens * 4 / 5000 + 1,
                        ;
                        let all = worth_fetching(cs, results@.len() as int, cx, top_n);
                        assert(all.take(k as int) =~= after);
                    }
                    break;
                }
                proof {
                    assert(urls@.len() < k) by (nonlinear_arith)
                        requires
                            estimated_chars == urls@.len() * 5000,
                            estimated_chars <= self.max_tokens * 4,
                            k == self.max_tokens * 4 / 5000 + 1,
                    ;
                }
            } else {
                proof {
                    assert(worth_fetching(cs, i + 1, cx, top_n) == before);
                }
            }
            i += 1;
        }
        proof {
            if i == results.len() {
                let all = worth_fetching(cs, results@.len() as int, cx, top_n);
                assert(all.take(all.len() as int) =~= all);
            }
        }
        let estimated_tokens = estimated_chars / 4;
        SmartFetchStrategy { fetch_full_content: urls, fetch_reasons: reasons, estimated_tokens }
    }

    /// Why the result at `index` should be fetched in full, if it should.
    fn should_fetch_content(&self, result: &FetchCandidate, index: usize, complexity: QueryComplexity) -> (r: Option<
        FetchReason,
    >)
        requires
            total_bytes(result@.snippets) <= usize::MAX,
        ensures
            r == reason_for(index as int, result@, complexity, self.top_n()),
    {
        if index < self.auto_fetch_top_n {
            return Some(FetchReason::TopNResults(index + 1));
        }
        if result.high_score {
            return Some(FetchReason::HighRelevanceScore);
        }
        if complexity == QueryComplexity::High {
            return Some(FetchReason::UserQueryComplexity);
        }
        let total = snippet_bytes(&result.content_snippets);
        if total < 200 {
            return Some(FetchReason::InsufficientSnippetContext);
        }
        None
    }
}

impl Default for SmartFetcher {
    fn default() -> (r: Self)
        ensures
            r.top_n() == 2,
            r.token_budget() == 10000,
    {
        Self::new()
    }
}

/// The results worth fetching among the first `n` begin those among the
/// first `m`, for `n <= m`.
proof fn lemma_worth_fetching_prefix(cs: Seq<CandidateView>, n: int, m: int, cx: QueryComplexity, top_n: nat)
    requires
        0 <= n <= m,
    ensures
        worth_fetching(cs, n, cx, top_n).len() <= worth_fetching(cs, m, cx, top_n).len(),
        worth_fetching(cs, m, cx, top_n).take(worth_fetching(cs, n, cx, top_n).len() as int)
            == worth_fetching(cs, n, cx, top_n),
    decreases m - n,
{
    if n < m {
        lemma_worth_fetching_prefix(cs, n, m - 1, cx, top_n);
        let a = worth_fetching(cs, n, cx, top_n);
        let b = worth_fetching(cs, m - 1, cx, top_n);
        let c = worth_fetching(cs, m, cx, top_n);
        if c != b {
            assert(c.take(a.len() as int) =~= b.take(a.len() as int));
        }
    } else {
        let a = worth_fetching(cs, n, cx, top_n);
        assert(a.take(a.len() as int) =~= a);
    }
}

/// The first results are always fetched, first, whatever the query and
/// their scores: the `i`-th for its rank, for each `i` below `top_n`.
pub proof fn law_top_results_fetched(cs: Seq<CandidateView>, cx: QueryComplexity, top_n: nat, i: int)
    requires
        0 <= i < top_n,
        i < cs.len(),
    ensures
        worth_fetching(cs, cs.len() as int, cx, top_n).len() > i,
        worth_fetching(cs, cs.len() as int, cx, top_n)[i] == (cs[i].url, FetchReason::TopNResults((i + 1) as usize)),
{
    lemma_first_fetched(cs, cx, top_n, i + 1);
    lemma_worth_fetching_prefix(cs, i + 1, cs.len() as int, cx, top_n);
    let a = worth_fetching(cs, i + 1, cx, top_n);
    let b = worth_fetching(cs, cs.len() as int, cx, top_n);
    assert(b.take(a.len() as int)[i] == a[i]);
}

/// Among the first `n` results, all below `top_n`, each is fetched for its
/// rank.
proof fn lemma_first_fetched(cs: Seq<CandidateView>, cx: QueryComplexity, top_n: nat, n: int)
    requires
        0 <= n <= top_n,
        n <= cs.len(),
    ensures
        worth_fetching(cs, n, cx, top_n).len() == n,
        forall|i: int| 0 <= i < n ==> #[trigger] worth_fetching(cs, n, cx, top_n)[i] == (cs[i].url, FetchReason::TopNResults((i + 1) as usize)),
    decreases n,
{
    if n > 0 {
        lemma_first_fetched(cs, cx, top_n, n - 1);
        let p = worth_fetching(cs, n - 1, cx, top_n);
        assert forall|i: int| 0 <= i < n implies #[trigger] worth_fetching(cs, n, cx, top_n)[i] == (cs[i].url, FetchReason::TopNResults((i + 1) as usize)) by {
            if i < n - 1 {
                assert(worth_fetching(cs, n, cx, top_n)[i] == p[i]);
            }
        }
    }
}

/// The bytes of the snippets together.
fn snippet_bytes(ss: &Vec<String>) -> (r: usize)
    requires
        total_bytes(views(ss@)) <= usize::MAX,
    ensures
        r == total_bytes(views(ss@)),
{
    let mut total: usize = 0;
    let mut i: usize = 0;
    assert(views(ss@).take(0) =~= Seq::<Seq<char>>::empty());
    while i < ss.len()
        invariant
            i <= ss@.len(),
            total_bytes(views(ss@)) <= usize::MAX,
            total == total_bytes(views(ss@).take(i as int)),
        decreases ss@.len() - i,
    {
        proof {
            assert(views(ss@).take(i + 1).drop_last() =~= views(ss@).take(i as int));
            lemma_total_bytes_prefix(views(ss@), i + 1);
        }
        let len = ss[i].as_str().as_bytes().len();
        total = total + len;
        i += 1;
    }
    assert(views(ss@).take(i as int) =~= views(ss@));
    total
}

/// The bytes of a prefix of texts are no more than those of all.
proof fn lemma_total_bytes_prefix(ss: Seq<Seq<char>>, i: int)
    requires
        0 <= i <= ss.len(),
    ensures
        total_bytes(ss.take(i)) <= total_bytes(ss),
    decreases ss.len(),
{
    if i < ss.len() {
        lemma_total_bytes_prefix(ss.drop_last(), i);
        assert(ss.drop_last().take(i) =~= ss.take(i));
    } else {
        assert(ss.take(i) =~= ss);
    }
}

/// What an AI client is told to fetch: the URLs to read in full, all
/// results in rank order, and how to proceed.
#[derive(Debug, Clone)]
pub struct FetchPlan {
    pub recommended_urls: Vec<String>,
    pub priority: Vec<usize>,
    pub processing_hint: String,
}

/// How to proceed when `fetched` results are to be read in full.
pub open spec fn hint_for(fetched: nat) -> Seq<char> {
    if fetched == 0 {
        "Snippets are sufficient for response"@
    } else if fetched <= 2 {
        "Fetch top results for comprehensive answer"@
    } else {
        "Multiple sources needed for complete answer"@
    }
}

/// The fetch plan for `results` ordered best first, by a default fetcher.
pub fn recommend_fetches(results: &[FetchCandidate], query: &str) -> (r: FetchPlan)
    requires
        forall|i: int| 0 <= i < results@.len() ==> total_bytes(#[trigger] results@[i]@.snippets) <= usize::MAX,
    ensures
        ({
            let all = worth_fetching(candidate_views(results@), results@.len() as int, complexity_of(query@), 2);
            let m = if all.len() <= 9 { all.len() } else { 9 };
            &&& views(r.recommended_urls@) == all.take(m as int).map_values(|p: (Seq<char>, FetchReason)| p.0)
            &&& r.processing_hint@ == hint_for(m)
        }),
        r.priority@.len() == results@.len(),
        forall|i: int| 0 <= i < r.priority@.len() ==> r.priority@[i] == i,
{
    let fetcher = SmartFetcher::new();
    let strategy = fetcher.determine_fetch_strategy(query, results);
    assert(fetcher.most_fetched() == 9);
    let n = strategy.fetch_full_content.len();
    proof {
        let all = worth_fetching(candidate_views(results@), results@.len() as int, complexity_of(query@), 2);
        let m = if all.len() <= 9 { all.len() } else { 9 };
        assert(views(strategy.fetch_full_content@).len() == n);
        assert(all.take(m as int).map_values(|p: (Seq<char>, FetchReason)| p.0).len() == m);
        assert(n == m);
    }
    let processing_hint = if n == 0 {
        let t = String::from_str("Snippets are sufficient for response");
        proof {
            reveal_strlit("Snippets are sufficient for response");
        }
        t
    } else if n <= 2 {
        let t = String::from_str("Fetch top results for comprehensive answer");
        proof {
            reveal_strlit("Fetch top results for comprehensive answer");
        }
        t
    } else {
        let t = String::from_str("Multiple sources needed for complete answer");
        proof {
            reveal_strlit("Multiple sources needed for complete answer");
        }
        t
    };
    let mut priority: Vec<usize> = Vec::new();
    let mut i: usize = 0;
    while i < results.len()
        invariant
            i <= results@.len(),
            priority@.len() == i,
            forall|j: int| 0 <= j < i ==> priority@[j] == j,
        decreases results@.len() - i,
    {
        priority.push(i);
        i += 1;
    }
    FetchPlan { recommended_urls: strategy.fetch_full_content, priority, processing_hint }
}

} // verus!
