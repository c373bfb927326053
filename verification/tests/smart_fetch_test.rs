use mcp_bookmark::search::smart_fetch::{
    analyze_query_complexity, recommend_fetches, FetchCandidate, FetchReason, QueryComplexity, SmartFetcher,
};

fn candidate(url: &str, score: f32, snippets: &[&str]) -> FetchCandidate {
    FetchCandidate {
        url: url.to_string(),
        // The default fetcher's score threshold.
        high_score: score > 3.0,
        content_snippets: snippets.iter().map(|s| s.to_string()).collect(),
    }
}

#[test]
fn test_smart_fetch_strategy() {
    let fetcher = SmartFetcher::new();

    let results = vec![candidate("https://example.com/1", 4.5, &["Short snippet"])];

    let strategy = fetcher.determine_fetch_strategy("complex query", &results);

    // Should fetch due to high score and top-N
    assert!(!strategy.fetch_full_content.is_empty());
    assert!(strategy.fetch_reasons.len() > 0);
}

#[test]
fn query_complexity_levels() {
    assert_eq!(analyze_query_complexity("rust"), QueryComplexity::Low);
    assert_eq!(analyze_query_complexity("rust async book"), QueryComplexity::Medium);
    assert_eq!(analyze_query_complexity("one two three four five six"), QueryComplexity::High);
    assert_eq!(analyze_query_complexity("rust AND go"), QueryComplexity::High);
    assert_eq!(analyze_query_complexity("how tokio"), QueryComplexity::High);
    assert_eq!(analyze_query_complexity("RDSの違い"), QueryComplexity::High);
    assert_eq!(analyze_query_complexity(""), QueryComplexity::Low);
}

#[test]
fn fetch_reasons_in_order() {
    let long = "x".repeat(300);
    let results = vec![
        candidate("u1", 0.1, &[&long]),
        candidate("u2", 0.1, &[&long]),
        candidate("u3", 5.0, &[&long]),
        candidate("u4", 0.1, &[&long]),
        candidate("u5", 0.1, &["short"]),
    ];
    let strategy = SmartFetcher::default().determine_fetch_strategy("rust", &results);
    assert_eq!(strategy.fetch_full_content, vec!["u1", "u2", "u3", "u5"]);
    assert_eq!(
        strategy.fetch_reasons,
        vec![
            FetchReason::TopNResults(1),
            FetchReason::TopNResults(2),
            FetchReason::HighRelevanceScore,
            FetchReason::InsufficientSnippetContext
        ]
    );
    assert_eq!(strategy.estimated_tokens, 4 * 5000 / 4);
}

#[test]
fn fetching_stops_past_the_token_budget() {
    let results: Vec<FetchCandidate> = (0..20).map(|i| candidate(&format!("u{i}"), 0.0, &[])).collect();
    let strategy = SmartFetcher::new().determine_fetch_strategy("a b c d e f", &results);
    assert_eq!(strategy.fetch_full_content.len(), 9);
    assert_eq!(strategy.estimated_tokens, 45000 / 4);
}

#[test]
fn fetch_plan_hints() {
    let long = "x".repeat(300);
    let none = recommend_fetches(&[], "rust");
    assert_eq!(none.processing_hint, "Snippets are sufficient for response");
    assert!(none.priority.is_empty());
    let two = recommend_fetches(&[candidate("a", 0.0, &[&long]), candidate("b", 0.0, &[&long]), candidate("c", 0.0, &[&long])], "rust");
    assert_eq!(two.recommended_urls, vec!["a", "b"]);
    assert_eq!(two.processing_hint, "Fetch top results for comprehensive answer");
    assert_eq!(two.priority, vec![0, 1, 2]);
    let many: Vec<FetchCandidate> = (0..4).map(|i| candidate(&format!("u{i}"), 0.0, &["s"])).collect();
    assert_eq!(recommend_fetches(&many, "rust").processing_hint, "Multiple sources needed for complete answer");
}
