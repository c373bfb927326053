use mcp_bookmark::search::aggregator::{generate_hints, ResultDigest, SearchAggregator};

fn digest(title: &str, domain: &str, snippets: &[&str]) -> ResultDigest {
    ResultDigest {
        title: title.to_string(),
        domain: domain.to_string(),
        content_snippets: snippets.iter().map(|s| s.to_string()).collect(),
    }
}

#[test]
fn test_aggregation() {
    let aggregator = SearchAggregator::new();
    let digests = vec![
        digest("RDS Configuration Guide", "example.com", &["RDS setup guide..."]),
        digest("Amazon RDS", "aws.amazon.com", &["Managed database service..."]),
    ];
    let ranked = vec!["1", "2"];
    let aggregated = aggregator.aggregate_ranked("RDS", ranked, &digests);
    assert_eq!(aggregated.primary_results, vec!["1", "2"]);
    assert!(aggregated.supplementary_results.is_empty());
    assert_eq!(aggregated.query_metadata.original_query, "RDS");
    assert_eq!(aggregated.query_metadata.total_matches, 2);
    assert_eq!(aggregated.query_metadata.returned_primary, 2);
    assert_eq!(aggregated.query_metadata.search_strategy, "field_boosting_v1.2");
    assert_eq!(aggregated.content_summary.domains.len(), 2);
    assert_eq!(aggregated.content_summary.combined_snippets.len(), 2);
    assert_eq!(aggregated.content_summary.total_content_chars, "RDS setup guide...".len() + "Managed database service...".len());
    assert_eq!(aggregated.content_summary.common_topics, vec!["configuration", "guide", "amazon"]);
}

#[test]
fn ranked_results_are_split_five_and_ten() {
    let aggregator = SearchAggregator::default();
    let ranked: Vec<usize> = (0..20).collect();
    let digests: Vec<ResultDigest> = (0..20).map(|i| digest("t", &format!("d{}", i % 3), &[])).collect();
    let aggregated = aggregator.aggregate_ranked("q", ranked, &digests);
    assert_eq!(aggregated.primary_results, vec![0, 1, 2, 3, 4]);
    assert_eq!(aggregated.supplementary_results, (5..15).collect::<Vec<usize>>());
    assert_eq!(aggregated.query_metadata.total_matches, 20);
    assert_eq!(aggregated.query_metadata.returned_supplementary, 10);
    assert_eq!(aggregated.content_summary.domains, vec!["d0", "d1", "d2"]);
}

#[test]
fn summary_skips_snippets_that_begin_alike() {
    let aggregator = SearchAggregator::new();
    let long_a = format!("{}{}", "x".repeat(50), "first ending");
    let long_b = format!("{}{}", "x".repeat(50), "second ending");
    let digests = vec![
        digest("a", "one.com", &[&long_a, "short"]),
        digest("b", "one.com", &[&long_b, "short", "other"]),
    ];
    let summary = aggregator.build_content_summary(&digests);
    assert_eq!(summary.combined_snippets, vec![long_a.clone(), "short".to_string(), "other".to_string()]);
    assert_eq!(summary.domains, vec!["one.com"]);
    assert_eq!(summary.total_content_chars, long_a.len() + 5 + 5);
}

#[test]
fn summary_stops_past_the_content_limit() {
    let aggregator = SearchAggregator::new();
    let big = "a".repeat(30000);
    let big2 = "b".repeat(30000);
    let digests = vec![
        digest("a", "one.com", &[&big, &big2, "never"]),
        digest("b", "two.com", &["never either"]),
    ];
    let summary = aggregator.build_content_summary(&digests);
    assert_eq!(summary.combined_snippets.len(), 2);
    assert_eq!(summary.total_content_chars, 60000);
    assert_eq!(summary.domains, vec!["one.com"]);
}

#[test]
fn topics_are_the_most_frequent_long_words() {
    let aggregator = SearchAggregator::new();
    let digests = vec![
        digest("Rust Async Guide", "a", &[]),
        digest("Async RUST patterns", "a", &[]),
        digest("The rust book", "a", &[]),
        digest("Tokio async runtime", "a", &[]),
        digest("Guide to Tokio", "a", &[]),
    ];
    let topics = aggregator.extract_common_topics(&digests);
    assert_eq!(topics, vec!["rust", "async", "guide", "tokio", "patterns"]);
}

#[test]
fn topics_read_only_the_first_ten_titles() {
    let aggregator = SearchAggregator::new();
    let mut digests: Vec<ResultDigest> = (0..10).map(|_| digest("alpha", "a", &[])).collect();
    digests.push(digest("omega omega omega omega omega omega omega omega omega omega omega", "a", &[]));
    assert_eq!(aggregator.extract_common_topics(&digests), vec!["alpha"]);
    assert!(aggregator.extract_common_topics(&[]).is_empty());
}

#[test]
fn hints_follow_confidence_and_result_count() {
    let topics = vec!["rust".to_string(), "async".to_string(), "guide".to_string(), "tokio".to_string()];
    let h = generate_hints(true, 1, &topics);
    assert_eq!(h.response_strategy, "direct_answer");
    assert!(h.high_confidence_match);
    assert_eq!(h.focus_areas, vec!["rust", "async", "guide"]);
    assert_eq!(generate_hints(false, 4, &topics).response_strategy, "synthesize_multiple");
    assert_eq!(generate_hints(false, 3, &vec![]).response_strategy, "exploratory");
    assert!(generate_hints(false, 3, &vec![]).focus_areas.is_empty());
}
