use mcp_bookmark::search::common::{parse_date, parse_i64, parse_usize, push_decimal, IndexingStatus, IndexingType, CommonSearchConfig};

#[test]
fn test_indexing_status_readonly_same_count() {
    // When bookmark_count == doc_count (no page splitting)
    let status = IndexingStatus::for_readonly(50, 50);
    assert_eq!(status.doc_count, 50);
    assert_eq!(status.bookmark_count, 50);
    assert_eq!(status.summary(), "Read-only index: 50 documents");
}

#[test]
fn common_test_parse_date() {
    assert_eq!(
        parse_date(&Some("1234567890".to_string())),
        Some(1234567890)
    );
    assert_eq!(parse_date(&Some("invalid".to_string())), None);
    assert_eq!(parse_date(&None), None);
}

#[test]
fn indexer_test_parse_date() {
    assert_eq!(
        parse_date(&Some("1234567890".to_string())),
        Some(1234567890)
    );
    assert_eq!(parse_date(&Some("invalid".to_string())), None);
    assert_eq!(parse_date(&None), None);
}

#[test]
fn indexing_status_summary_with_pages() {
    let status = IndexingStatus::for_readonly(100, 10);
    assert_eq!(status.doc_count, 100);
    assert_eq!(status.bookmark_count, 10);
    assert_eq!(status.index_type, IndexingType::ReadOnly);
    assert_eq!(status.summary(), "Read-only index: 10 bookmarks (100 documents)");
}

#[test]
fn indexing_status_new_is_empty() {
    let status = IndexingStatus::new(42);
    assert_eq!(status.summary(), "Read-only index: 0 documents");
}

#[test]
fn parse_i64_edges() {
    assert_eq!(parse_i64("-42"), Some(-42));
    assert_eq!(parse_i64("+7"), Some(7));
    assert_eq!(parse_i64("9223372036854775807"), Some(i64::MAX));
    assert_eq!(parse_i64("-9223372036854775808"), Some(i64::MIN));
    assert_eq!(parse_i64("9223372036854775808"), None);
    assert_eq!(parse_i64(""), None);
    assert_eq!(parse_i64("-"), None);
    assert_eq!(parse_i64("12a"), None);
    assert_eq!(parse_i64(" 1"), None);
    assert_eq!(parse_i64("007"), Some(7));
}

#[test]
fn parse_usize_edges() {
    assert_eq!(parse_usize("18446744073709551615"), Some(usize::MAX));
    assert_eq!(parse_usize("18446744073709551616"), None);
    assert_eq!(parse_usize("-1"), None);
    assert_eq!(parse_usize("+3"), Some(3));
}

#[test]
fn decimal_formatting() {
    let mut s = String::from("n=");
    push_decimal(&mut s, 0);
    push_decimal(&mut s, 1203);
    assert_eq!(s, "n=01203");
}

#[test]
fn common_search_config_default() {
    let c = CommonSearchConfig::default();
    assert_eq!(c.max_results, 100);
    assert_eq!(c.max_snippet_length, 600);
    assert!(c.enable_boosting);
}

use mcp_bookmark::search::common::{extract_domain, extract_page_number_from_snippet, first_marker_page, last_parsed_page, snippet_position};

#[test]
fn common_test_extract_domain() {
    assert_eq!(
        extract_domain("https://example.com/path"),
        Some("example.com".to_string())
    );
    assert_eq!(
        extract_domain("http://sub.example.com"),
        Some("sub.example.com".to_string())
    );
    assert_eq!(extract_domain("invalid-url"), None);
}

#[test]
fn test_extract_page_number_from_snippet() {
    // Test with PDF content with page markers
    let full_content = "[PAGE:1]First page content.[PAGE:2]Second page content with important info.[PAGE:3]Third page.";
    let snippet = "Second page content with important info";

    let page_num = extract_page_number_from_snippet(snippet, full_content);
    assert_eq!(page_num, Some(2));

    // Test with content at the beginning
    let snippet2 = "First page content";
    let page_num2 = extract_page_number_from_snippet(snippet2, full_content);
    assert_eq!(page_num2, Some(1));

    // Test with non-PDF content (no page markers)
    let html_content = "This is regular HTML content without page markers";
    let html_snippet = "regular HTML content";
    let page_num3 = extract_page_number_from_snippet(html_snippet, html_content);
    assert_eq!(page_num3, None);

    // Test with snippet that contains page marker directly
    let snippet4 = "[PAGE:6]Some content on page 6";
    let page_num4 = extract_page_number_from_snippet(snippet4, full_content);
    assert_eq!(page_num4, Some(6));

    // Test with truncated snippet (has ellipsis)
    let snippet5 = "...Second page content with";
    let page_num5 = extract_page_number_from_snippet(snippet5, full_content);
    assert_eq!(page_num5, Some(2));
}

#[test]
fn page_number_short_key_is_none() {
    let full = "[PAGE:1]abc[PAGE:2]defghijklmnop";
    assert_eq!(extract_page_number_from_snippet("...def...", full), None);
    assert_eq!(extract_page_number_from_snippet("defghijklm", full), Some(2));
}

#[test]
fn page_marker_steps() {
    let ms = |v: &[&str]| v.iter().map(|s| s.to_string()).collect::<Vec<String>>();
    assert_eq!(first_marker_page(&ms(&["12", "3"])), Some(12));
    assert_eq!(first_marker_page(&ms(&[])), None);
    assert_eq!(first_marker_page(&ms(&["99999999999999999999999999"])), None);
    assert_eq!(last_parsed_page(&ms(&["1", "2", "7"])), Some(7));
    assert_eq!(last_parsed_page(&ms(&["4", "99999999999999999999999999"])), Some(4));
    assert_eq!(last_parsed_page(&ms(&[])), None);
    let full = "[PAGE:1]\nabc [PAGE:2]\ndefghijklmnop";
    assert_eq!(snippet_position("...defghijklm...", full), Some(22));
    assert_eq!(snippet_position("defg", full), None);
    assert_eq!(snippet_position("zzzzzzzzzzzz", full), None);
}

#[test]
fn integer_text_parses_back() {
    for n in [0i64, 7, -5, 13350000000000000, i64::MAX, i64::MIN] {
        assert_eq!(parse_i64(&n.to_string()), Some(n));
        assert_eq!(parse_date(&Some(n.to_string())), Some(n));
    }
    assert_eq!(parse_date(&Some(" 5".to_string())), None);
    assert_eq!(parse_date(&Some("5.0".to_string())), None);
}
