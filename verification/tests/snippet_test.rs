use mcp_bookmark::search::snippet::SnippetGenerator;

#[test]
fn test_sentence_boundary_detection() {
    let generator = SnippetGenerator::new();
    let content =
        "This is the first sentence. This is the second sentence! And this is the third?";

    // Test finding sentence start
    assert_eq!(generator.find_sentence_start(content, 35), 28);

    // Test finding sentence end
    assert_eq!(generator.find_sentence_end(content, 35), 56);
}

#[test]
fn test_snippet_generation() {
    let generator = SnippetGenerator::new();
    let content = "The database connection is important. You need to configure the connection string properly. The connection pool size matters.";
    let query = "database connection";

    let snippets = generator.generate_snippets(content, query);
    assert!(!snippets.is_empty());

    // Check that snippets preserve sentence boundaries
    for snippet in &snippets {
        // Should not start or end mid-word (unless with ellipsis)
        if !snippet.starts_with("...") {
            assert!(
                snippet.chars().next().unwrap().is_uppercase()
                    || snippet.chars().next().unwrap().is_alphabetic()
            );
        }
    }
}

#[test]
fn test_multiple_snippets() {
    let generator = SnippetGenerator::new();
    let content = "First paragraph about database connections. Some unrelated content here. Second paragraph with database mentioned. More unrelated text. Third section discussing connection pooling.";
    let query = "database connection";

    let snippets = generator.generate_snippets(content, query);
    assert!(snippets.len() <= 3);
}

#[test]
fn test_empty_query() {
    let generator = SnippetGenerator::new();
    let content = "Some content here.";
    let snippets = generator.generate_snippets(content, "");
    assert_eq!(snippets.len(), 0);
}

#[test]
fn test_no_matches() {
    let generator = SnippetGenerator::new();
    let content = "This content has nothing related to the query.";
    let query = "xyz123";

    let snippets = generator.generate_snippets(content, query);
    assert_eq!(snippets.len(), 1);
    // Should return beginning of content
    assert!(snippets[0].contains("This content"));
}

#[test]
fn snippet_whole_short_text_is_one_excerpt() {
    let generator = SnippetGenerator::new();
    let snippets = generator.generate_snippets("Rust is fast. Rust is safe.", "rust");
    assert_eq!(snippets, vec!["Rust is fast. Rust is safe.".to_string()]);
}

#[test]
fn snippet_case_insensitive_match() {
    let generator = SnippetGenerator::default();
    let snippets = generator.generate_snippets("Hello WORLD.", "world");
    assert_eq!(snippets, vec!["Hello WORLD.".to_string()]);
}

#[test]
fn snippet_long_text_gets_ellipses() {
    let generator = SnippetGenerator::new();
    let mut content = String::new();
    for _ in 0..20 {
        content.push_str("Filler words go here. ");
    }
    content.push_str("The needle is here. ");
    for _ in 0..20 {
        content.push_str("More filler text. ");
    }
    // The windows that hold the match start at bytes 250, 300, 350 and 400;
    // the first three are taken, and the one at 300 lies in the range the
    // first one claimed.
    let snippets = generator.generate_snippets(&content, "needle");
    assert_eq!(snippets.len(), 2);
    for s in &snippets {
        assert!(s.starts_with("..."));
        assert!(s.ends_with("..."));
    }
    assert!(snippets[0].starts_with("...Filler words go here."));
}

#[test]
fn snippet_sentence_end_at_newline_and_end() {
    let generator = SnippetGenerator::new();
    assert_eq!(generator.find_sentence_end("abc\ndef", 0), 3);
    assert_eq!(generator.find_sentence_end("abc", 0), 3);
    assert_eq!(generator.find_sentence_end("ab.", 0), 3);
    assert_eq!(generator.find_sentence_start("abc\ndef", 6), 4);
    assert_eq!(generator.find_sentence_start("abc", 0), 0);
}

#[test]
fn snippet_multibyte_content() {
    let generator = SnippetGenerator::new();
    let snippets = generator.generate_snippets("日本語のテキスト。データベース接続について。", "データベース");
    assert_eq!(snippets.len(), 1);
    assert!(snippets[0].contains("データベース"));
}
