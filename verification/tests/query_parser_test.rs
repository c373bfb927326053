use mcp_bookmark::search::query_parser::{QueryParser, QueryTerm};

#[test]
fn test_parse_simple_words() {
    let query = "React hooks documentation";
    let terms = QueryParser::parse(query);

    assert_eq!(terms.len(), 3);
    assert_eq!(terms[0], QueryTerm::Word("React".to_string()));
    assert_eq!(terms[1], QueryTerm::Word("hooks".to_string()));
    assert_eq!(terms[2], QueryTerm::Word("documentation".to_string()));
}

#[test]
fn test_parse_single_phrase() {
    let query = "\"React hooks\"";
    let terms = QueryParser::parse(query);

    assert_eq!(terms.len(), 1);
    assert_eq!(terms[0], QueryTerm::Phrase("React hooks".to_string()));
}

#[test]
fn test_parse_mixed_phrase_and_words() {
    let query = "\"React hooks\" useState \"custom hook\" documentation";
    let terms = QueryParser::parse(query);

    assert_eq!(terms.len(), 4);
    assert_eq!(terms[0], QueryTerm::Phrase("React hooks".to_string()));
    assert_eq!(terms[1], QueryTerm::Word("useState".to_string()));
    assert_eq!(terms[2], QueryTerm::Phrase("custom hook".to_string()));
    assert_eq!(terms[3], QueryTerm::Word("documentation".to_string()));
}

#[test]
fn test_parse_with_extra_whitespace() {
    let query = "  \"React  hooks\"   useState   ";
    let terms = QueryParser::parse(query);

    assert_eq!(terms.len(), 2);
    assert_eq!(terms[0], QueryTerm::Phrase("React  hooks".to_string()));
    assert_eq!(terms[1], QueryTerm::Word("useState".to_string()));
}

#[test]
fn test_parse_unclosed_phrase() {
    let query = "\"React hooks useState";
    let terms = QueryParser::parse(query);

    assert_eq!(terms.len(), 1);
    assert_eq!(
        terms[0],
        QueryTerm::Phrase("React hooks useState".to_string())
    );
}

#[test]
fn test_parse_empty_phrase() {
    let query = "\"\" word \"  \"";
    let terms = QueryParser::parse(query);

    assert_eq!(terms.len(), 1);
    assert_eq!(terms[0], QueryTerm::Word("word".to_string()));
}

#[test]
fn test_parse_escaped_quote() {
    let query = r#"word \"escaped quote\" phrase"#;
    let terms = QueryParser::parse(query);

    assert_eq!(terms.len(), 4);
    assert_eq!(terms[0], QueryTerm::Word("word".to_string()));
    assert_eq!(terms[1], QueryTerm::Word("\"escaped".to_string()));
    assert_eq!(terms[2], QueryTerm::Word("quote\"".to_string()));
    assert_eq!(terms[3], QueryTerm::Word("phrase".to_string()));
}

#[test]
fn test_has_phrases() {
    let terms = vec![
        QueryTerm::Phrase("React hooks".to_string()),
        QueryTerm::Word("useState".to_string()),
    ];
    assert!(QueryParser::has_phrases(&terms));

    let terms = vec![
        QueryTerm::Word("React".to_string()),
        QueryTerm::Word("hooks".to_string()),
    ];
    assert!(!QueryParser::has_phrases(&terms));
}

#[test]
fn test_extract_phrases() {
    let terms = vec![
        QueryTerm::Phrase("React hooks".to_string()),
        QueryTerm::Word("useState".to_string()),
        QueryTerm::Phrase("custom hook".to_string()),
    ];

    let phrases = QueryParser::extract_phrases(&terms);
    assert_eq!(phrases.len(), 2);
    assert_eq!(phrases[0], "React hooks");
    assert_eq!(phrases[1], "custom hook");
}

#[test]
fn test_extract_words() {
    let terms = vec![
        QueryTerm::Phrase("React hooks".to_string()),
        QueryTerm::Word("useState".to_string()),
        QueryTerm::Word("useEffect".to_string()),
    ];

    let words = QueryParser::extract_words(&terms);
    assert_eq!(words.len(), 2);
    assert_eq!(words[0], "useState");
    assert_eq!(words[1], "useEffect");
}

#[test]
fn test_japanese_phrase() {
    let query = "\"React \u{30d5}\u{30c3}\u{30af}\" \u{72b6}\u{614b}\u{7ba1}\u{7406}";
    let terms = QueryParser::parse(query);

    assert_eq!(terms.len(), 2);
    assert_eq!(terms[0], QueryTerm::Phrase("React \u{30d5}\u{30c3}\u{30af}".to_string()));
    assert_eq!(terms[1], QueryTerm::Word("\u{72b6}\u{614b}\u{7ba1}\u{7406}".to_string()));
}

#[test]
fn test_error_message_phrase() {
    let query = r#""Cannot read property 'undefined' of null" JavaScript"#;
    let terms = QueryParser::parse(query);

    assert_eq!(terms.len(), 2);
    assert_eq!(
        terms[0],
        QueryTerm::Phrase("Cannot read property 'undefined' of null".to_string())
    );
    assert_eq!(terms[1], QueryTerm::Word("JavaScript".to_string()));
}

#[test]
fn parse_keeps_escaped_whitespace_inside_word() {
    // An escaped space stays in the word; an ideographic space is trimmed.
    let terms = QueryParser::parse("a\\ b c");
    assert_eq!(terms, vec![QueryTerm::Word("a b".to_string()), QueryTerm::Word("c".to_string())]);
    let terms = QueryParser::parse("\u{3000}x\u{3000}y");
    assert_eq!(terms, vec![QueryTerm::Word("x".to_string()), QueryTerm::Word("y".to_string())]);
}

#[test]
fn parse_blank_and_trailing_backslash() {
    assert!(QueryParser::parse("").is_empty());
    assert!(QueryParser::parse("   \t\n").is_empty());
    assert_eq!(QueryParser::parse("word\\"), vec![QueryTerm::Word("word".to_string())]);
}

#[test]
fn phrases_and_words_partition_terms() {
    let terms = QueryParser::parse("\"a b\" c \"d\" e f");
    let p = QueryParser::extract_phrases(&terms);
    let w = QueryParser::extract_words(&terms);
    assert_eq!(p.len() + w.len(), terms.len());
    assert_eq!(p, vec!["a b".to_string(), "d".to_string()]);
    assert_eq!(w, vec!["c".to_string(), "e".to_string(), "f".to_string()]);
    assert!(QueryParser::has_phrases(&terms));
}

#[test]
fn terms_are_written_back_as_in_a_query() {
    assert_eq!(QueryTerm::Phrase("React hooks".to_string()).to_text(), "\"React hooks\"");
    assert_eq!(QueryTerm::Word("useState".to_string()).to_text(), "useState");
    assert_eq!(QueryTerm::Phrase(String::new()).to_text(), "\"\"");
}
