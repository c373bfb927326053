use mcp_bookmark::search::scored_snippet::{find_section_heading, truncate_text, ContextType, ScoredSnippetGenerator};

#[test]
fn test_context_type_detection() {
    let generator = ScoredSnippetGenerator::new();

    assert_eq!(
        generator.detect_context_type("```python\nprint('hello')\n```"),
        ContextType::CodeExample
    );

    assert_eq!(
        generator.detect_context_type("Step 1: First do this"),
        ContextType::Procedure
    );

    assert_eq!(
        generator.detect_context_type("NOTE: This is important!"),
        ContextType::ImportantNote
    );
}

#[test]
fn context_type_other_kinds() {
    let g = ScoredSnippetGenerator::default();
    assert_eq!(g.detect_context_type("- apples\n- pears"), ContextType::ListItem);
    assert_eq!(g.detect_context_type("# Title"), ContextType::Header);
    assert_eq!(g.detect_context_type("ABC"), ContextType::Header);
    assert_eq!(g.detect_context_type("plain words here"), ContextType::Content);
    assert_eq!(g.detect_context_type("an important import"), ContextType::Content);
    assert_eq!(g.detect_context_type("import os"), ContextType::CodeExample);
    assert_eq!(g.detect_context_type("重要なお知らせ"), ContextType::ImportantNote);
}

#[test]
fn scored_matches_and_pieces() {
    let g = ScoredSnippetGenerator::with_config(900, 5, 200);
    let content = "Intro text.\n# Setup\nThe database connection is configured here. Nothing else.";
    let (matches, terms) = g.find_matches(content, "Database").unwrap();
    assert_eq!(terms, 1);
    assert_eq!(matches.len(), 1);
    assert_eq!(matches[0].position, 0);
    assert_eq!(matches[0].match_count, 1);
    assert_eq!(matches[0].unique_terms, 1);
    let pieces = g.pick_snippets(content, &matches);
    assert_eq!(pieces.len(), 1);
    assert_eq!(pieces[0].rank, 0);
    assert_eq!(pieces[0].text, content);
    assert_eq!(pieces[0].section, None);
}

#[test]
fn section_heading_is_found() {
    let content = "Intro\n## Install Guide\nRun the installer now.";
    let pos = content.find("Run").unwrap();
    assert_eq!(find_section_heading(content, pos), Some("Install Guide".to_string()));
    assert_eq!(find_section_heading("no heading here", 5), None);
}

#[test]
fn fallback_and_truncation() {
    let g = ScoredSnippetGenerator::with_config(5, 5, 10);
    assert_eq!(g.fallback_text("abcdefgh"), "abcde...");
    assert_eq!(g.fallback_text("abc"), "abc");
    assert_eq!(g.fallback_text("日本語"), "日...");
    assert_eq!(truncate_text("hello world", 5), "hello...");
    assert_eq!(truncate_text("hi", 5), "hi");
    assert_eq!(truncate_text("ab...cdef", 5), "ab...");
}
