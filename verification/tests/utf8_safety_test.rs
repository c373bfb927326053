use mcp_bookmark::search::scored_snippet::truncate_text;

#[test]
fn run_utf8_safety_tests() {
    println!("Running UTF-8 safety tests...");
    // Tests will run automatically
}

#[test]
fn truncation_keeps_char_boundaries() {
    let content = "Start 🎌🗾🍱🍜🍙 Japanese food emojis 日本料理の絵文字 end";
    for max_len in [10, 15, 20, 25, 30] {
        let t = truncate_text(content, max_len);
        assert!(t.is_char_boundary(0));
        assert!(t.is_char_boundary(t.len()));
        assert!(t.len() <= max_len + 3);
    }
}

#[test]
fn truncation_of_long_japanese_text() {
    let content = "日本語の長いテキストをテストしています。これは検索エンジンのインデックス作成と検索機能のテストです。";
    for max_len in [10, 20, 50, 100, 150, 200] {
        let t = truncate_text(content, max_len);
        assert!(t.len() <= max_len + 3);
        assert!(content.starts_with(t.trim_end_matches("...")));
    }
}
