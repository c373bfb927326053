use mcp_bookmark::search::search_manager::get_index_key;
use mcp_bookmark::config::{default_max_snippet_length, Config, DEFAULT_MAX_SNIPPET_LENGTH};

fn config_with(index_name: Option<&str>) -> Config {
    Config {
        index_name: index_name.map(|s| s.to_string()),
        max_bookmarks: 0,
        max_snippet_length: DEFAULT_MAX_SNIPPET_LENGTH,
    }
}

#[test]
fn test_parse_index_names() {
    let config = config_with(Some("work,personal,research"));

    let names = config.parse_index_names();
    assert_eq!(names.len(), 3);
    assert_eq!(names[0], "work");
    assert_eq!(names[1], "personal");
    assert_eq!(names[2], "research");
}

#[test]
fn test_parse_index_names_with_spaces() {
    let config = config_with(Some("work , personal , research"));

    let names = config.parse_index_names();
    assert_eq!(names.len(), 3);
    assert_eq!(names[0], "work");
    assert_eq!(names[1], "personal");
    assert_eq!(names[2], "research");
}

#[test]
fn test_parse_single_index() {
    let config = config_with(Some("work"));

    let names = config.parse_index_names();
    assert_eq!(names.len(), 1);
    assert_eq!(names[0], "work");
    assert!(!config.is_multi_index());
}

#[test]
fn test_parse_empty_index() {
    let config = config_with(None);

    let names = config.parse_index_names();
    assert_eq!(names.len(), 0);
}

#[test]
fn test_multi_index_parsing() {
    // Test single index
    let mut config = config_with(Some("single_index"));

    let indices = config.parse_index_names();
    assert_eq!(indices.len(), 1);
    assert_eq!(indices[0], "single_index");
    assert!(!config.is_multi_index());

    // Test multiple indices
    config.index_name = Some("index1,index2,index3".to_string());
    let indices = config.parse_index_names();
    assert_eq!(indices.len(), 3);
    assert_eq!(indices[0], "index1");
    assert_eq!(indices[1], "index2");
    assert_eq!(indices[2], "index3");
    assert!(config.is_multi_index());

    // Test with spaces
    config.index_name = Some("index1 , index2 , index3".to_string());
    let indices = config.parse_index_names();
    assert_eq!(indices.len(), 3);
    assert_eq!(indices[0], "index1");
    assert_eq!(indices[1], "index2");
    assert_eq!(indices[2], "index3");

    // Test empty string
    config.index_name = Some("".to_string());
    let indices = config.parse_index_names();
    assert_eq!(indices.len(), 0);

    // Test None
    config.index_name = None;
    let indices = config.parse_index_names();
    assert_eq!(indices.len(), 0);
}

#[test]
fn config_default_values() {
    let c = Config::default();
    assert!(c.index_name.is_none());
    assert_eq!(c.max_bookmarks, 0);
    assert_eq!(c.max_snippet_length, 600);
    assert_eq!(default_max_snippet_length(), 600);
}

#[test]
fn parse_index_names_skips_blank_pieces() {
    let c = config_with(Some(" ,a,, b ,\t,"));
    assert_eq!(c.parse_index_names(), vec!["a".to_string(), "b".to_string()]);
    assert!(c.is_multi_index());
}

#[test]
fn test_index_key_generation() {
    let mut config = Config::default();
    config.index_name = Some("custom_index".to_string());
    assert_eq!(get_index_key(&config), "custom_index");

    let config_no_name = Config::default();
    assert_eq!(get_index_key(&config_no_name), "default_index");
}
