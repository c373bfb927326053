use mcp_bookmark::native_host::{
    accept_message_length, batch_should_commit, check_for_updates, choose_index_mode, frame_header,
    frame_length, is_unchanged, route_method, should_save_records, valid_batch_params, Announced,
    HostMethod, IndexMode, IndexRecords, IndexedBookmark,
};

fn rec(id: &str, date: Option<&str>, hash: Option<&str>) -> IndexedBookmark {
    IndexedBookmark {
        id: id.to_string(),
        url: format!("https://example.com/{id}"),
        date_modified: date.map(|d| d.to_string()),
        indexed_at: 1,
        content_hash: hash.map(|h| h.to_string()),
    }
}

#[test]
fn frames_roundtrip() {
    for n in [0u32, 1, 255, 256, 65535, 1_000_000, u32::MAX] {
        assert_eq!(frame_length(frame_header(n)), n);
        assert_eq!(frame_header(n), n.to_le_bytes());
    }
    assert!(!accept_message_length(0));
    assert!(accept_message_length(100_000_000));
    assert!(!accept_message_length(100_000_001));
}

#[test]
fn methods_are_routed() {
    assert_eq!(route_method("ping"), HostMethod::Ping);
    assert_eq!(route_method("index_bookmark_chunk"), HostMethod::IndexBookmarkChunk);
    assert_eq!(route_method("batch_end"), HostMethod::BatchEnd);
    assert_eq!(route_method("nope"), HostMethod::Unknown);
}

#[test]
fn updates_are_classified() {
    let mut records = IndexRecords::new();
    records.insert(rec("a", Some("1"), Some("h")));
    records.insert(rec("b", Some("2"), None));
    records.insert(rec("a", Some("3"), Some("h2")));
    assert_eq!(records.len(), 2);
    let announced = vec![
        Announced { id: Some("a".to_string()), date_modified: Some("3".to_string()) },
        Announced { id: Some("b".to_string()), date_modified: Some("5".to_string()) },
        Announced { id: Some("c".to_string()), date_modified: None },
    ];
    let (new_ids, changed) = check_for_updates(Some(&records), &announced);
    assert_eq!(new_ids, vec!["c".to_string()]);
    assert_eq!(changed, vec!["b".to_string()]);
    let (all_new, none) = check_for_updates(None, &announced);
    assert_eq!(all_new.len(), 3);
    assert!(none.is_empty());
    assert!(is_unchanged(true, Some(&records), "a", &Some("3".to_string()), "h2"));
    assert!(!is_unchanged(true, Some(&records), "a", &Some("3".to_string()), "other"));
    assert!(!is_unchanged(false, Some(&records), "a", &Some("3".to_string()), "h2"));
}

#[test]
fn host_rules() {
    assert!(should_save_records(3));
    assert!(!should_save_records(7));
    assert!(should_save_records(20));
    assert!(valid_batch_params("x", 1));
    assert!(!valid_batch_params("", 1));
    assert!(!valid_batch_params("x", 0));
    assert!(batch_should_commit(50, 1, 100));
    assert!(batch_should_commit(3, 7, 7));
    assert!(!batch_should_commit(3, 6, 7));
    assert_eq!(choose_index_mode(Some(200_000), Some(3)), IndexMode::SplitByPages);
    assert_eq!(choose_index_mode(Some(200_000), Some(1)), IndexMode::WithPageInfo);
    assert_eq!(choose_index_mode(None, Some(2)), IndexMode::WithPageInfo);
    assert_eq!(choose_index_mode(Some(5), None), IndexMode::Plain);
}
