use mcp_bookmark::batch_manager::{start_batch, stale_after, AddOutcome, BatchError, BatchLookupError, BatchState, BatchTable};
use mcp_bookmark::bookmark::FlatBookmark;

fn bm(i: usize) -> FlatBookmark {
    FlatBookmark {
        id: format!("id_{i}"),
        name: format!("Bookmark {i}"),
        url: format!("https://example.com/{i}"),
        date_added: Some("1234567890".to_string()),
        date_modified: None,
        folder_path: vec!["Test".to_string()],
    }
}

#[test]
fn batch_state_new() {
    let batch = BatchState::new("test_batch".to_string(), 5);
    assert!(!batch.is_complete());
    assert!(!batch.is_stale());
    assert_eq!(batch.total, 5);
    assert!(!batch.immediate_commit);
    assert!(BatchState::new("small".to_string(), 2).immediate_commit);
}

#[test]
fn batch_empty_is_refused() {
    let r = start_batch("empty".to_string(), 0);
    assert!(matches!(r, Err(BatchError::EmptyBatch)));
    assert!(BatchError::EmptyBatch.message().contains("empty batch"));
}

#[test]
fn batch_commits_when_complete() {
    let mut batch = start_batch("b".to_string(), 3).unwrap();
    assert!(matches!(batch.accept(0, bm(0), "c0".to_string(), 50), AddOutcome::Buffered));
    assert!(matches!(batch.accept(0, bm(0), "again".to_string(), 50), AddOutcome::Duplicate));
    assert!(matches!(batch.accept(1, bm(1), "c1".to_string(), 50), AddOutcome::Buffered));
    match batch.accept(2, bm(2), "c2".to_string(), 50) {
        AddOutcome::Commit(v) => {
            assert_eq!(v.len(), 3);
            assert_eq!(v[0].1, "c0");
        }
        other => panic!("unexpected {:?}", other),
    }
    assert!(batch.is_complete());
    let r = batch.result(12);
    assert_eq!(r.success_count, 3);
    assert_eq!(r.failed_count, 0);
    assert_eq!(r.batch_id, "b");
}

#[test]
fn batch_small_commits_each() {
    let mut batch = start_batch("s".to_string(), 2).unwrap();
    assert!(matches!(batch.accept(1, bm(1), "x".to_string(), 50), AddOutcome::Commit(_)));
    let r = batch.result(0);
    assert_eq!(r.success_count, 1);
    assert_eq!(r.failed_count, 1);
}

#[test]
fn batch_buffer_limit_commits() {
    let mut batch = start_batch("l".to_string(), 10).unwrap();
    assert!(matches!(batch.accept(0, bm(0), "x".to_string(), 2), AddOutcome::Buffered));
    assert!(matches!(batch.accept(1, bm(1), "y".to_string(), 2), AddOutcome::Commit(_)));
    assert!(batch.bookmarks.is_empty());
}

#[test]
fn batch_staleness_threshold() {
    assert!(!stale_after(120_000_000_000));
    assert!(stale_after(120_000_000_001));
}

#[test]
fn test_batch_state() {
    let batch = BatchState::new("test_batch".to_string(), 5);
    assert!(!batch.is_complete());
    assert!(!batch.is_stale());
    assert_eq!(batch.total, 5);
}

#[test]
fn test_small_batch_immediate_commit() {
    let batch = BatchState::new("small_batch".to_string(), 2);
    assert!(batch.immediate_commit);

    let batch = BatchState::new("large_batch".to_string(), 10);
    assert!(!batch.immediate_commit);
}

#[test]
fn batch_table_basic_flow() {
    let mut table = BatchTable::new();
    table.start_batch("test_batch".to_string(), 3).unwrap();
    let mut committed = 0;
    for i in 0..3 {
        match table.add_to_batch("test_batch", i, bm(i), format!("Content {i}"), 50).unwrap() {
            AddOutcome::Commit(v) => committed += v.len(),
            AddOutcome::Buffered => {}
            AddOutcome::Duplicate => panic!("not a duplicate"),
        }
    }
    assert_eq!(committed, 3);
    let batch = table.end_batch("test_batch").unwrap();
    let result = batch.result(5);
    assert_eq!(result.success_count, 3);
    assert_eq!(result.failed_count, 0);
    assert!(table.end_batch("test_batch").is_none());
}

#[test]
fn batch_table_ignores_duplicate_index() {
    let mut table = BatchTable::new();
    table.start_batch("test".to_string(), 2).unwrap();
    table.add_to_batch("test", 0, bm(1), "Content".to_string(), 50).unwrap();
    assert!(matches!(table.add_to_batch("test", 0, bm(1), "Content2".to_string(), 50), Ok(AddOutcome::Duplicate)));
    assert_eq!(table.get_batch_status("test"), Some((1, 2)));
}

#[test]
fn batch_table_unknown_batch_is_not_found() {
    let mut table = BatchTable::new();
    assert!(matches!(
        table.add_to_batch("nonexistent", 0, bm(1), "Content".to_string(), 50),
        Err(BatchLookupError::NotFound)
    ));
    assert_eq!(table.get_batch_status("nonexistent"), None);
    assert!(matches!(table.start_batch("empty".to_string(), 0), Err(BatchError::EmptyBatch)));
}

#[test]
fn batch_table_restart_replaces_and_lists_batches() {
    let mut table = BatchTable::new();
    table.start_batch("a".to_string(), 5).unwrap();
    table.start_batch("b".to_string(), 5).unwrap();
    table.add_to_batch("a", 0, bm(0), "x".to_string(), 50).unwrap();
    table.start_batch("a".to_string(), 7).unwrap();
    assert_eq!(table.get_batch_status("a"), Some((0, 7)));
    assert_eq!(table.get_active_batches(), vec!["a".to_string(), "b".to_string()]);
    assert!(table.cleanup_stale_batches().is_none());
    assert_eq!(table.get_active_batches().len(), 2);
}

#[test]
fn completion_counts_distinct_indices() {
    let mut b = BatchState::new("b".to_string(), 3);
    b.add_bookmark(0, bm(0), "a".to_string());
    b.add_bookmark(0, bm(0), "again".to_string());
    b.add_bookmark(2, bm(2), "c".to_string());
    assert!(!b.is_complete());
    assert_eq!(b.bookmarks.len(), 3);
    b.add_bookmark(1, bm(1), "b".to_string());
    assert!(b.is_complete());
    assert_eq!(b.received.len(), 3);
}
