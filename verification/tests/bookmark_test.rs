use mcp_bookmark::bookmark::{BookmarkError, BookmarkNode, BookmarkReader, BookmarkRoots, ChromeBookmarks};
use mcp_bookmark::config::Config;

fn create_test_bookmarks() -> ChromeBookmarks {
    ChromeBookmarks {
        checksum: "test".to_string(),
        version: 1,
        roots: BookmarkRoots {
            bookmark_bar: BookmarkNode {
                children: Some(vec![
                    BookmarkNode {
                        children: None,
                        date_added: Some("13350000000000000".to_string()),
                        date_last_used: None,
                        date_modified: Some("13350000000000000".to_string()),
                        guid: "test1".to_string(),
                        id: "1".to_string(),
                        name: "Example 1".to_string(),
                        node_type: "url".to_string(),
                        url: Some("https://example.com".to_string()),
                        folder_path: vec![],
                    },
                    BookmarkNode {
                        children: Some(vec![BookmarkNode {
                            children: None,
                            date_added: Some("13350000000000000".to_string()),
                            date_last_used: None,
                            date_modified: Some("13350000000000000".to_string()),
                            guid: "test2".to_string(),
                            id: "2".to_string(),
                            name: "Example 2".to_string(),
                            node_type: "url".to_string(),
                            url: Some("https://example2.com".to_string()),
                            folder_path: vec![],
                        }]),
                        date_added: Some("13350000000000000".to_string()),
                        date_last_used: None,
                        date_modified: Some("13350000000000000".to_string()),
                        guid: "folder1".to_string(),
                        id: "3".to_string(),
                        name: "Folder 1".to_string(),
                        node_type: "folder".to_string(),
                        url: None,
                        folder_path: vec![],
                    },
                ]),
                date_added: Some("13350000000000000".to_string()),
                date_last_used: None,
                date_modified: Some("13350000000000000".to_string()),
                guid: "bookmark_bar".to_string(),
                id: "0".to_string(),
                name: "Bookmarks Bar".to_string(),
                node_type: "folder".to_string(),
                url: None,
                folder_path: vec![],
            },
            other: BookmarkNode {
                children: None,
                date_added: Some("13350000000000000".to_string()),
                date_last_used: None,
                date_modified: Some("13350000000000000".to_string()),
                guid: "other".to_string(),
                id: "4".to_string(),
                name: "Other Bookmarks".to_string(),
                node_type: "folder".to_string(),
                url: None,
                folder_path: vec![],
            },
            synced: BookmarkNode {
                children: None,
                date_added: Some("13350000000000000".to_string()),
                date_last_used: None,
                date_modified: Some("13350000000000000".to_string()),
                guid: "synced".to_string(),
                id: "5".to_string(),
                name: "Mobile Bookmarks".to_string(),
                node_type: "folder".to_string(),
                url: None,
                folder_path: vec![],
            },
        },
    }
}

#[test]
fn test_bookmark_node_flatten() {
    let mut bookmarks = create_test_bookmarks();
    bookmarks
        .roots
        .bookmark_bar
        .set_folder_paths(vec!["Bookmarks Bar".to_string()]);

    let flat = bookmarks.roots.bookmark_bar.flatten();
    assert_eq!(flat.len(), 2);
    assert_eq!(flat[0].url, "https://example.com");
    assert_eq!(flat[0].folder_path, vec!["Bookmarks Bar"]);
    assert_eq!(flat[1].url, "https://example2.com");
    assert_eq!(flat[1].folder_path, vec!["Bookmarks Bar", "Folder 1"]);
}

#[test]
fn test_find_folder() {
    let mut bookmarks = create_test_bookmarks();
    bookmarks
        .roots
        .bookmark_bar
        .set_folder_paths(vec!["Bookmarks Bar".to_string()]);

    // Find root
    let folder = bookmarks.roots.bookmark_bar.find_folder(&[]);
    assert!(folder.is_some());
    assert_eq!(folder.unwrap().name, "Bookmarks Bar");

    // Find subfolder
    let folder = bookmarks
        .roots
        .bookmark_bar
        .find_folder(&["Folder 1".to_string()]);
    assert!(folder.is_some());
    assert_eq!(folder.unwrap().name, "Folder 1");

    // Non-existent folder
    let folder = bookmarks
        .roots
        .bookmark_bar
        .find_folder(&["NonExistent".to_string()]);
    assert!(folder.is_none());
}

#[test]
fn reader_paths_and_errors() {
    let with_name = Config { index_name: Some("work".to_string()), max_bookmarks: 0, max_snippet_length: 600 };
    let reader = BookmarkReader::with_config(with_name).unwrap();
    assert_eq!(reader.bookmarks_path.parts, vec!["/", "nonexistent", "Bookmarks"]);
    assert!(reader.read_bookmarks().unwrap().is_empty());
    let without = Config { index_name: None, max_bookmarks: 0, max_snippet_length: 600 };
    assert!(matches!(BookmarkReader::with_config(without.clone()), Err(BookmarkError::IndexNameRequired)));
    let reader = BookmarkReader { bookmarks_path: reader.bookmarks_path, config: without };
    match reader.read_bookmarks() {
        Err(e) => assert_eq!(e.message(), "INDEX_NAME is required"),
        Ok(_) => panic!("an index name is required"),
    }
}

fn node(name: &str, node_type: &str, children: Option<Vec<BookmarkNode>>) -> BookmarkNode {
    BookmarkNode {
        children,
        date_added: None,
        date_last_used: None,
        date_modified: None,
        guid: String::new(),
        id: name.to_string(),
        name: name.to_string(),
        node_type: node_type.to_string(),
        url: None,
        folder_path: vec!["stale".to_string()],
    }
}

#[test]
fn folder_paths_follow_the_tree() {
    let unnamed = node("", "folder", Some(vec![node("page", "url", None)]));
    let sub = node("Sub", "folder", Some(vec![node("page", "url", None), unnamed]));
    let mut root = node("Root", "folder", Some(vec![sub, node("page", "url", None)]));
    root.set_folder_paths(vec!["Top".to_string()]);
    assert_eq!(root.folder_path, vec!["Top"]);
    let kids = root.children.as_ref().unwrap();
    assert_eq!(kids.len(), 2);
    assert_eq!(kids[0].folder_path, vec!["Top", "Sub"]);
    assert_eq!((kids[0].name.as_str(), kids[0].id.as_str(), kids[0].node_type.as_str()), ("Sub", "Sub", "folder"));
    assert_eq!(kids[1].name, "page");
    assert!(kids[1].children.is_none());
    assert_eq!(kids[1].folder_path, vec!["Top"]);
    let sub_kids = kids[0].children.as_ref().unwrap();
    assert_eq!(sub_kids[0].folder_path, vec!["Top", "Sub"]);
    assert_eq!(sub_kids[1].folder_path, vec!["Top", "Sub"]);
    assert_eq!(sub_kids[1].children.as_ref().unwrap()[0].folder_path, vec!["Top", "Sub"]);
    assert_eq!(sub_kids[1].name, "");
}
