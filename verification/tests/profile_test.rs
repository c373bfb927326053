use mcp_bookmark::chrome_profile::{count_bookmarks_recursive, ChromeProfile, JsonNode, ProfileEntry, ProfileError, ProfileFiles, ProfileResolver};
use mcp_bookmark::paths::PathParts;

/// The components of a path written with slashes.
fn path(s: &str) -> PathParts {
    let mut parts = Vec::new();
    if s.starts_with('/') {
        parts.push("/".to_string());
    }
    for p in s.split('/').filter(|p| !p.is_empty()) {
        parts.push(p.to_string());
    }
    PathParts { parts }
}

#[test]
fn chrome_profile_test_profile_resolver_creation() {
    // Create profile resolver
    let resolver = ProfileResolver::new();
    assert!(resolver.is_ok() || resolver.is_err()); // depends on the machine
}

#[test]
fn profile_test_test_profile_resolver_creation() {
    // Test that ProfileResolver creation works or fails gracefully
    match ProfileResolver::new() {
        Ok(_) => println!("ProfileResolver created successfully"),
        Err(e) => println!("ProfileResolver creation failed (expected in CI): {:?}", e),
    }
}

#[test]
fn test_list_all_profiles_structure() {
    // Test ChromeProfile structure
    let profile = ChromeProfile {
        directory_name: "Profile 1".to_string(),
        display_name: "Work".to_string(),
        path: path("/test/path"),
        bookmark_count: Some(42),
        size_kb: Some(128),
    };

    assert_eq!(profile.directory_name, "Profile 1");
    assert_eq!(profile.display_name, "Work");
    assert_eq!(profile.bookmark_count, Some(42));
    assert_eq!(profile.size_kb, Some(128));
}

#[test]
fn test_profile_sorting() {
    // Test that profiles are sorted by size
    let mut profiles = vec![
        ChromeProfile {
            directory_name: "Small".to_string(),
            display_name: "Small Profile".to_string(),
            path: path("/test/small"),
            bookmark_count: Some(10),
            size_kb: Some(50),
        },
        ChromeProfile {
            directory_name: "Large".to_string(),
            display_name: "Large Profile".to_string(),
            path: path("/test/large"),
            bookmark_count: Some(100),
            size_kb: Some(500),
        },
        ChromeProfile {
            directory_name: "Medium".to_string(),
            display_name: "Medium Profile".to_string(),
            path: path("/test/medium"),
            bookmark_count: Some(50),
            size_kb: Some(200),
        },
    ];

    // Sort by size (largest first)
    profiles.sort_by_key(|p| std::cmp::Reverse(p.size_kb.unwrap_or(0)));

    assert_eq!(profiles[0].directory_name, "Large");
    assert_eq!(profiles[1].directory_name, "Medium");
    assert_eq!(profiles[2].directory_name, "Small");
}

#[test]
fn resolve_profile_by_name_or_account() {
    let resolver = ProfileResolver::with_base_dir(path("/chrome"));
    let entries = vec![
        ProfileEntry { directory_name: "Default".to_string(), name: Some("Personal".to_string()), gaia_name: None },
        ProfileEntry { directory_name: "Profile 1".to_string(), name: Some("Work".to_string()), gaia_name: Some("Jane".to_string()) },
    ];
    let p = resolver.resolve_by_name("Jane", &entries).unwrap();
    assert_eq!(p.directory_name, "Profile 1");
    assert_eq!(p.display_name, "Jane");
    assert_eq!(p.path, path("/chrome/Profile 1"));
    assert_eq!(resolver.get_bookmarks_path(&p), path("/chrome/Profile 1/Bookmarks"));
    let err = resolver.resolve_by_name("Nobody", &entries).unwrap_err();
    assert_eq!(err, ProfileError::ProfileNotFound("Nobody".to_string()));
}

#[test]
fn current_profile_is_first() {
    let resolver = ProfileResolver::with_base_dir(path("/chrome"));
    assert!(resolver.get_current_profile(Vec::new()).is_none());
    let p = ChromeProfile {
        directory_name: "Default".to_string(),
        display_name: "Me".to_string(),
        path: path("/chrome/Default"),
        bookmark_count: None,
        size_kb: None,
    };
    assert_eq!(resolver.get_current_profile(vec![p]).unwrap().directory_name, "Default");
}

fn entry(dir: &str, name: Option<&str>, gaia: Option<&str>) -> ProfileEntry {
    ProfileEntry {
        directory_name: dir.to_string(),
        name: name.map(|n| n.to_string()),
        gaia_name: gaia.map(|n| n.to_string()),
    }
}

fn files(size: Option<u64>, count: Option<usize>) -> ProfileFiles {
    ProfileFiles { size_kb: size, bookmark_count: count }
}

#[test]
fn listed_profiles_are_sorted_largest_first() {
    let resolver = ProfileResolver::with_base_dir(path("/chrome"));
    let entries = vec![
        entry("Profile 1", Some("Small"), None),
        entry("Profile 2", None, Some("jane@example.com")),
        entry("Profile 3", None, None),
        entry("Profile 4", Some("Tie"), None),
    ];
    let stats = vec![
        files(Some(50), Some(10)),
        files(Some(500), Some(100)),
        files(None, None),
        files(Some(50), Some(7)),
    ];
    let profiles = resolver.list_all_profiles(&entries, &stats, Some(files(Some(200), Some(30))));
    let names: Vec<&str> = profiles.iter().map(|p| p.directory_name.as_str()).collect();
    assert_eq!(names, vec!["Profile 2", "Default", "Profile 1", "Profile 4", "Profile 3"]);
    assert_eq!(profiles[0].display_name, "jane@example.com");
    assert_eq!(profiles[1].display_name, "Default");
    assert_eq!(profiles[1].path, path("/chrome/Default"));
    assert_eq!(profiles[2].display_name, "Small");
    assert_eq!(profiles[4].display_name, "Profile 3");
    assert_eq!(profiles[0].bookmark_count, Some(100));
    assert_eq!(profiles[4].size_kb, None);
}

#[test]
fn listed_default_profile_is_not_repeated() {
    let resolver = ProfileResolver::with_base_dir(path("/chrome"));
    let entries = vec![entry("Default", Some("Personal"), None)];
    let stats = vec![files(Some(1), Some(1))];
    let profiles = resolver.list_all_profiles(&entries, &stats, Some(files(Some(9), Some(9))));
    assert_eq!(profiles.len(), 1);
    assert_eq!(profiles[0].display_name, "Personal");
    let none = resolver.list_all_profiles(&[], &[], None);
    assert!(none.is_empty());
}

fn leaf(is_url: bool) -> JsonNode {
    JsonNode { is_url, children: vec![], roots: vec![] }
}

#[test]
fn bookmarks_are_counted_through_roots_and_children() {
    let folder = JsonNode { is_url: false, children: vec![leaf(true), leaf(false), leaf(true)], roots: vec![] };
    let bar = JsonNode { is_url: false, children: vec![folder, leaf(true)], roots: vec![] };
    let other = JsonNode { is_url: false, children: vec![leaf(true)], roots: vec![] };
    let file = JsonNode { is_url: false, children: vec![], roots: vec![bar, other] };
    assert_eq!(count_bookmarks_recursive(&file), 4);
    assert_eq!(count_bookmarks_recursive(&leaf(true)), 1);
    assert_eq!(count_bookmarks_recursive(&leaf(false)), 0);
}

#[test]
fn current_profile_has_the_largest_bookmarks_file() {
    let resolver = ProfileResolver::with_base_dir(path("/chrome"));
    let entries = vec![entry("Profile 1", Some("A"), None), entry("Profile 2", Some("B"), None)];
    let stats = vec![files(Some(10), Some(1)), files(Some(70), Some(2))];
    let listed = resolver.list_all_profiles(&entries, &stats, Some(files(Some(40), Some(3))));
    let current = resolver.get_current_profile(listed).unwrap();
    assert_eq!(current.directory_name, "Profile 2");
    assert_eq!(current.size_kb, Some(70));
    let empty = resolver.list_all_profiles(&[], &[], None);
    assert!(resolver.get_current_profile(empty).is_none());
}
