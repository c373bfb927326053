use mcp_bookmark::search::common::extract_domain;
use mcp_bookmark::search::indexer::{char_range, part_id, part_page_offsets, part_title, offsets_valid, plan_page_split, PageInfo, PartPlan, SplitPlan};

fn pages(count: usize, offsets: Vec<usize>, total: usize) -> PageInfo {
    PageInfo { page_count: count, page_offsets: offsets, content_type: "pdf".to_string(), total_chars: total }
}

#[test]
fn page_split_small_content_is_whole() {
    let info = pages(2, vec![0, 20], 39);
    assert_eq!(plan_page_split(39, &info, 1000), SplitPlan::Whole);
}

#[test]
fn page_split_one_page_per_part() {
    let info = pages(3, vec![0, 50, 100], 150);
    match plan_page_split(150, &info, 60) {
        SplitPlan::Parts(v) => {
            assert_eq!(v.len(), 3);
            assert_eq!(v[0], PartPlan { start_page: 0, end_page: 1, start_char: 0, end_char: 50 });
            assert_eq!(v[2], PartPlan { start_page: 2, end_page: 3, start_char: 100, end_char: 150 });
        }
        SplitPlan::Whole => panic!("expected parts"),
    }
}

#[test]
fn page_split_combines_small_pages() {
    let info = pages(4, vec![0, 25, 50, 75], 100);
    match plan_page_split(100, &info, 60) {
        SplitPlan::Parts(v) => {
            assert_eq!(v, vec![
                PartPlan { start_page: 0, end_page: 2, start_char: 0, end_char: 50 },
                PartPlan { start_page: 2, end_page: 4, start_char: 50, end_char: 100 },
            ]);
        }
        SplitPlan::Whole => panic!("expected parts"),
    }
}

#[test]
fn page_split_long_page_stands_alone() {
    let info = pages(3, vec![0, 10, 90], 100);
    match plan_page_split(100, &info, 30) {
        SplitPlan::Parts(v) => {
            assert_eq!(v, vec![
                PartPlan { start_page: 0, end_page: 1, start_char: 0, end_char: 10 },
                PartPlan { start_page: 1, end_page: 2, start_char: 10, end_char: 90 },
                PartPlan { start_page: 2, end_page: 3, start_char: 90, end_char: 100 },
            ]);
        }
        SplitPlan::Whole => panic!("expected parts"),
    }
}

#[test]
fn part_naming() {
    let p = PartPlan { start_page: 2, end_page: 4, start_char: 50, end_char: 100 };
    assert_eq!(part_id("abc", 0), "abc");
    assert_eq!(part_id("abc", 3), "abc_part_3");
    assert_eq!(part_title("Doc", p), "Doc [Pages 3-4]");
    let q = PartPlan { start_page: 0, end_page: 1, start_char: 0, end_char: 50 };
    assert_eq!(part_title("Doc", q), "Doc [Page 1]");
    assert_eq!(part_page_offsets(&vec![0, 25, 50, 75], p), vec![0, 25]);
    assert_eq!(char_range("日本語です", 1, 3), "本語");
}

#[test]
fn indexer_test_extract_domain() {
    assert_eq!(
        extract_domain("https://example.com/path"),
        Some("example.com".to_string())
    );
    assert_eq!(
        extract_domain("http://sub.example.com"),
        Some("sub.example.com".to_string())
    );
    assert_eq!(extract_domain("invalid-url"), None);
}

#[test]
fn only_the_offsets_a_split_reads_are_checked() {
    // Two pages read the offsets of pages 0 to 2; a fourth is never read.
    let offs = vec![0, 40, 80, 5];
    assert!(offsets_valid(&offs, 2, 100));
    assert!(!offsets_valid(&offs, 3, 100));
    assert!(!offsets_valid(&vec![0, 120], 1, 100));
    assert!(!offsets_valid(&vec![0, 50, 30], 2, 100));
    assert!(offsets_valid(&vec![], 3, 0));
    // The first page always starts the content: its offset is not measured.
    assert!(offsets_valid(&vec![10, 5], 2, 300_000));
    assert!(offsets_valid(&vec![500], 1, 100));
    match plan_page_split(300_000, &pages(2, vec![10, 5], 300_000), 100_000) {
        SplitPlan::Parts(v) => assert_eq!(v, vec![
            PartPlan { start_page: 0, end_page: 1, start_char: 0, end_char: 5 },
            PartPlan { start_page: 1, end_page: 2, start_char: 5, end_char: 300_000 },
        ]),
        SplitPlan::Whole => panic!("expected parts"),
    }
    let info = pages(2, offs, 100);
    match plan_page_split(100, &info, 60) {
        SplitPlan::Parts(v) => {
            assert_eq!(v, vec![
                PartPlan { start_page: 0, end_page: 1, start_char: 0, end_char: 40 },
                PartPlan { start_page: 1, end_page: 2, start_char: 40, end_char: 80 },
            ]);
        }
        SplitPlan::Whole => panic!("expected parts"),
    }
}
