use mcp_bookmark::dump::{dump_file_name, safe_id};

#[test]
fn ids_are_made_safe_for_file_names() {
    assert_eq!(safe_id("https://a.b/c?d=*\\e"), "https___a.b_c_d=__e");
    assert_eq!(safe_id("plain-id_1"), "plain-id_1");
    assert_eq!(safe_id(""), "");
}

#[test]
fn dump_files_are_numbered_in_three_digits() {
    assert_eq!(dump_file_name(1, "abc"), "doc_001_abc.txt");
    assert_eq!(dump_file_name(42, "x/y"), "doc_042_x_y.txt");
    assert_eq!(dump_file_name(100, "z"), "doc_100_z.txt");
    assert_eq!(dump_file_name(12345, ""), "doc_12345_.txt");
    assert_eq!(dump_file_name(0, "a:b"), format!("doc_{:03}_{}.txt", 0, "a_b"));
}
