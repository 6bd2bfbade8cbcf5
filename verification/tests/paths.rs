use rawsort::fs::{
    extension, handle_file, has_extension, increment_name, insert_suffix, is_absolute, join,
    rfind, scan_pattern, OperationKind, OperationReport, OverwritePolicy, SCAN_CASE_SENSITIVE,
};

#[test]
fn fs_test_increment_name() {
    let path = "/etc/foo/bar.rs";
    let new = increment_name(path, 1);
    assert_eq!(new, "/etc/foo/bar-001.rs")
}

#[test]
fn main_test_increment_name() {
    let path = "/etc/foo/bar.rs";
    let new = increment_name(path, 1);
    assert_eq!(new, "/etc/foo/bar-001.rs")
}

#[test]
fn suffix_goes_in_front_of_the_extension() {
    assert_eq!(
        increment_name("/out/AB-2020-01-01T10:00:00.cr3", 1),
        "/out/AB-2020-01-01T10:00:00-001.cr3"
    );
}

#[test]
fn suffix_is_zero_padded_to_three_places() {
    assert_eq!(increment_name("/a/b.cr3", 2), "/a/b-002.cr3");
    assert_eq!(increment_name("/a/b.cr3", 10), "/a/b-010.cr3");
    assert_eq!(increment_name("/a/b.cr3", 42), "/a/b-042.cr3");
    assert_eq!(increment_name("/a/b.cr3", 100), "/a/b-100.cr3");
    assert_eq!(increment_name("/a/b.cr3", 999), "/a/b-999.cr3");
}

#[test]
fn suffix_of_zero_is_three_zeros() {
    assert_eq!(increment_name("/a/b.cr3", 0), "/a/b-000.cr3");
}

#[test]
fn suffix_grows_beyond_three_digits() {
    assert_eq!(increment_name("/a/b.cr3", 1000), "/a/b-1000.cr3");
    assert_eq!(increment_name("/a/b.cr3", 4294967295), "/a/b-4294967295.cr3");
    assert_eq!(
        insert_suffix("/a/b.cr3", 18446744073709551615),
        "/a/b-18446744073709551615.cr3"
    );
}

#[test]
fn suffix_keeps_earlier_dots_of_the_name() {
    assert_eq!(increment_name("/a/b.c.rs", 1), "/a/b.c-001.rs");
    assert_eq!(increment_name("/a.d/b.rs", 7), "/a.d/b-007.rs");
    assert_eq!(increment_name("/a/.hidden.rs", 3), "/a/.hidden-003.rs");
}

#[test]
fn suffix_on_a_relative_path() {
    assert_eq!(increment_name("bar.rs", 1), "bar-001.rs");
    assert_eq!(increment_name("foo/bar.rs", 12), "foo/bar-012.rs");
}

#[test]
fn suffix_in_front_of_an_empty_extension() {
    assert_eq!(increment_name("/a/b.", 1), "/a/b-001.");
}

#[test]
fn distinct_numbers_give_distinct_names() {
    let mut names: Vec<String> = Vec::new();
    for number in 1..=1200u32 {
        names.push(increment_name("/d/x.cr3", number));
    }
    for i in 0..names.len() {
        for j in (i + 1)..names.len() {
            assert_ne!(names[i], names[j]);
        }
    }
}

#[test]
fn extension_is_what_follows_the_last_dot_of_the_name() {
    assert_eq!(extension("/etc/foo/bar.rs"), Some("rs".to_string()));
    assert_eq!(extension("/etc/foo/bar.tar.gz"), Some("gz".to_string()));
    assert_eq!(extension("photo.CR3"), Some("CR3".to_string()));
    assert_eq!(extension("/a/.hidden.txt"), Some("txt".to_string()));
    assert_eq!(extension("/a/b."), Some("".to_string()));
}

#[test]
fn names_without_extension() {
    assert_eq!(extension("/etc/foo/bar"), None);
    assert_eq!(extension("/etc/foo.d/bar"), None);
    assert_eq!(extension("/a/.hidden"), None);
    assert_eq!(extension("/a/.."), None);
    assert_eq!(extension(".."), None);
    assert_eq!(extension("."), None);
    assert_eq!(extension(""), None);
    assert_eq!(extension("/a/b.rs/"), None);
    assert!(!has_extension("/etc/foo/bar"));
    assert!(!has_extension("/a/.."));
    assert!(has_extension("/etc/foo/bar.rs"));
    assert!(has_extension("/a/..."));
}

#[test]
fn last_index_of_a_character() {
    let chars: Vec<char> = "a/b/c".chars().collect();
    assert_eq!(rfind(&chars, '/'), Some(3));
    assert_eq!(rfind(&chars, 'a'), Some(0));
    assert_eq!(rfind(&chars, 'x'), None);
    assert_eq!(rfind(&Vec::new(), 'x'), None);
}

#[test]
fn absolute_paths_start_at_the_root() {
    assert!(is_absolute("/"));
    assert!(is_absolute("/photos/out"));
    assert!(!is_absolute("photos/out"));
    assert!(!is_absolute("./out"));
    assert!(!is_absolute(""));
}

#[test]
fn join_puts_one_separator_between() {
    assert_eq!(join("/out", "a.cr3"), "/out/a.cr3");
    assert_eq!(join("/out/", "a.cr3"), "/out/a.cr3");
    assert_eq!(join("/", "a.cr3"), "/a.cr3");
    assert_eq!(join("", "a.cr3"), "a.cr3");
    assert_eq!(join("/out", ""), "/out/");
}

#[test]
fn join_keeps_the_name_under_the_directory() {
    assert_eq!(join("/out", "/a.cr3"), "/out//a.cr3");
}

#[test]
fn scan_pattern_reaches_any_depth() {
    assert_eq!(scan_pattern("/photos"), "/photos/**/*.cr3");
    assert_eq!(scan_pattern(""), "/**/*.cr3");
    assert!(!SCAN_CASE_SENSITIVE);
}

#[test]
fn move_and_overwrite() {
    let operation = handle_file("/in/a.cr3", "/out/b.cr3", true, true);
    assert_eq!(operation.source, "/in/a.cr3");
    assert_eq!(operation.destination, "/out/b.cr3");
    assert_eq!(operation.kind, OperationKind::Move);
    assert_eq!(operation.overwrite_policy, OverwritePolicy::Overwrite);
    assert_eq!(operation.command(), vec!["mv", "/in/a.cr3", "/out/b.cr3"]);
}

#[test]
fn move_and_preserve() {
    let operation = handle_file("/in/a.cr3", "/out/b.cr3", true, false);
    assert_eq!(operation.kind, OperationKind::Move);
    assert_eq!(operation.overwrite_policy, OverwritePolicy::Preserve);
    assert_eq!(operation.command(), vec!["mv", "-n", "/in/a.cr3", "/out/b.cr3"]);
}

#[test]
fn copy_and_overwrite() {
    let operation = handle_file("/in/a.cr3", "/out/b.cr3", false, true);
    assert_eq!(operation.kind, OperationKind::Copy);
    assert_eq!(operation.overwrite_policy, OverwritePolicy::Overwrite);
    assert_eq!(operation.command(), vec!["cp", "/in/a.cr3", "/out/b.cr3"]);
}

#[test]
fn copy_and_preserve() {
    let operation = handle_file("/in/a.cr3", "/out/b.cr3", false, false);
    assert_eq!(operation.source, "/in/a.cr3");
    assert_eq!(operation.destination, "/out/b.cr3");
    assert_eq!(operation.kind, OperationKind::Copy);
    assert_eq!(operation.overwrite_policy, OverwritePolicy::Preserve);
    assert_eq!(operation.command(), vec!["cp", "-n", "/in/a.cr3", "/out/b.cr3"]);
}

#[test]
fn a_preserved_destination_is_reported_as_preserved() {
    let copy = handle_file("/in/a.cr3", "/out/b.cr3", false, false);
    assert_eq!(copy.report(true, true), OperationReport::Preserved);
    assert_eq!(copy.report(false, true), OperationReport::Performed);
    let moved = handle_file("/in/a.cr3", "/out/b.cr3", true, false);
    assert_eq!(moved.report(true, true), OperationReport::Preserved);
    assert_eq!(moved.report(false, true), OperationReport::Performed);
}

#[test]
fn an_overwritten_destination_is_reported_as_performed() {
    let copy = handle_file("/in/a.cr3", "/out/b.cr3", false, true);
    assert_eq!(copy.report(true, true), OperationReport::Performed);
    assert_eq!(copy.report(false, true), OperationReport::Performed);
    let moved = handle_file("/in/a.cr3", "/out/b.cr3", true, true);
    assert_eq!(moved.report(true, true), OperationReport::Performed);
}

#[test]
fn a_failed_operation_is_reported_as_failed() {
    for (do_move, overwrite) in [(false, false), (false, true), (true, false), (true, true)] {
        let operation = handle_file("/in/a.cr3", "/out/b.cr3", do_move, overwrite);
        assert_eq!(operation.report(true, false), OperationReport::Failed);
        assert_eq!(operation.report(false, false), OperationReport::Failed);
    }
}

#[test]
fn report_labels() {
    assert_eq!(OperationReport::Performed.label(), "performed");
    assert_eq!(OperationReport::Preserved.label(), "preserved");
    assert_eq!(OperationReport::Failed.label(), "failed");
}
