// The pieces of the pipeline one by one: the executability decision, path
// list splitting, name ordering, set building and the invocation check.

use diffpath::cli::invocation_ok;
use diffpath::cli::usage_message;
use diffpath::executable::FileMeta;
use diffpath::executable::is_executable;
use diffpath::names::ExecutableSet;
use diffpath::order::NameCmp;
use diffpath::order::str_cmp;
use diffpath::paths::split_path_list;

#[test]
fn invocation_needs_exactly_two_path_lists() {
    // program name plus two path lists
    assert!(invocation_ok(3));
    // one argument or three are rejected
    assert!(!invocation_ok(2));
    assert!(!invocation_ok(4));
    assert!(!invocation_ok(0));
}

#[test]
fn usage_line_names_the_program() {
    assert_eq!(usage_message("diffpath"), "Usage: diffpath PATH1 PATH2");
}

#[test]
fn regular_file_with_execute_bit_counts() {
    let m = FileMeta { is_file: true, is_symlink: false, mode: 0o755 };
    assert!(is_executable(false, Some(m)));
    assert!(is_executable(true, Some(m)));
}

#[test]
fn regular_file_without_execute_bit_does_not_count() {
    let m = FileMeta { is_file: true, is_symlink: false, mode: 0o644 };
    assert!(!is_executable(false, Some(m)));
    assert!(!is_executable(true, Some(m)));
}

#[test]
fn any_of_the_three_execute_bits_counts() {
    for mode in [0o100, 0o010, 0o001, 0o111] {
        let m = FileMeta { is_file: true, is_symlink: false, mode };
        assert!(is_executable(false, Some(m)));
    }
}

#[test]
fn unreadable_entry_does_not_count() {
    assert!(!is_executable(false, None));
    assert!(!is_executable(true, None));
}

#[test]
fn directory_entry_does_not_count() {
    let m = FileMeta { is_file: false, is_symlink: false, mode: 0o755 };
    assert!(!is_executable(false, Some(m)));
    assert!(!is_executable(true, Some(m)));
}

#[test]
fn symlink_counts_only_when_not_followed() {
    // a link whose own bits are executable, pointing at a non-executable
    // target: inspected without following, the link counts
    let link_itself = FileMeta { is_file: false, is_symlink: true, mode: 0o755 };
    assert!(is_executable(false, Some(link_itself)));
    // followed, the resolved target decides, and it has no execute bit
    let resolved_target = FileMeta { is_file: true, is_symlink: false, mode: 0o644 };
    assert!(!is_executable(true, Some(resolved_target)));
}

#[test]
fn split_empty_list_is_one_empty_path() {
    assert_eq!(split_path_list(""), vec!["".to_string()]);
}

#[test]
fn split_separates_on_each_colon() {
    assert_eq!(
        split_path_list("/usr/bin:/bin"),
        vec!["/usr/bin".to_string(), "/bin".to_string()]
    );
    assert_eq!(
        split_path_list("a::b:"),
        vec!["a".to_string(), "".to_string(), "b".to_string(), "".to_string()]
    );
}

#[test]
fn name_comparison_is_lexicographic() {
    assert_eq!(str_cmp("apple", "banana"), NameCmp::Less);
    assert_eq!(str_cmp("banana", "apple"), NameCmp::Greater);
    assert_eq!(str_cmp("same", "same"), NameCmp::Equal);
    assert_eq!(str_cmp("ab", "abc"), NameCmp::Less);
    assert_eq!(str_cmp("abc", "ab"), NameCmp::Greater);
    assert_eq!(str_cmp("", "a"), NameCmp::Less);
    assert_eq!(str_cmp("", ""), NameCmp::Equal);
}

#[test]
fn set_is_sorted_and_duplicate_free() {
    let names: Vec<String> = ["tar", "gzip", "tar", "awk", "gzip"]
        .iter()
        .map(|s| s.to_string())
        .collect();
    let set = ExecutableSet::from_names(&names);
    assert_eq!(set.len(), 3);
    assert_eq!(set.name_at(0), "awk");
    assert_eq!(set.name_at(1), "gzip");
    assert_eq!(set.name_at(2), "tar");
}

#[test]
fn inserting_a_held_name_changes_nothing() {
    let mut set = ExecutableSet::new();
    set.insert("sed".to_string());
    set.insert("sed".to_string());
    assert_eq!(set.len(), 1);
    assert_eq!(set.name_at(0), "sed");
}

#[test]
fn split_lone_colon_is_two_empty_paths() {
    assert_eq!(split_path_list(":"), vec!["".to_string(), "".to_string()]);
}

#[test]
fn name_comparison_uses_code_points() {
    assert_eq!(str_cmp("zebra", "\u{e9}clair"), NameCmp::Less);
    assert_eq!(str_cmp("\u{e9}clair", "zebra"), NameCmp::Greater);
}
