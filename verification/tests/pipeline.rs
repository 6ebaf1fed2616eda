// End-to-end behaviour of the comparison pipeline: collected name lists in,
// output lines out.

use diffpath::diff::symmetric_difference;
use diffpath::executable::FileMeta;
use diffpath::executable::is_executable;
use diffpath::format::format_entries;
use diffpath::names::ExecutableSet;

fn diff_lines(a: &[&str], b: &[&str]) -> Vec<String> {
    let a_names: Vec<String> = a.iter().map(|s| s.to_string()).collect();
    let b_names: Vec<String> = b.iter().map(|s| s.to_string()).collect();
    let set_a = ExecutableSet::from_names(&a_names);
    let set_b = ExecutableSet::from_names(&b_names);
    let entries = symmetric_difference(&set_a, &set_b);
    format_entries(&entries)
}

#[test]
fn first_side_only_name_is_bare() {
    assert_eq!(diff_lines(&["foo"], &[]), vec!["foo".to_string()]);
}

#[test]
fn second_side_only_name_is_tab_prefixed() {
    assert_eq!(diff_lines(&[], &["bar"]), vec!["\tbar".to_string()]);
}

#[test]
fn shared_name_produces_no_line() {
    assert_eq!(diff_lines(&["baz"], &["baz"]), Vec::<String>::new());
}

#[test]
fn empty_sides_produce_no_line() {
    assert_eq!(diff_lines(&[], &[]), Vec::<String>::new());
}

#[test]
fn lines_are_sorted_by_bare_name() {
    let lines = diff_lines(&["d", "b"], &["c", "a"]);
    assert_eq!(
        lines,
        vec![
            "\ta".to_string(),
            "b".to_string(),
            "\tc".to_string(),
            "d".to_string(),
        ]
    );
    let bare: Vec<&str> = lines.iter().map(|l| l.trim_start_matches('\t')).collect();
    let mut sorted = bare.clone();
    sorted.sort();
    sorted.dedup();
    assert_eq!(bare, sorted);
}

#[test]
fn intersection_is_never_reported() {
    assert_eq!(
        diff_lines(&["x", "y"], &["y", "z"]),
        vec!["x".to_string(), "\tz".to_string()]
    );
}

#[test]
fn duplicate_names_across_directories_collapse() {
    // the same name found in several directories of one list counts once
    assert_eq!(diff_lines(&["foo", "foo", "foo"], &[]), vec!["foo".to_string()]);
    assert_eq!(diff_lines(&["baz", "baz"], &["baz"]), Vec::<String>::new());
}

#[test]
fn repeated_runs_yield_identical_output() {
    let a = &["gcc", "ld", "as"];
    let b = &["gcc", "clang"];
    let first = diff_lines(a, b);
    let second = diff_lines(a, b);
    assert_eq!(first, second);
    assert_eq!(first, vec!["as".to_string(), "\tclang".to_string(), "ld".to_string()]);
}

#[test]
fn non_executable_file_is_excluded_from_both_sets() {
    // a plain readable file without execute bits never reaches a set
    let meta = FileMeta { is_file: true, is_symlink: false, mode: 0o644 };
    let mut collected: Vec<&str> = Vec::new();
    if is_executable(false, Some(meta)) {
        collected.push("readme");
    }
    assert!(collected.is_empty());
    assert_eq!(diff_lines(&collected, &[]), Vec::<String>::new());
}
