use countlines::count::{Counts, OutputCounts};
use countlines::table::{sort_counts, total_counts};
use countlines::util::{add_rel_dot, format_number, relativize_path};

fn counts(files: usize, code: usize, comment: usize, blank: usize, invalid: usize) -> Counts {
    Counts { files, code, comment, blank, invalid }
}

#[test]
fn sort_by_descending_code_then_ascending_id() {
    let o = OutputCounts {
        counts: vec![
            (2, counts(1, 10, 0, 0, 0)),
            (0, counts(1, 30, 0, 0, 0)),
            (3, counts(1, 10, 0, 0, 0)),
            (1, counts(1, 20, 0, 0, 0)),
        ],
        unmatched_files: 0,
        error_files: 0,
    };
    let sorted = sort_counts(&o);
    let ids: Vec<usize> = sorted.iter().map(|e| e.0).collect();
    assert_eq!(ids, vec![0, 1, 2, 3]);
}

#[test]
fn sort_of_empty_report_is_empty() {
    let o = OutputCounts::new();
    assert_eq!(sort_counts(&o), vec![]);
}

#[test]
fn totals_sum_every_column() {
    let entries = vec![
        (0, counts(1, 5, 2, 1, 0)),
        (1, counts(2, 10, 0, 3, 1)),
        (2, counts(1, 0, 7, 0, 0)),
    ];
    let t = total_counts(&entries);
    assert_eq!(t, counts(4, 15, 9, 4, 1));
}

#[test]
fn totals_of_nothing_are_zero() {
    let t = total_counts(&vec![]);
    assert_eq!(t, Counts::zero());
}

#[test]
fn format_number_small_values() {
    assert_eq!(format_number(0), "0");
    assert_eq!(format_number(7), "7");
    assert_eq!(format_number(999), "999");
}

#[test]
fn format_number_grouping() {
    assert_eq!(format_number(1000), "1,000");
    assert_eq!(format_number(12345), "12,345");
    assert_eq!(format_number(1234567), "1,234,567");
    assert_eq!(format_number(1000000000), "1,000,000,000");
}

#[test]
fn add_rel_dot_prefixes_plain_relative_paths() {
    assert_eq!(add_rel_dot("src/main.rs".to_string()), "./src/main.rs");
    assert_eq!(add_rel_dot("x".to_string()), "./x");
}

#[test]
fn add_rel_dot_keeps_absolute_and_dotted_paths() {
    assert_eq!(add_rel_dot("/etc/hosts".to_string()), "/etc/hosts");
    assert_eq!(add_rel_dot("./x".to_string()), "./x");
    assert_eq!(add_rel_dot("../x".to_string()), "../x");
    assert_eq!(add_rel_dot("..".to_string()), "..");
    assert_eq!(add_rel_dot(".".to_string()), ".");
}

#[test]
fn add_rel_dot_empty_path() {
    assert_eq!(add_rel_dot(String::new()), "./");
}

#[test]
fn add_rel_dot_hidden_name_is_not_a_dot_component() {
    // ".foo" is one component named ".foo", not the "." component.
    assert_eq!(add_rel_dot(".foo".to_string()), "./.foo");
    assert_eq!(add_rel_dot("..foo".to_string()), "./..foo");
}

#[test]
fn relativize_path_under_cwd() {
    assert_eq!(relativize_path("/home/me/proj/src".to_string(), "/home/me/proj"), "./src");
    assert_eq!(relativize_path("/home/me/proj".to_string(), "/home/me/proj"), "./");
}

#[test]
fn relativize_path_elsewhere_passes_through() {
    assert_eq!(relativize_path("/usr/lib".to_string(), "/home/me"), "/usr/lib");
    // A string prefix that is not a component boundary does not count.
    assert_eq!(relativize_path("/home/meow".to_string(), "/home/me"), "/home/meow");
}
