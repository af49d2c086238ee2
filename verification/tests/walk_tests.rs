use countlines::classify::{classify_lines, ReadLine};
use countlines::count::{Counts, EntryResult, OutputCounts};
use countlines::languages::{Language, Languages};
use countlines::matcher::match_file;
use countlines::walk::{is_hidden_name, keep_entry, should_visit, Config, Mode};

fn rust_registry() -> Languages {
    let defs = vec![Language {
        name: "Rust".to_string(),
        extensions: vec![".rs".to_string()],
        line_comments: Some(vec!["//".to_string()]),
        block_comments: Some(vec![("/*".to_string(), "*/".to_string())]),
    }];
    match Languages::from(defs) {
        Ok(ls) => ls,
        Err(_) => panic!("expected a valid registry"),
    }
}

fn config(exclude: globset::GlobSet, ignore_hidden: bool) -> Config {
    Config {
        abs_root: "/work".to_string(),
        rel_root: ".".to_string(),
        languages: rust_registry(),
        exclude,
        ignore_hidden,
        quiet: true,
        max_depth: None,
        follow_links: false,
        machine_readable: false,
        mode: Mode::Sync,
    }
}

fn globs(patterns: &[&str]) -> globset::GlobSet {
    let mut builder = globset::GlobSetBuilder::new();
    for p in patterns {
        builder.add(globset::Glob::new(p).unwrap());
    }
    builder.build().unwrap()
}

#[test]
fn hidden_names() {
    assert!(is_hidden_name(b".git"));
    assert!(is_hidden_name(b"."));
    assert!(!is_hidden_name(b"src"));
    assert!(!is_hidden_name(b""));
}

#[test]
fn keep_entry_rule() {
    assert!(keep_entry(false, b".git", false));
    assert!(!keep_entry(true, b".git", false));
    assert!(!keep_entry(false, b"src", true));
    assert!(keep_entry(false, b"src", false));
    assert!(!keep_entry(true, b".git", true));
}

#[test]
fn should_visit_applies_exclude_globs() {
    let c = config(globs(&["/work/target/**"]), false);
    assert!(!should_visit(&c, b"deps", "/work/target/deps"));
    assert!(should_visit(&c, b"src", "/work/src"));
}

#[test]
fn should_visit_refuses_hidden_when_asked() {
    let c = config(globs(&[]), true);
    assert!(!should_visit(&c, b".git", "/work/.git"));
    assert!(should_visit(&c, b"src", "/work/src"));
    let lax = config(globs(&[]), false);
    assert!(should_visit(&lax, b".git", "/work/.git"));
}

#[test]
fn end_to_end_single_file() {
    // Registry with one Rust language; file "a.rs" with one line comment,
    // one code line, one blank line, and a two-line block comment.
    let ls = rust_registry();
    let lang_id = match match_file(b"a.rs", &ls) {
        Some(id) => id,
        None => panic!("a.rs should match"),
    };
    assert_eq!(lang_id, 0);
    let lines = vec![
        ReadLine::Text("// comment".to_string()),
        ReadLine::Text("fn main() {}".to_string()),
        ReadLine::Text("".to_string()),
        ReadLine::Text("/* block".to_string()),
        ReadLine::Text("still in block */".to_string()),
    ];
    let c = classify_lines(ls.index(lang_id), &lines);
    assert_eq!(c, Counts { files: 1, code: 1, comment: 3, blank: 1, invalid: 0 });

    let mut report = OutputCounts::new();
    report.absorb_entry(&EntryResult::Matched { lang_id, counts: c });
    report.absorb_entry(&EntryResult::Unmatched);
    assert_eq!(report.counts, vec![(0, c)]);
    assert_eq!(report.unmatched_files, 1);
    assert_eq!(report.error_files, 0);
}
