use countlines::languages::{Language, Languages};
use countlines::matcher::match_file;

fn lang(name: &str, exts: &[&str]) -> Language {
    Language {
        name: name.to_string(),
        extensions: exts.iter().map(|e| e.to_string()).collect(),
        line_comments: None,
        block_comments: None,
    }
}

fn registry(defs: Vec<Language>) -> Languages {
    match Languages::from(defs) {
        Ok(ls) => ls,
        Err(_) => panic!("expected a valid registry"),
    }
}

#[test]
fn suffix_matches_through_inner_dot() {
    // "archive.tar.gz" matches a language declaring ".gz" even though the
    // name has an earlier ".tar".
    let ls = registry(vec![lang("Gzip", &[".gz"])]);
    assert_eq!(match_file(b"archive.tar.gz", &ls), Some(0));
}

#[test]
fn first_registry_position_wins() {
    let ls = registry(vec![lang("Gzip", &[".gz"]), lang("Data", &[".dat", ".gz2"])]);
    assert_eq!(match_file(b"a.gz", &ls), Some(0));
    assert_eq!(match_file(b"a.dat", &ls), Some(1));
    // Both ".gz" and ".gz2" are suffixes of nothing here, but ".gz2" ends
    // "b.gz2" while ".gz" does not: only the second language matches.
    assert_eq!(match_file(b"b.gz2", &ls), Some(1));
}

#[test]
fn unmatched_file_yields_none() {
    let ls = registry(vec![lang("Rust", &[".rs"])]);
    assert_eq!(match_file(b"README", &ls), None);
    assert_eq!(match_file(b"a.rss", &ls), None);
    assert_eq!(match_file(b"", &ls), None);
}

#[test]
fn raw_bytes_never_fail() {
    // Matching operates on raw bytes: a name that is not valid UTF-8 is
    // still matched by suffix.
    let ls = registry(vec![lang("Rust", &[".rs"])]);
    let name: &[u8] = &[0xFF, 0xFE, b'x', b'.', b'r', b's'];
    assert_eq!(match_file(name, &ls), Some(0));
    let bad: &[u8] = &[0xFF, 0xFE];
    assert_eq!(match_file(bad, &ls), None);
}

#[test]
fn extension_order_within_language() {
    let ls = registry(vec![lang("C", &[".c", ".h"])]);
    assert_eq!(match_file(b"main.c", &ls), Some(0));
    assert_eq!(match_file(b"main.h", &ls), Some(0));
}
