use countlines::languages::{Language, Languages, LanguagesError};

fn lang(name: &str, exts: &[&str]) -> Language {
    Language {
        name: name.to_string(),
        extensions: exts.iter().map(|e| e.to_string()).collect(),
        line_comments: None,
        block_comments: None,
    }
}

#[test]
fn duplicate_extension_across_languages() {
    let r = Languages::from(vec![lang("Markdown", &[".md"]), lang("AltDown", &[".md"])]);
    match r {
        Err(LanguagesError::ExtensionUsedTwice(e)) => assert_eq!(e, ".md"),
        _ => panic!("expected a duplicate-extension error"),
    }
}

#[test]
fn duplicate_extension_within_one_language() {
    let r = Languages::from(vec![lang("Twice", &[".go", ".go"])]);
    match r {
        Err(LanguagesError::ExtensionUsedTwice(e)) => assert_eq!(e, ".go"),
        _ => panic!("expected a duplicate-extension error"),
    }
}

#[test]
fn extension_without_leading_dot() {
    let r = Languages::from(vec![lang("Rust", &["rs"])]);
    match r {
        Err(LanguagesError::WrongFormat(m)) => {
            assert_eq!(m, "extension doesn't start with a dot")
        }
        _ => panic!("expected a malformed-extension error"),
    }
}

#[test]
fn extension_too_short() {
    let r = Languages::from(vec![lang("Dot", &["."])]);
    match r {
        Err(LanguagesError::WrongFormat(m)) => assert_eq!(m, "extension empty"),
        _ => panic!("expected a malformed-extension error"),
    }
}

#[test]
fn extension_with_embedded_dot() {
    let r = Languages::from(vec![lang("Tar", &[".tar.gz"])]);
    match r {
        Err(LanguagesError::WrongFormat(m)) => assert_eq!(m, "extension contains a dot"),
        _ => panic!("expected a malformed-extension error"),
    }
}

#[test]
fn first_fault_wins() {
    // The first violation in declaration order is reported: the malformed
    // extension of the first language, not the duplicate in the second.
    let r = Languages::from(vec![lang("Bad", &[".ok", "bad"]), lang("Dup", &[".ok"])]);
    match r {
        Err(LanguagesError::WrongFormat(m)) => {
            assert_eq!(m, "extension doesn't start with a dot")
        }
        _ => panic!("expected a malformed-extension error"),
    }
}

#[test]
fn valid_registry_keeps_order() {
    let r = Languages::from(vec![
        lang("Rust", &[".rs"]),
        lang("C", &[".c", ".h"]),
        lang("Go", &[".go"]),
    ]);
    let ls = match r {
        Ok(ls) => ls,
        Err(_) => panic!("expected a valid registry"),
    };
    assert_eq!(ls.len(), 3);
    assert_eq!(ls.index(0).name, "Rust");
    assert_eq!(ls.index(1).name, "C");
    assert_eq!(ls.index(1).extensions, vec![".c".to_string(), ".h".to_string()]);
    assert_eq!(ls.index(2).name, "Go");
}

#[test]
fn empty_registry_is_valid() {
    let r = Languages::from(vec![]);
    let ls = match r {
        Ok(ls) => ls,
        Err(_) => panic!("expected a valid registry"),
    };
    assert_eq!(ls.len(), 0);
}
