//! The file matcher: maps a file name to a language by extension suffix.
//!
//! Matching operates on the raw bytes of the file name, so names with unusual
//! byte sequences never cause a failure: a suffix comparison on bytes is
//! always well defined. Languages are tried in registry order and, within a
//! language, extensions in declared order; the first language with a matching
//! extension takes the file.

use vstd::prelude::*;
use vstd::utf8::encode_utf8;

use crate::languages::{LanguageView, Languages};

verus! {

/// `suffix` is a suffix of `name`.
pub open spec fn bytes_end_with(name: Seq<u8>, suffix: Seq<u8>) -> bool {
    suffix.len() <= name.len() && name.skip(name.len() - suffix.len()) == suffix
}

/// Whether the file name matches one of the language's extensions, compared
/// as UTF-8 bytes against the name's raw bytes.
pub open spec fn lang_matches(name: Seq<u8>, lang: LanguageView) -> bool {
    exists|k: int|
        0 <= k < lang.extensions.len() && bytes_end_with(
            name,
            encode_utf8(#[trigger] lang.extensions[k]),
        )
}

/// The id of the first language, from `i` on, that the file name matches.
pub open spec fn match_from(name: Seq<u8>, langs: Seq<LanguageView>, i: int) -> Option<usize>
    decreases langs.len() - i,
{
    if i < 0 || i >= langs.len() {
        Option::None
    } else if lang_matches(name, langs[i]) {
        Option::Some(i as usize)
    } else {
        match_from(name, langs, i + 1)
    }
}

/// The id of the first language the file name matches, if any.
pub open spec fn match_spec(name: Seq<u8>, langs: Seq<LanguageView>) -> Option<usize> {
    match_from(name, langs, 0)
}

/// Whether `suffix` ends `name`, byte for byte.
#[verifier::loop_isolation(false)]
fn bytes_suffix(name: &[u8], suffix: &[u8]) -> (r: bool)
    ensures
        r == bytes_end_with(name@, suffix@),
{
    let sn = suffix.len();
    let nn = name.len();
    if sn > nn {
        return false;
    }
    let base = nn - sn;
    let mut i: usize = 0;
    while i < sn
        invariant
            i <= sn,
            forall|j: int| 0 <= j < i ==> name@[base + j] == suffix@[j],
        decreases sn - i,
    {
        if name[base + i] != suffix[i] {
            proof {
                assert(!bytes_end_with(name@, suffix@)) by {
                    if bytes_end_with(name@, suffix@) {
                        assert(name@.skip(base as int)[i as int] == suffix@[i as int]);
                    }
                }
            }
            return false;
        }
        i = i + 1;
    }
    proof {
        assert(name@.skip(base as int) =~= suffix@);
    }
    true
}

/// The id of the first language in the registry one of whose extensions is a
/// byte suffix of `file_name`, or none if the file matches no language.
#[verifier::loop_isolation(false)]
pub fn match_file(file_name: &[u8], languages: &Languages) -> (r: Option<usize>)
    ensures
        r == match_spec(file_name@, languages@),
{
    let n = languages.len();
    let mut li: usize = 0;
    while li < n
        invariant
            li <= n,
            n == languages@.len(),
            match_spec(file_name@, languages@) == match_from(file_name@, languages@, li as int),
        decreases n - li,
    {
        let lang = languages.index(li);
        let ghost exts = lang@.extensions;
        let en = lang.extensions.len();
        let mut ei: usize = 0;
        while ei < en
            invariant
                ei <= en,
                en == lang.extensions@.len(),
                lang@ == languages@[li as int],
                forall|k: int|
                    0 <= k < ei ==> !bytes_end_with(file_name@, encode_utf8(#[trigger] exts[k])),
            decreases en - ei,
        {
            let ext = &lang.extensions[ei];
            if bytes_suffix(file_name, ext.as_str().as_bytes()) {
                proof {
                    assert(exts[ei as int] == ext@);
                    assert(lang_matches(file_name@, languages@[li as int]));
                }
                return Option::Some(li);
            }
            ei = ei + 1;
        }
        proof {
            assert(!lang_matches(file_name@, languages@[li as int]));
        }
        li = li + 1;
    }
    Option::None
}

} // verus!
