//! The language registry: an immutable, index-addressable list of language
//! definitions, validated once when it is built.
//!
//! A language is matched by file-name extension. Every extension must begin
//! with a single `.`, contain no other `.`, be at least two characters long,
//! and be unique across the whole registry; `Languages::from` checks the
//! definitions in order and fails on the first violation.

use vstd::prelude::*;

verus! {

/// One language definition: its display name, the extensions that map files
/// to it, and the comment tokens its classifier uses.
pub struct Language {
    pub name: String,
    pub extensions: Vec<String>,
    pub line_comments: Option<Vec<String>>,
    pub block_comments: Option<Vec<(String, String)>>,
}

/// Mathematical value of a `Language`: every token as a character sequence.
#[verifier::ext_equal]
pub ghost struct LanguageView {
    pub name: Seq<char>,
    pub extensions: Seq<Seq<char>>,
    pub line_comments: Option<Seq<Seq<char>>>,
    pub block_comments: Option<Seq<(Seq<char>, Seq<char>)>>,
}

impl View for Language {
    type V = LanguageView;

    open spec fn view(&self) -> LanguageView {
        LanguageView {
            name: self.name@,
            extensions: self.extensions@.map_values(|e: String| e@),
            line_comments: match self.line_comments {
                Option::Some(v) => Option::Some(v@.map_values(|e: String| e@)),
                Option::None => Option::None,
            },
            block_comments: match self.block_comments {
                Option::Some(v) => Option::Some(
                    v@.map_values(|p: (String, String)| (p.0@, p.1@)),
                ),
                Option::None => Option::None,
            },
        }
    }
}

impl LanguageView {
    /// The line-comment tokens; a missing list means no tokens.
    pub open spec fn line_comment_tokens(self) -> Seq<Seq<char>> {
        match self.line_comments {
            Option::Some(s) => s,
            Option::None => Seq::empty(),
        }
    }

    /// The block-comment (start, end) token pairs; a missing list means none.
    pub open spec fn block_comment_pairs(self) -> Seq<(Seq<char>, Seq<char>)> {
        match self.block_comments {
            Option::Some(s) => s,
            Option::None => Seq::empty(),
        }
    }
}

/// The view of a list of language definitions.
pub open spec fn langs_view(s: Seq<Language>) -> Seq<LanguageView> {
    s.map_values(|l: Language| l@)
}

/// A reason the registry rejects a definition list, with the offending
/// extension.
pub ghost enum LangFault {
    /// The extension has fewer than two characters.
    TooShort(Seq<char>),
    /// The extension does not begin with a dot.
    NoLeadingDot(Seq<char>),
    /// The extension has a dot after the first character.
    EmbeddedDot(Seq<char>),
    /// The extension was already declared, by this or an earlier language.
    UsedTwice(Seq<char>),
}

/// The format fault of one extension, if it has one; uniqueness is judged
/// separately, by `scan_extensions`.
pub open spec fn ext_fault(e: Seq<char>) -> Option<LangFault> {
    if e.len() < 2 {
        Option::Some(LangFault::TooShort(e))
    } else if e[0] != '.' {
        Option::Some(LangFault::NoLeadingDot(e))
    } else if exists|i: int| 1 <= i < e.len() && e[i] == '.' {
        Option::Some(LangFault::EmbeddedDot(e))
    } else {
        Option::None
    }
}

/// Walk the extensions in declaration order, with `seen` the ones already
/// accepted, and give the first fault.
pub open spec fn scan_extensions(pending: Seq<Seq<char>>, seen: Seq<Seq<char>>) -> Option<
    LangFault,
>
    decreases pending.len(),
{
    if pending.len() == 0 {
        Option::None
    } else if ext_fault(pending[0]) is Some {
        ext_fault(pending[0])
    } else if seen.contains(pending[0]) {
        Option::Some(LangFault::UsedTwice(pending[0]))
    } else {
        scan_extensions(pending.drop_first(), seen.push(pending[0]))
    }
}

/// All extensions of the definition list, in declaration order.
pub open spec fn all_extensions(langs: Seq<LanguageView>) -> Seq<Seq<char>>
    decreases langs.len(),
{
    if langs.len() == 0 {
        Seq::empty()
    } else {
        langs[0].extensions + all_extensions(langs.drop_first())
    }
}

/// The first fault of the definition list, if it has one.
pub open spec fn languages_fault(langs: Seq<LanguageView>) -> Option<LangFault> {
    scan_extensions(all_extensions(langs), Seq::empty())
}

/// A clean scan means every pending extension is well formed, the pending
/// extensions are pairwise distinct, and none repeats a seen one.
proof fn lemma_scan_clean(pending: Seq<Seq<char>>, seen: Seq<Seq<char>>)
    requires
        scan_extensions(pending, seen) is None,
    ensures
        forall|i: int| 0 <= i < pending.len() ==> ext_fault(#[trigger] pending[i]) is None,
        forall|i: int, j: int|
            0 <= i < j < pending.len() ==> #[trigger] pending[i] != #[trigger] pending[j],
        forall|i: int, j: int|
            0 <= i < pending.len() && 0 <= j < seen.len() ==> #[trigger] pending[i] != (
            #[trigger] seen[j]),
    decreases pending.len(),
{
    if pending.len() > 0 {
        assert(!seen.contains(pending[0]));
        lemma_scan_clean(pending.drop_first(), seen.push(pending[0]));
        assert forall|i: int| 0 <= i < pending.len() implies ext_fault(
            #[trigger] pending[i],
        ) is None by {
            if i > 0 {
                assert(pending.drop_first()[i - 1] == pending[i]);
            }
        }
        assert forall|i: int, j: int|
            0 <= i < j < pending.len() implies #[trigger] pending[i] != #[trigger] pending[j] by {
            if i == 0 {
                assert(pending.drop_first()[j - 1] == pending[j]);
                assert(seen.push(pending[0])[seen.len() as int] == pending[0]);
            } else {
                assert(pending.drop_first()[i - 1] == pending[i]);
                assert(pending.drop_first()[j - 1] == pending[j]);
            }
        }
        assert forall|i: int, j: int|
            0 <= i < pending.len() && 0 <= j < seen.len() implies #[trigger] pending[i] != (
        #[trigger] seen[j]) by {
            if i == 0 {
                assert(seen[j] == seen.push(pending[0])[j]);
            } else {
                assert(pending.drop_first()[i - 1] == pending[i]);
                assert(seen.push(pending[0])[j] == seen[j]);
            }
        }
    }
}

/// What a validated registry guarantees: every declared extension is well
/// formed (at least two characters, a single leading dot) and no two
/// positions in the declaration order carry the same extension.
pub proof fn lemma_wf_extensions(langs: Seq<LanguageView>)
    requires
        languages_fault(langs) is None,
    ensures
        forall|i: int|
            0 <= i < all_extensions(langs).len() ==> ext_fault(
                #[trigger] all_extensions(langs)[i],
            ) is None,
        forall|i: int, j: int|
            0 <= i < j < all_extensions(langs).len() ==> #[trigger] all_extensions(langs)[i] != (
            #[trigger] all_extensions(langs)[j]),
{
    lemma_scan_clean(all_extensions(langs), Seq::empty());
}

/// Why a definition list was rejected.
#[derive(Debug)]
pub enum LanguagesError {
    /// An extension is malformed; the payload says how.
    WrongFormat(&'static str),
    /// The extension was declared twice.
    ExtensionUsedTwice(String),
}

/// The error that reports the fault `f`.
pub open spec fn error_reports(e: LanguagesError, f: LangFault) -> bool {
    match (e, f) {
        (LanguagesError::WrongFormat(m), LangFault::TooShort(_)) => m@ == "extension empty"@,
        (
            LanguagesError::WrongFormat(m),
            LangFault::NoLeadingDot(_),
        ) => m@ == "extension doesn't start with a dot"@,
        (
            LanguagesError::WrongFormat(m),
            LangFault::EmbeddedDot(_),
        ) => m@ == "extension contains a dot"@,
        (LanguagesError::ExtensionUsedTwice(x), LangFault::UsedTwice(e)) => x@ == e,
        _ => false,
    }
}

/// The validated, immutable registry. A `LanguageId` is a language's position
/// in it and never changes.
pub struct Languages {
    languages: Vec<Language>,
}

impl View for Languages {
    type V = Seq<LanguageView>;

    closed spec fn view(&self) -> Seq<LanguageView> {
        langs_view(self.languages@)
    }
}

impl Languages {
    /// The registry invariant: the definitions passed validation.
    pub open spec fn wf(&self) -> bool {
        languages_fault(self@) is None
    }

    /// The number of languages.
    pub fn len(&self) -> (n: usize)
        ensures
            n == self@.len(),
    {
        self.languages.len()
    }

    /// The language with id `i`.
    pub fn index(&self, i: usize) -> (l: &Language)
        requires
            i < self@.len(),
        ensures
            l@ == self@[i as int],
    {
        &self.languages[i]
    }

    /// Validate a definition list and build the registry from it. Every
    /// extension must have at least two characters, begin with a dot, contain
    /// no other dot, and not be declared twice; the first violation, in
    /// declaration order, is reported and nothing is built.
    #[verifier::loop_isolation(false)]
    pub fn from(languages: Vec<Language>) -> (r: Result<Languages, LanguagesError>)
        ensures
            match r {
                Result::Ok(ls) => {
                    &&& languages_fault(langs_view(languages@)) is None
                    &&& ls@ == langs_view(languages@)
                    &&& ls.wf()
                },
                Result::Err(e) => match languages_fault(langs_view(languages@)) {
                    Option::Some(f) => error_reports(e, f),
                    Option::None => false,
                },
            },
    {
        let ghost full: Seq<LanguageView> = langs_view(languages@);
        let mut seen: Vec<String> = Vec::new();
        let n = languages.len();
        let mut li: usize = 0;
        proof {
            assert(full.skip(0) =~= full);
            assert(seen@.map_values(|e: String| e@) =~= Seq::<Seq<char>>::empty());
        }
        while li < n
            invariant
                li <= n,
                n == languages@.len(),
                scan_extensions(all_extensions(full), Seq::empty()) == scan_extensions(
                    all_extensions(full.skip(li as int)),
                    seen@.map_values(|e: String| e@),
                ),
            decreases n - li,
        {
            let lang = &languages[li];
            let ghost exts: Seq<Seq<char>> = lang@.extensions;
            let ghost rest: Seq<Seq<char>> = all_extensions(full.skip(li as int + 1));
            proof {
                assert(full.skip(li as int)[0] == full[li as int]);
                assert(full.skip(li as int).drop_first() =~= full.skip(li as int + 1));
                assert(full[li as int] == lang@);
                assert(all_extensions(full.skip(li as int)) == exts + rest);
            }
            let en = lang.extensions.len();
            let mut ei: usize = 0;
            proof {
                assert(exts.skip(0) =~= exts);
            }
            while ei < en
                invariant
                    ei <= en,
                    en == lang.extensions@.len(),
                    scan_extensions(all_extensions(full), Seq::empty()) == scan_extensions(
                        exts.skip(ei as int) + rest,
                        seen@.map_values(|e: String| e@),
                    ),
                decreases en - ei,
            {
                let ext = &lang.extensions[ei];
                let ghost pending = exts.skip(ei as int) + rest;
                let ghost seen_v = seen@.map_values(|e: String| e@);
                proof {
                    assert(exts[ei as int] == ext@);
                    assert(pending[0] == ext@);
                    assert(pending.drop_first() =~= exts.skip(ei as int + 1) + rest);
                }
                let el = ext.as_str().unicode_len();
                if el < 2 {
                    return Result::Err(LanguagesError::WrongFormat("extension empty"));
                }
                if ext.as_str().get_char(0) != '.' {
                    return Result::Err(
                        LanguagesError::WrongFormat("extension doesn't start with a dot"),
                    );
                }
                let mut k: usize = 1;
                while k < el
                    invariant
                        1 <= k <= el,
                        forall|j: int| 1 <= j < k ==> ext@[j] != '.',
                    decreases el - k,
                {
                    if ext.as_str().get_char(k) == '.' {
                        return Result::Err(LanguagesError::WrongFormat("extension contains a dot"));
                    }
                    k = k + 1;
                }
                proof {
                    assert(ext_fault(ext@) is None);
                }
                let sn = seen.len();
                let mut d: usize = 0;
                while d < sn
                    invariant
                        d <= sn,
                        sn == seen@.len(),
                        forall|j: int| 0 <= j < d ==> seen@[j]@ != ext@,
                    decreases sn - d,
                {
                    if seen[d] == *ext {
                        proof {
                            assert(seen_v[d as int] == ext@);
                            assert(seen_v.contains(ext@));
                        }
                        return Result::Err(LanguagesError::ExtensionUsedTwice(ext.clone()));
                    }
                    d = d + 1;
                }
                proof {
                    assert(forall|j: int| 0 <= j < seen_v.len() ==> seen_v[j] != ext@);
                    assert(!seen_v.contains(ext@));
                }
                seen.push(ext.clone());
                proof {
                    assert(seen@.map_values(|e: String| e@) =~= seen_v.push(ext@));
                }
                ei = ei + 1;
            }
            proof {
                assert(exts.skip(en as int) =~= Seq::<Seq<char>>::empty());
                assert(exts.skip(en as int) + rest =~= rest);
            }
            li = li + 1;
        }
        proof {
            assert(full.skip(n as int) =~= Seq::<LanguageView>::empty());
            assert(languages_fault(full) is None);
        }
        Result::Ok(Languages { languages })
    }
}

} // verus!
