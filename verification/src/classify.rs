//! The line classifier: a streaming state machine that turns a file's lines
//! into code / comment / blank / invalid counts.
//!
//! Each line is trimmed of surrounding whitespace and then judged, in order:
//! a line that could not be read is invalid; an empty line is blank (even
//! inside an open block comment, which it neither closes nor continues); a
//! line inside an open block comment is a comment, and closes the block when
//! it ends with the recorded closing token; a line starting with a
//! line-comment token is a comment; a line starting with a block-comment start
//! token is a comment, and opens the block unless the same line also ends with
//! the pair's closing token; anything else is code.

use vstd::prelude::*;

use crate::count::{Counts, CountsView};
use crate::languages::{Language, LanguageView};

verus! {

/// Whether `c` is whitespace: the Unicode `White_Space` characters, the set
/// that `str::trim` removes.
pub open spec fn is_space(c: char) -> bool {
    let u = c as u32;
    ||| u == 0x20
    ||| (0x09 <= u && u <= 0x0D)
    ||| u == 0x85
    ||| u == 0xA0
    ||| u == 0x1680
    ||| (0x2000 <= u && u <= 0x200A)
    ||| u == 0x2028
    ||| u == 0x2029
    ||| u == 0x202F
    ||| u == 0x205F
    ||| u == 0x3000
}

/// Runtime check for `is_space`.
pub fn is_space_char(c: char) -> (r: bool)
    ensures
        r == is_space(c),
{
    let u = c as u32;
    u == 0x20 || (0x09 <= u && u <= 0x0D) || u == 0x85 || u == 0xA0 || u == 0x1680 || (0x2000 <= u
        && u <= 0x200A) || u == 0x2028 || u == 0x2029 || u == 0x202F || u == 0x205F || u == 0x3000
}

/// `s` without its leading whitespace.
pub open spec fn trim_front(s: Seq<char>) -> Seq<char>
    decreases s.len(),
{
    if s.len() > 0 && is_space(s[0]) {
        trim_front(s.drop_first())
    } else {
        s
    }
}

/// `s` without its trailing whitespace.
pub open spec fn trim_back(s: Seq<char>) -> Seq<char>
    decreases s.len(),
{
    if s.len() > 0 && is_space(s.last()) {
        trim_back(s.drop_last())
    } else {
        s
    }
}

/// `s` without surrounding whitespace: what `str::trim` leaves.
pub open spec fn trimmed(s: Seq<char>) -> Seq<char> {
    trim_back(trim_front(s))
}

/// Dropping a whitespace prefix does not change the front-trimmed value.
proof fn lemma_trim_front_skip(s: Seq<char>, k: int)
    requires
        0 <= k <= s.len(),
        forall|i: int| 0 <= i < k ==> is_space(s[i]),
    ensures
        trim_front(s) == trim_front(s.skip(k)),
    decreases k,
{
    if k == 0 {
        assert(s.skip(0) =~= s);
    } else {
        assert(s.drop_first() =~= s.skip(1));
        lemma_trim_front_skip(s.skip(1), k - 1);
        assert(s.skip(1).skip(k - 1) =~= s.skip(k));
    }
}

/// Dropping a whitespace suffix does not change the back-trimmed value.
proof fn lemma_trim_back_take(s: Seq<char>, k: int)
    requires
        0 <= k <= s.len(),
        forall|i: int| k <= i < s.len() ==> is_space(s[i]),
    ensures
        trim_back(s) == trim_back(s.take(k)),
    decreases s.len() - k,
{
    if k == s.len() {
        assert(s.take(k) =~= s);
    } else {
        assert(is_space(s.last()));
        assert(s.drop_last() =~= s.take(s.len() - 1));
        lemma_trim_back_take(s.take(s.len() - 1), k);
        assert(s.take(s.len() - 1).take(k) =~= s.take(k));
    }
}

/// The trimmed window of `s`: indices `(lo, hi)` such that the subrange they
/// bound is `trimmed(s@)`.
pub fn trim_window(s: &str) -> (r: (usize, usize))
    ensures
        r.0 <= r.1 <= s@.len(),
        trimmed(s@) == s@.subrange(r.0 as int, r.1 as int),
{
    let n = s.unicode_len();
    let mut lo: usize = 0;
    while lo < n
        invariant
            lo <= n,
            n == s@.len(),
            forall|i: int| 0 <= i < lo ==> is_space(s@[i]),
        ensures
            lo <= n,
            n == s@.len(),
            forall|i: int| 0 <= i < lo ==> is_space(s@[i]),
            lo == n || !is_space(s@[lo as int]),
        decreases n - lo,
    {
        if !is_space_char(s.get_char(lo)) {
            break ;
        }
        lo = lo + 1;
    }
    proof {
        lemma_trim_front_skip(s@, lo as int);
        if lo < n {
            assert(trim_front(s@.skip(lo as int)) == s@.skip(lo as int));
        } else {
            assert(s@.skip(lo as int) =~= Seq::<char>::empty());
        }
        assert(trim_front(s@) == s@.skip(lo as int));
    }
    let mut hi: usize = n;
    while hi > lo
        invariant
            lo <= hi <= n,
            n == s@.len(),
            forall|i: int| hi <= i < n ==> is_space(s@[i]),
        ensures
            lo <= hi <= n,
            forall|i: int| hi <= i < n ==> is_space(s@[i]),
            hi == lo || !is_space(s@[hi - 1]),
        decreases hi - lo,
    {
        if !is_space_char(s.get_char(hi - 1)) {
            break ;
        }
        hi = hi - 1;
    }
    proof {
        let t = s@.skip(lo as int);
        assert(forall|i: int|
            hi - lo <= i < t.len() ==> is_space(#[trigger] t[i]) && t[i] == s@[i + lo]);
        lemma_trim_back_take(t, hi - lo);
        assert(t.take(hi - lo) =~= s@.subrange(lo as int, hi as int));
        if hi > lo {
            assert(s@.subrange(lo as int, hi as int).last() == s@[hi - 1]);
            assert(trim_back(s@.subrange(lo as int, hi as int)) == s@.subrange(
                lo as int,
                hi as int,
            ));
        } else {
            assert(s@.subrange(lo as int, hi as int) =~= Seq::<char>::empty());
        }
    }
    (lo, hi)
}

/// `p` is a prefix of `s`.
pub open spec fn seq_starts_with(s: Seq<char>, p: Seq<char>) -> bool {
    p.len() <= s.len() && s.take(p.len() as int) == p
}

/// `p` is a suffix of `s`.
pub open spec fn seq_ends_with(s: Seq<char>, p: Seq<char>) -> bool {
    p.len() <= s.len() && s.skip(s.len() - p.len()) == p
}

/// Whether the window `lo..hi` of `s` starts with `tok`.
#[verifier::loop_isolation(false)]
pub fn window_starts_with(s: &str, lo: usize, hi: usize, tok: &str) -> (r: bool)
    requires
        lo <= hi <= s@.len(),
    ensures
        r == seq_starts_with(s@.subrange(lo as int, hi as int), tok@),
{
    let ghost w = s@.subrange(lo as int, hi as int);
    let tn = tok.unicode_len();
    if tn > hi - lo {
        return false;
    }
    let mut i: usize = 0;
    while i < tn
        invariant
            i <= tn,
            forall|j: int| 0 <= j < i ==> w[j] == tok@[j],
        decreases tn - i,
    {
        if s.get_char(lo + i) != tok.get_char(i) {
            proof {
                assert(w[i as int] != tok@[i as int]);
                assert(!seq_starts_with(w, tok@)) by {
                    if seq_starts_with(w, tok@) {
                        assert(w.take(tn as int)[i as int] == tok@[i as int]);
                    }
                }
            }
            return false;
        }
        i = i + 1;
    }
    proof {
        assert(w.take(tn as int) =~= tok@);
    }
    true
}

/// Whether the window `lo..hi` of `s` ends with `tok`.
#[verifier::loop_isolation(false)]
pub fn window_ends_with(s: &str, lo: usize, hi: usize, tok: &str) -> (r: bool)
    requires
        lo <= hi <= s@.len(),
    ensures
        r == seq_ends_with(s@.subrange(lo as int, hi as int), tok@),
{
    let ghost w = s@.subrange(lo as int, hi as int);
    let tn = tok.unicode_len();
    if tn > hi - lo {
        return false;
    }
    let base = hi - tn;
    let mut i: usize = 0;
    while i < tn
        invariant
            i <= tn,
            forall|j: int| 0 <= j < i ==> w[w.len() - tn + j] == tok@[j],
        decreases tn - i,
    {
        if s.get_char(base + i) != tok.get_char(i) {
            proof {
                assert(w[w.len() - tn + i] != tok@[i as int]);
                assert(!seq_ends_with(w, tok@)) by {
                    if seq_ends_with(w, tok@) {
                        assert(w.skip(w.len() - tn)[i as int] == tok@[i as int]);
                    }
                }
            }
            return false;
        }
        i = i + 1;
    }
    proof {
        assert(w.skip(w.len() - tn) =~= tok@);
    }
    true
}

/// Whether the trimmed line `t` starts with one of the line-comment tokens.
pub open spec fn has_line_comment(toks: Seq<Seq<char>>, t: Seq<char>) -> bool {
    exists|i: int| 0 <= i < toks.len() && seq_starts_with(t, toks[i])
}

/// The first block-comment pair whose start token begins the trimmed line
/// `t`, in declared order.
pub open spec fn find_block_pair(pairs: Seq<(Seq<char>, Seq<char>)>, t: Seq<char>) -> Option<
    (Seq<char>, Seq<char>),
>
    decreases pairs.len(),
{
    if pairs.len() == 0 {
        Option::None
    } else if seq_starts_with(t, pairs[0].0) {
        Option::Some(pairs[0])
    } else {
        find_block_pair(pairs.drop_first(), t)
    }
}

/// Pairs whose start token does not begin `t` do not affect the search.
proof fn lemma_find_block_pair_skip(pairs: Seq<(Seq<char>, Seq<char>)>, t: Seq<char>, j: int)
    requires
        0 <= j <= pairs.len(),
        forall|k: int| 0 <= k < j ==> !seq_starts_with(t, (#[trigger] pairs[k]).0),
    ensures
        find_block_pair(pairs, t) == find_block_pair(pairs.skip(j), t),
    decreases j,
{
    if j == 0 {
        assert(pairs.skip(0) =~= pairs);
    } else {
        assert(pairs.drop_first() =~= pairs.skip(1));
        lemma_find_block_pair_skip(pairs.skip(1), t, j - 1);
        assert(pairs.skip(1).skip(j - 1) =~= pairs.skip(j));
    }
}

/// What one line contributes to the counts.
#[derive(Clone, Copy, Debug, PartialEq, Eq, Structural)]
pub enum LineKind {
    /// The line could not be read.
    Invalid,
    /// The line is empty after trimming.
    Blank,
    /// The line is part of a comment.
    Comment,
    /// Anything else.
    Code,
}

/// The counts delta of one line.
pub open spec fn kind_delta(k: LineKind) -> CountsView {
    match k {
        LineKind::Invalid => CountsView { invalid: 1, ..CountsView::zero() },
        LineKind::Blank => CountsView { blank: 1, ..CountsView::zero() },
        LineKind::Comment => CountsView { comment: 1, ..CountsView::zero() },
        LineKind::Code => CountsView { code: 1, ..CountsView::zero() },
    }
}

/// One step of the classifier: how the line is judged and the open-block
/// state after it. `st` is the closing token of the open block comment, if
/// one is open; `line` is the line's text, or none if it could not be read.
pub open spec fn line_step(
    lcs: Seq<Seq<char>>,
    bcs: Seq<(Seq<char>, Seq<char>)>,
    st: Option<Seq<char>>,
    line: Option<Seq<char>>,
) -> (LineKind, Option<Seq<char>>) {
    match line {
        Option::None => (LineKind::Invalid, st),
        Option::Some(raw) => {
            let t = trimmed(raw);
            if t.len() == 0 {
                (LineKind::Blank, st)
            } else {
                match st {
                    Option::Some(end) => if seq_ends_with(t, end) {
                        (LineKind::Comment, Option::None)
                    } else {
                        (LineKind::Comment, Option::Some(end))
                    },
                    Option::None => if has_line_comment(lcs, t) {
                        (LineKind::Comment, Option::None)
                    } else {
                        match find_block_pair(bcs, t) {
                            Option::Some(pair) => if seq_ends_with(t, pair.1) {
                                (LineKind::Comment, Option::None)
                            } else {
                                (LineKind::Comment, Option::Some(pair.1))
                            },
                            Option::None => (LineKind::Code, Option::None),
                        }
                    },
                }
            }
        },
    }
}

/// The counts of a sequence of lines, starting from open-block state `st`.
pub open spec fn classify_seq(
    lcs: Seq<Seq<char>>,
    bcs: Seq<(Seq<char>, Seq<char>)>,
    st: Option<Seq<char>>,
    lines: Seq<Option<Seq<char>>>,
) -> CountsView
    decreases lines.len(),
{
    if lines.len() == 0 {
        CountsView::zero()
    } else {
        let (k, st2) = line_step(lcs, bcs, st, lines[0]);
        kind_delta(k).add(classify_seq(lcs, bcs, st2, lines.drop_first()))
    }
}

/// The counts of one whole file: its lines classified from the normal state,
/// and the file itself tallied once.
pub open spec fn classify_file(lang: LanguageView, lines: Seq<Option<Seq<char>>>) -> CountsView {
    let body = classify_seq(
        lang.line_comment_tokens(),
        lang.block_comment_pairs(),
        Option::None,
        lines,
    );
    CountsView { files: 1, ..body }
}

/// One line handed to the classifier: its text, or the mark that reading it
/// failed.
pub enum ReadLine {
    Text(String),
    Failed,
}

impl View for ReadLine {
    type V = Option<Seq<char>>;

    open spec fn view(&self) -> Option<Seq<char>> {
        match self {
            ReadLine::Text(s) => Option::Some(s@),
            ReadLine::Failed => Option::None,
        }
    }
}

/// The views of a sequence of read lines.
pub open spec fn lines_view(s: Seq<ReadLine>) -> Seq<Option<Seq<char>>> {
    s.map_values(|l: ReadLine| l@)
}

/// The view of the open-block state held at run time.
pub open spec fn state_view(st: Option<String>) -> Option<Seq<char>> {
    match st {
        Option::Some(s) => Option::Some(s@),
        Option::None => Option::None,
    }
}

/// Classify one line, following `line_step`.
#[verifier::loop_isolation(false)]
pub fn classify_line(lang: &Language, state: Option<String>, line: &ReadLine) -> (r: (
    LineKind,
    Option<String>,
))
    ensures
        (r.0, state_view(r.1)) == line_step(
            lang@.line_comment_tokens(),
            lang@.block_comment_pairs(),
            state_view(state),
            line@,
        ),
{
    let ghost lcs = lang@.line_comment_tokens();
    let ghost bcs = lang@.block_comment_pairs();
    match line {
        ReadLine::Failed => (LineKind::Invalid, state),
        ReadLine::Text(text) => {
            let s = text.as_str();
            let ghost t = trimmed(s@);
            let (lo, hi) = trim_window(s);
            if lo == hi {
                proof {
                    assert(t.len() == 0);
                }
                return (LineKind::Blank, state);
            }
            proof {
                assert(t.len() > 0);
            }
            match state {
                Option::Some(end) => {
                    if window_ends_with(s, lo, hi, end.as_str()) {
                        (LineKind::Comment, Option::None)
                    } else {
                        (LineKind::Comment, Option::Some(end))
                    }
                },
                Option::None => {
                    let mut found_line_comment = false;
                    match &lang.line_comments {
                        Option::Some(toks) => {
                            let tn = toks.len();
                            let mut j: usize = 0;
                            while j < tn && !found_line_comment
                                invariant
                                    j <= tn,
                                    tn == toks@.len(),
                                    if found_line_comment {
                                        j > 0 && seq_starts_with(t, lcs[j - 1])
                                    } else {
                                        forall|k: int|
                                            0 <= k < j ==> !seq_starts_with(t, lcs[k])
                                    },
                                decreases tn - j,
                            {
                                if window_starts_with(s, lo, hi, toks[j].as_str()) {
                                    found_line_comment = true;
                                }
                                j = j + 1;
                            }
                        },
                        Option::None => {},
                    }
                    if found_line_comment {
                        proof {
                            assert(has_line_comment(lcs, t));
                        }
                        return (LineKind::Comment, Option::None);
                    }
                    proof {
                        assert(!has_line_comment(lcs, t));
                    }
                    match &lang.block_comments {
                        Option::Some(pairs) => {
                            let pn = pairs.len();
                            let mut found_block = false;
                            let mut bj: usize = 0;
                            let mut j: usize = 0;
                            while j < pn && !found_block
                                invariant
                                    j <= pn,
                                    pn == pairs@.len(),
                                    if found_block {
                                        &&& bj < j
                                        &&& seq_starts_with(t, bcs[bj as int].0)
                                        &&& forall|k: int|
                                            0 <= k < bj ==> !seq_starts_with(
                                                t,
                                                (#[trigger] bcs[k]).0,
                                            )
                                    } else {
                                        forall|k: int|
                                            0 <= k < j ==> !seq_starts_with(t, (#[trigger] bcs[k]).0)
                                    },
                                decreases pn - j,
                            {
                                if window_starts_with(s, lo, hi, pairs[j].0.as_str()) {
                                    found_block = true;
                                    bj = j;
                                }
                                j = j + 1;
                            }
                            if found_block {
                                proof {
                                    lemma_find_block_pair_skip(bcs, t, bj as int);
                                    assert(bcs.skip(bj as int)[0] == bcs[bj as int]);
                                    assert(find_block_pair(bcs, t) == Option::Some(bcs[bj as int]));
                                }
                                let close = &pairs[bj].1;
                                if window_ends_with(s, lo, hi, close.as_str()) {
                                    (LineKind::Comment, Option::None)
                                } else {
                                    (LineKind::Comment, Option::Some(close.clone()))
                                }
                            } else {
                                proof {
                                    lemma_find_block_pair_skip(bcs, t, pn as int);
                                }
                                proof {
                                    assert(bcs.skip(pn as int) =~= Seq::<(
                                        Seq<char>,
                                        Seq<char>,
                                    )>::empty());
                                    assert(find_block_pair(bcs, t) is None);
                                }
                                (LineKind::Code, Option::None)
                            }
                        },
                        Option::None => {
                            proof {
                                assert(bcs =~= Seq::<(Seq<char>, Seq<char>)>::empty());
                                assert(find_block_pair(bcs, t) is None);
                            }
                            (LineKind::Code, Option::None)
                        },
                    }
                },
            }
        },
    }
}

/// Classify a whole file's lines, starting and ending in the normal state,
/// and count the file itself once.
#[verifier::loop_isolation(false)]
pub fn classify_lines(lang: &Language, lines: &Vec<ReadLine>) -> (c: Counts)
    ensures
        c@ == classify_file(lang@, lines_view(lines@)),
{
    let ghost lcs = lang@.line_comment_tokens();
    let ghost bcs = lang@.block_comment_pairs();
    let ghost lv = lines_view(lines@);
    let mut code: usize = 0;
    let mut comment: usize = 0;
    let mut blank: usize = 0;
    let mut invalid: usize = 0;
    let mut in_block: Option<String> = Option::None;
    let n = lines.len();
    let mut i: usize = 0;
    proof {
        assert(lv.skip(0) =~= lv);
    }
    while i < n
        invariant
            i <= n,
            n == lines@.len(),
            code <= i,
            comment <= i,
            blank <= i,
            invalid <= i,
            classify_seq(lcs, bcs, Option::None, lv) == (CountsView {
                files: 0,
                code: code as int,
                comment: comment as int,
                blank: blank as int,
                invalid: invalid as int,
            }).add(classify_seq(lcs, bcs, state_view(in_block), lv.skip(i as int))),
        decreases n - i,
    {
        proof {
            assert(lv.skip(i as int)[0] == lv[i as int]);
            assert(lv.skip(i as int).drop_first() =~= lv.skip(i as int + 1));
        }
        let r = classify_line(lang, in_block, &lines[i]);
        in_block = r.1;
        match r.0 {
            LineKind::Invalid => {
                invalid = invalid + 1;
            },
            LineKind::Blank => {
                blank = blank + 1;
            },
            LineKind::Comment => {
                comment = comment + 1;
            },
            LineKind::Code => {
                code = code + 1;
            },
        }
        i = i + 1;
    }
    proof {
        assert(lv.skip(n as int) =~= Seq::<Option<Seq<char>>>::empty());
    }
    Counts { files: 1, code, comment, blank, invalid }
}

} // verus!
