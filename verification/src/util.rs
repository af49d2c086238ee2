//! Small helpers: decimal formatting with thousands separators, and the path
//! adjustments the command line makes before a run.
//!
//! Paths are carried as strings with `/` as the separator; a path is absolute
//! when it begins with `/`.

use vstd::prelude::*;

use crate::classify::window_starts_with;

verus! {

/// Relies on `String::push`: it appends the one character to the string.
pub assume_specification[ String::push ](s: &mut String, c: char)
    ensures
        final(s)@ == old(s)@.push(c),
;

/// The decimal digit `d` as a character.
pub open spec fn digit_char(d: int) -> char
    recommends
        0 <= d < 10,
{
    ((0x30 + d) as u8) as char
}

/// The decimal digits of `n`, most significant first.
pub open spec fn decimal_digits(n: nat) -> Seq<char>
    decreases n,
{
    if n < 10 {
        seq![digit_char(n as int)]
    } else {
        decimal_digits(n / 10).push(digit_char((n % 10) as int))
    }
}

/// The digits with a comma before every group of three, counted from the
/// right.
pub open spec fn group_digits(s: Seq<char>) -> Seq<char>
    decreases s.len(),
{
    if s.len() <= 3 {
        s
    } else {
        let head = ((s.len() - 1) % 3) + 1;
        s.take(head as int) + seq![','] + group_digits(s.skip(head as int))
    }
}

/// `n` written in decimal with thousands separators.
pub open spec fn format_number_spec(n: nat) -> Seq<char> {
    group_digits(decimal_digits(n))
}

/// Append the decimal digits of `n` to `out`.
fn push_decimal(n: usize, out: &mut String)
    ensures
        final(out)@ == old(out)@ + decimal_digits(n as nat),
    decreases n,
{
    if n >= 10 {
        push_decimal(n / 10, out);
    }
    let d: u8 = 0x30 + (n % 10) as u8;
    out.push(d as char);
    proof {
        assert(out@ =~= old(out)@ + decimal_digits(n as nat));
    }
}

/// Regroup a digit string with commas, as `group_digits` says.
fn group_string(s: &str) -> (r: String)
    ensures
        r@ == group_digits(s@),
    decreases s@.len(),
{
    let n = s.unicode_len();
    if n <= 3 {
        return s.to_owned();
    }
    let head = ((n - 1) % 3) + 1;
    let first = s.substring_char(0, head);
    let rest = s.substring_char(head, n);
    let mut r = first.to_owned();
    r.push(',');
    let tail = group_string(rest);
    let out = r.concat(tail.as_str());
    proof {
        assert(out@ =~= s@.take(head as int) + seq![','] + group_digits(s@.skip(head as int)));
    }
    out
}

/// `num` in decimal with a comma before every group of three digits.
pub fn format_number(num: usize) -> (r: String)
    ensures
        r@ == format_number_spec(num as nat),
{
    let mut ds = String::new();
    push_decimal(num, &mut ds);
    proof {
        assert(ds@ =~= decimal_digits(num as nat));
    }
    group_string(ds.as_str())
}

/// A path is absolute when it begins with the separator.
pub open spec fn path_is_absolute(p: Seq<char>) -> bool {
    p.len() > 0 && p[0] == '/'
}

/// The path's first component: its characters up to the first separator.
pub open spec fn first_component(p: Seq<char>) -> Seq<char>
    decreases p.len(),
{
    if p.len() == 0 || p[0] == '/' {
        Seq::empty()
    } else {
        seq![p[0]] + first_component(p.drop_first())
    }
}

/// The characters before the first separator are the first component.
proof fn lemma_first_component(p: Seq<char>, k: int)
    requires
        0 <= k <= p.len(),
        forall|i: int| 0 <= i < k ==> p[i] != '/',
        k == p.len() || p[k] == '/',
    ensures
        first_component(p) == p.take(k),
    decreases k,
{
    if k == 0 {
        assert(p.take(0) =~= Seq::<char>::empty());
    } else {
        lemma_first_component(p.drop_first(), k - 1);
        assert(p.drop_first().take(k - 1) =~= p.take(k).drop_first());
        assert(first_component(p) =~= p.take(k));
    }
}

/// A path already names its place relative to the working directory when it
/// is absolute or its first component is `.` or `..`.
pub open spec fn keeps_rel_form(p: Seq<char>) -> bool {
    ||| path_is_absolute(p)
    ||| first_component(p) == seq!['.']
    ||| first_component(p) == seq!['.', '.']
}

/// What `add_rel_dot` yields: the path itself where its form already shows
/// its base, else the path under `./`.
pub open spec fn add_rel_dot_spec(p: Seq<char>) -> Seq<char> {
    if keeps_rel_form(p) {
        p
    } else {
        "./"@ + p
    }
}

/// Prefix a plain relative path with `./`, so that it reads as relative to
/// the working directory; absolute paths and paths already led by `.` or `..`
/// pass through.
pub fn add_rel_dot(path: String) -> (r: String)
    ensures
        r@ == add_rel_dot_spec(path@),
{
    let s = path.as_str();
    let n = s.unicode_len();
    if n > 0 && s.get_char(0) == '/' {
        return path;
    }
    let mut k: usize = 0;
    while k < n
        invariant
            k <= n,
            n == s@.len(),
            forall|i: int| 0 <= i < k ==> s@[i] != '/',
        ensures
            k <= n,
            n == s@.len(),
            forall|i: int| 0 <= i < k ==> s@[i] != '/',
            k == n || s@[k as int] == '/',
        decreases n - k,
    {
        if s.get_char(k) == '/' {
            break ;
        }
        k = k + 1;
    }
    proof {
        lemma_first_component(s@, k as int);
    }
    let is_dot = k == 1 && s.get_char(0) == '.';
    let is_dot_dot = k == 2 && s.get_char(0) == '.' && s.get_char(1) == '.';
    proof {
        if is_dot {
            assert(s@.take(k as int) =~= seq!['.']);
        }
        if is_dot_dot {
            assert(s@.take(k as int) =~= seq!['.', '.']);
        }
        if !is_dot && first_component(s@) == seq!['.'] {
            assert(s@.take(k as int).len() == 1);
            assert(s@.take(k as int)[0] == '.');
        }
        if !is_dot_dot && first_component(s@) == seq!['.', '.'] {
            assert(s@.take(k as int).len() == 2);
            assert(s@.take(k as int)[0] == '.' && s@.take(k as int)[1] == '.');
        }
    }
    if is_dot || is_dot_dot {
        return path;
    }
    "./".to_owned().concat(s)
}

/// What `relativize_path` yields: the path written relative to the working
/// directory `cwd` when `cwd` is a proper component-wise prefix or the whole
/// path, else the path unchanged.
pub open spec fn relativize_spec(path: Seq<char>, cwd: Seq<char>) -> Seq<char> {
    if path == cwd {
        "./"@
    } else if cwd.len() < path.len() && path.take(cwd.len() as int) == cwd && path[cwd.len() as int]
        == '/' {
        "./"@ + path.skip(cwd.len() as int + 1)
    } else {
        path
    }
}

/// Rewrite an absolute path relative to the working directory `cwd` (itself
/// absolute, without a trailing separator) when it lies under it; a path
/// elsewhere passes through unchanged.
pub fn relativize_path(path: String, cwd: &str) -> (r: String)
    requires
        path_is_absolute(path@),
    ensures
        r@ == relativize_spec(path@, cwd@),
{
    let s = path.as_str();
    let n = s.unicode_len();
    let m = cwd.unicode_len();
    if n == m && window_starts_with(s, 0, n, cwd) {
        proof {
            assert(s@.subrange(0, n as int) =~= s@);
            assert(s@.take(m as int) =~= s@);
            assert(s@ == cwd@);
        }
        return "./".to_owned();
    }
    if m < n && window_starts_with(s, 0, n, cwd) {
        proof {
            assert(s@.subrange(0, n as int) =~= s@);
            assert(s@.subrange(0, n as int).take(m as int) =~= s@.take(m as int));
        }
        if s.get_char(m) == '/' {
            let rest = s.substring_char(m + 1, n);
            let out = "./".to_owned().concat(rest);
            proof {
                assert(rest@ =~= s@.skip(m as int + 1));
                assert(s@ != cwd@);
            }
            return out;
        }
    }
    proof {
        if path@ == cwd@ {
            assert(path@.len() == cwd@.len());
            assert(path@.take(m as int) =~= cwd@);
        }
        if cwd@.len() < path@.len() && path@.take(m as int) == cwd@ && path@[m as int] == '/' {
            assert(s@.subrange(0, n as int) =~= s@);
            assert(s@.subrange(0, n as int).take(m as int) =~= s@.take(m as int));
        }
    }
    path
}

} // verus!
