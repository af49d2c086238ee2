//! The directory-walk configuration and the per-entry filter rule.
//!
//! The walk itself is I/O and is driven by the unverified shell around the
//! library; the decision whether an entry is visited lives here. An entry is
//! pruned when hidden entries are refused and its name begins with a dot, or
//! when an exclude glob matches its absolute path.

use vstd::prelude::*;

use crate::languages::Languages;

verus! {

/// How the run schedules its work: one entry at a time, a bounded number of
/// concurrently in-flight reads on one scheduler, or a pool of worker
/// threads. All three produce the same totals.
#[derive(Clone, Copy, Debug, PartialEq, Eq, Structural)]
pub enum Mode {
    Sync,
    Async,
    Parallel,
}

/// Declares `globset::GlobSet` to the verifier as an opaque type, so that a
/// configuration can carry the compiled exclude patterns.
#[verifier::external_type_specification]
#[verifier::external_body]
pub struct ExGlobSet(globset::GlobSet);

/// One run's settings, fixed for its whole duration. Paths are carried as
/// strings; `exclude` holds absolute glob patterns.
pub struct Config {
    pub abs_root: String,
    pub rel_root: String,
    pub languages: Languages,
    pub exclude: globset::GlobSet,
    pub ignore_hidden: bool,
    pub quiet: bool,
    pub max_depth: Option<usize>,
    pub follow_links: bool,
    pub machine_readable: bool,
    pub mode: Mode,
}

/// Whether a file name marks a hidden entry: its first byte is a dot.
pub open spec fn is_hidden(name: Seq<u8>) -> bool {
    name.len() > 0 && name[0] == 46
}

/// Runtime check for `is_hidden`.
pub fn is_hidden_name(name: &[u8]) -> (r: bool)
    ensures
        r == is_hidden(name@),
{
    name.len() > 0 && name[0] == 46
}

/// Relies on `globset::GlobSet::is_match`: whether any glob in the set
/// matches the path. Nothing is assumed of the verdict.
#[verifier::external_body]
fn glob_is_match(set: &globset::GlobSet, path: &str) -> bool {
    set.is_match(path)
}

/// The filter rule on plain values: visit the entry unless hidden entries are
/// refused and the name is hidden, or an exclude pattern matched the path.
pub fn keep_entry(ignore_hidden: bool, file_name: &[u8], excluded: bool) -> (r: bool)
    ensures
        r == (!(ignore_hidden && is_hidden(file_name@)) && !excluded),
{
    if ignore_hidden && is_hidden_name(file_name) {
        false
    } else {
        !excluded
    }
}

/// Whether the walker visits the entry with this name and absolute path. The
/// exclude verdict comes from the outside glob matcher, so only the hidden
/// rule is promised: with `ignore_hidden` set, a hidden entry is never
/// visited, whatever the globs say.
pub fn should_visit(config: &Config, file_name: &[u8], abs_path: &str) -> (r: bool)
    ensures
        r ==> !(config.ignore_hidden && is_hidden(file_name@)),
{
    let excluded = glob_is_match(&config.exclude, abs_path);
    keep_entry(config.ignore_hidden, file_name, excluded)
}

} // verus!
