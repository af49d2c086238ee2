//! Per-file and per-run line counts, and their merge operation.
//!
//! `Counts` is the classification result for one file (or one partition of
//! files). Merging is field-wise addition, a commutative monoid with the
//! all-zero value as identity; the scheduler relies on this to fold partial
//! results in any order.

use vstd::prelude::*;

verus! {

/// Mathematical value of a `Counts`: the five tallies as unbounded integers.
pub ghost struct CountsView {
    pub files: int,
    pub code: int,
    pub comment: int,
    pub blank: int,
    pub invalid: int,
}

impl CountsView {
    /// Field-wise sum.
    pub open spec fn add(self, other: CountsView) -> CountsView {
        CountsView {
            files: self.files + other.files,
            code: self.code + other.code,
            comment: self.comment + other.comment,
            blank: self.blank + other.blank,
            invalid: self.invalid + other.invalid,
        }
    }

    /// The identity of `add`.
    pub open spec fn zero() -> CountsView {
        CountsView { files: 0, code: 0, comment: 0, blank: 0, invalid: 0 }
    }
}

/// Line counts for one file or one partition: how many files were classified,
/// and how many of their lines were code, comment, blank, or unreadable.
#[derive(Clone, Copy, Debug, PartialEq, Eq, Structural)]
pub struct Counts {
    pub files: usize,
    pub code: usize,
    pub comment: usize,
    pub blank: usize,
    pub invalid: usize,
}

impl View for Counts {
    type V = CountsView;

    open spec fn view(&self) -> CountsView {
        CountsView {
            files: self.files as int,
            code: self.code as int,
            comment: self.comment as int,
            blank: self.blank as int,
            invalid: self.invalid as int,
        }
    }
}

impl Counts {
    /// The all-zero value: identity of `merge`.
    pub fn zero() -> (r: Counts)
        ensures
            r@ == CountsView::zero(),
    {
        Counts { files: 0, code: 0, comment: 0, blank: 0, invalid: 0 }
    }

    /// Field-wise addition of `other` into `self`.
    pub fn merge(&mut self, other: &Counts)
        requires
            old(self).files + other.files <= usize::MAX,
            old(self).code + other.code <= usize::MAX,
            old(self).comment + other.comment <= usize::MAX,
            old(self).blank + other.blank <= usize::MAX,
            old(self).invalid + other.invalid <= usize::MAX,
        ensures
            final(self)@ == old(self)@.add(other@),
    {
        self.files = self.files + other.files;
        self.code = self.code + other.code;
        self.comment = self.comment + other.comment;
        self.blank = self.blank + other.blank;
        self.invalid = self.invalid + other.invalid;
    }
}

/// Merging counts is associative.
pub proof fn lemma_counts_add_assoc(a: CountsView, b: CountsView, c: CountsView)
    ensures
        a.add(b).add(c) == a.add(b.add(c)),
{
}

/// Merging counts is commutative.
pub proof fn lemma_counts_add_comm(a: CountsView, b: CountsView)
    ensures
        a.add(b) == b.add(a),
{
}

/// The all-zero value is the identity of the merge, on both sides.
pub proof fn lemma_counts_add_zero(a: CountsView)
    ensures
        a.add(CountsView::zero()) == a,
        CountsView::zero().add(a) == a,
{
}

/// Mathematical value of an `OutputCounts`: per-language totals as a map from
/// language id to counts, plus the two run-level tallies.
#[verifier::ext_equal]
pub ghost struct OutputView {
    pub counts: Map<int, CountsView>,
    pub unmatched_files: int,
    pub error_files: int,
}

impl OutputView {
    /// The counts recorded for language `k`, or zero if none are.
    pub open spec fn get_or_zero(self, k: int) -> CountsView {
        if self.counts.dom().contains(k) {
            self.counts[k]
        } else {
            CountsView::zero()
        }
    }

    /// The empty report: identity of `merge`.
    pub open spec fn zero() -> OutputView {
        OutputView { counts: Map::empty(), unmatched_files: 0, error_files: 0 }
    }

    /// Add `c` to the totals of language `k`.
    pub open spec fn append_counts(self, k: int, c: CountsView) -> OutputView {
        OutputView { counts: self.counts.insert(k, self.get_or_zero(k).add(c)), ..self }
    }

    /// Union of the language maps with per-key addition, and field-wise
    /// addition of the run-level tallies.
    pub open spec fn merge(self, other: OutputView) -> OutputView {
        OutputView {
            counts: Map::new(
                |k: int| self.counts.dom().contains(k) || other.counts.dom().contains(k),
                |k: int| self.get_or_zero(k).add(other.get_or_zero(k)),
            ),
            unmatched_files: self.unmatched_files + other.unmatched_files,
            error_files: self.error_files + other.error_files,
        }
    }
}

/// The language map of the association list `s`, later entries winning.
/// With unique keys (see `OutputCounts::wf`) the order does not matter.
pub open spec fn assoc_map(s: Seq<(usize, Counts)>) -> Map<int, CountsView>
    decreases s.len(),
{
    if s.len() == 0 {
        Map::empty()
    } else {
        assoc_map(s.drop_last()).insert(s.last().0 as int, s.last().1@)
    }
}

/// The keys of `assoc_map(s)` are exactly the keys of the entries of `s`.
pub proof fn lemma_assoc_map_dom(s: Seq<(usize, Counts)>, k: int)
    ensures
        assoc_map(s).dom().contains(k) <==> exists|i: int| 0 <= i < s.len() && s[i].0 == k,
    decreases s.len(),
{
    if s.len() > 0 {
        lemma_assoc_map_dom(s.drop_last(), k);
        if s.last().0 == k {
            assert(s[s.len() - 1].0 == k);
        } else if assoc_map(s).dom().contains(k) {
            let i = choose|i: int| 0 <= i < s.len() - 1 && s.drop_last()[i].0 == k;
            assert(s[i].0 == k);
        } else if exists|i: int| 0 <= i < s.len() && s[i].0 == k {
            let i = choose|i: int| 0 <= i < s.len() && s[i].0 == k;
            assert(s.drop_last()[i].0 == k);
        }
    }
}

/// With unique keys, looking an entry's key up in the map gives its counts.
pub proof fn lemma_assoc_map_lookup(s: Seq<(usize, Counts)>, i: int)
    requires
        forall|p: int, q: int| 0 <= p < q < s.len() ==> (#[trigger] s[p]).0 != (#[trigger] s[q]).0,
        0 <= i < s.len(),
    ensures
        assoc_map(s).dom().contains(s[i].0 as int),
        assoc_map(s)[s[i].0 as int] == s[i].1@,
    decreases s.len(),
{
    if i == s.len() - 1 {
    } else {
        lemma_assoc_map_lookup(s.drop_last(), i);
        assert(s.drop_last()[i] == s[i]);
        assert(s[i].0 != s[s.len() - 1].0);
    }
}

/// With unique keys, replacing the counts of the entry at `i` replaces the
/// counts under its key in the map.
pub proof fn lemma_assoc_map_update(s: Seq<(usize, Counts)>, i: int, c: Counts)
    requires
        forall|p: int, q: int| 0 <= p < q < s.len() ==> (#[trigger] s[p]).0 != (#[trigger] s[q]).0,
        0 <= i < s.len(),
    ensures
        assoc_map(s.update(i, (s[i].0, c))) == assoc_map(s).insert(s[i].0 as int, c@),
    decreases s.len(),
{
    let t = s.update(i, (s[i].0, c));
    if i == s.len() - 1 {
        assert(t.drop_last() =~= s.drop_last());
        assert(assoc_map(t) =~= assoc_map(s).insert(s[i].0 as int, c@));
    } else {
        lemma_assoc_map_update(s.drop_last(), i, c);
        assert(t.drop_last() =~= s.drop_last().update(i, (s[i].0, c)));
        assert(t.last() == s.last());
        assert(s.drop_last()[i] == s[i]);
        assert(s[i].0 != s[s.len() - 1].0);
        assert(assoc_map(t) =~= assoc_map(s).insert(s[i].0 as int, c@));
    }
}

/// Per-language counts of one run, with the number of files that matched no
/// language and the number of entries that failed with an error.
pub struct OutputCounts {
    pub counts: Vec<(usize, Counts)>,
    pub unmatched_files: usize,
    pub error_files: usize,
}

impl View for OutputCounts {
    type V = OutputView;

    open spec fn view(&self) -> OutputView {
        OutputView {
            counts: assoc_map(self.counts@),
            unmatched_files: self.unmatched_files as int,
            error_files: self.error_files as int,
        }
    }
}

impl Default for OutputCounts {
    /// The empty report.
    fn default() -> (r: OutputCounts)
        ensures
            r@ == OutputView::zero(),
            r.wf(),
    {
        OutputCounts::new()
    }
}

impl OutputCounts {
    /// Each language id occurs at most once in the association list.
    pub open spec fn wf(&self) -> bool {
        forall|p: int, q: int|
            0 <= p < q < self.counts@.len() ==> (#[trigger] self.counts@[p]).0 != (
            #[trigger] self.counts@[q]).0
    }

    /// The empty report.
    pub fn new() -> (r: OutputCounts)
        ensures
            r@ == OutputView::zero(),
            r.wf(),
    {
        let r = OutputCounts { counts: Vec::new(), unmatched_files: 0, error_files: 0 };
        proof {
            assert(r@.counts =~= Map::<int, CountsView>::empty());
            assert(r@ =~= OutputView::zero());
        }
        r
    }

    /// Add `counts` to the totals of language `lang_id`, creating its slot if
    /// the report has none yet.
    #[verifier::loop_isolation(false)]
    pub fn append_counts(&mut self, lang_id: usize, counts: &Counts)
        requires
            old(self).wf(),
            old(self)@.get_or_zero(lang_id as int).files + counts.files <= usize::MAX,
            old(self)@.get_or_zero(lang_id as int).code + counts.code <= usize::MAX,
            old(self)@.get_or_zero(lang_id as int).comment + counts.comment <= usize::MAX,
            old(self)@.get_or_zero(lang_id as int).blank + counts.blank <= usize::MAX,
            old(self)@.get_or_zero(lang_id as int).invalid + counts.invalid <= usize::MAX,
        ensures
            final(self).wf(),
            final(self)@ == old(self)@.append_counts(lang_id as int, counts@),
    {
        let n = self.counts.len();
        let mut i: usize = 0;
        while i < n
            invariant
                n == self.counts.len(),
                i <= n,
                *self == *old(self),
                forall|j: int| 0 <= j < i ==> (#[trigger] self.counts@[j]).0 != lang_id,
            decreases n - i,
        {
            if self.counts[i].0 == lang_id {
                proof {
                    lemma_assoc_map_lookup(self.counts@, i as int);
                }
                let mut c = self.counts[i].1;
                c.merge(counts);
                let ghost s = self.counts@;
                self.counts.set(i, (lang_id, c));
                proof {
                    lemma_assoc_map_update(s, i as int, c);
                    assert(self@ =~= old(self)@.append_counts(lang_id as int, counts@));
                }
                return ;
            }
            i = i + 1;
        }
        proof {
            lemma_assoc_map_dom(self.counts@, lang_id as int);
            assert(!old(self)@.counts.dom().contains(lang_id as int));
        }
        let ghost s = self.counts@;
        let mut c = Counts::zero();
        c.merge(counts);
        self.counts.push((lang_id, c));
        proof {
            assert(self.counts@.drop_last() =~= s);
            assert(self@ =~= old(self)@.append_counts(lang_id as int, counts@));
        }
    }

    /// Merge another report into this one: per-language counts are added
    /// key-wise, and the unmatched and error tallies are added.
    #[verifier::loop_isolation(false)]
    pub fn merge(&mut self, other: &OutputCounts)
        requires
            old(self).wf(),
            other.wf(),
            forall|k: int|
                #[trigger] other@.counts.dom().contains(k) ==> {
                    &&& old(self)@.get_or_zero(k).files + other@.counts[k].files <= usize::MAX
                    &&& old(self)@.get_or_zero(k).code + other@.counts[k].code <= usize::MAX
                    &&& old(self)@.get_or_zero(k).comment + other@.counts[k].comment <= usize::MAX
                    &&& old(self)@.get_or_zero(k).blank + other@.counts[k].blank <= usize::MAX
                    &&& old(self)@.get_or_zero(k).invalid + other@.counts[k].invalid <= usize::MAX
                },
            old(self).unmatched_files + other.unmatched_files <= usize::MAX,
            old(self).error_files + other.error_files <= usize::MAX,
        ensures
            final(self).wf(),
            final(self)@ == old(self)@.merge(other@),
    {
        let n = other.counts.len();
        let mut i: usize = 0;
        while i < n
            invariant
                i <= n,
                self.wf(),
                self.unmatched_files == old(self).unmatched_files,
                self.error_files == old(self).error_files,
                self@ =~= old(self)@.merge(
                    OutputView {
                        counts: assoc_map(other.counts@.take(i as int)),
                        unmatched_files: 0,
                        error_files: 0,
                    },
                ),
            decreases n - i,
        {
            let (lang_id, c) = other.counts[i];
            proof {
                lemma_assoc_map_lookup(other.counts@, i as int);
                lemma_assoc_map_dom(other.counts@.take(i as int), lang_id as int);
                assert(forall|j: int|
                    0 <= j < i ==> (#[trigger] other.counts@.take(i as int)[j]).0 == other.counts@[j].0);
                assert(!assoc_map(other.counts@.take(i as int)).dom().contains(lang_id as int));
                assert(self@.get_or_zero(lang_id as int) == old(self)@.get_or_zero(lang_id as int));
                assert(other@.counts.dom().contains(lang_id as int));
                assert(other@.counts[lang_id as int] == c@);
            }
            self.append_counts(lang_id, &c);
            proof {
                let prev = other.counts@.take(i as int);
                let next = other.counts@.take(i as int + 1);
                assert(next.drop_last() =~= prev);
                assert(next.last() == other.counts@[i as int]);
                assert(assoc_map(next) =~= assoc_map(prev).insert(lang_id as int, c@));
                assert(self@ =~= old(self)@.merge(
                    OutputView { counts: assoc_map(next), unmatched_files: 0, error_files: 0 },
                ));
            }
            i = i + 1;
        }
        proof {
            assert(other.counts@.take(n as int) =~= other.counts@);
        }
        self.unmatched_files = self.unmatched_files + other.unmatched_files;
        self.error_files = self.error_files + other.error_files;
        proof {
            assert(self@ =~= old(self)@.merge(other@));
        }
    }
}

/// A failure while counting: the directory walk reported an error, or a
/// matched file could not be read, attributed to its path.
#[derive(Debug)]
pub enum CountError {
    WalkDir,
    Io { path: String },
}

/// What one directory entry contributed to the run: counts for the language
/// it matched, no match, or a failure.
pub enum EntryResult {
    Matched { lang_id: usize, counts: Counts },
    Unmatched,
    Error(CountError),
}

/// Mathematical value of an `EntryResult`; the error's detail does not affect
/// the totals, so it is not carried.
pub ghost enum EntryView {
    Matched { lang_id: int, counts: CountsView },
    Unmatched,
    Error,
}

impl View for EntryResult {
    type V = EntryView;

    open spec fn view(&self) -> EntryView {
        match self {
            EntryResult::Matched { lang_id, counts } => EntryView::Matched {
                lang_id: *lang_id as int,
                counts: counts@,
            },
            EntryResult::Unmatched => EntryView::Unmatched,
            EntryResult::Error(_) => EntryView::Error,
        }
    }
}

impl OutputView {
    /// Route one entry's outcome into the report: matched counts go to their
    /// language's slot, an unmatched file bumps `unmatched_files` only, and an
    /// error bumps `error_files` only.
    pub open spec fn absorb(self, e: EntryView) -> OutputView {
        match e {
            EntryView::Matched { lang_id, counts } => self.append_counts(lang_id, counts),
            EntryView::Unmatched => OutputView {
                unmatched_files: self.unmatched_files + 1,
                ..self
            },
            EntryView::Error => OutputView { error_files: self.error_files + 1, ..self },
        }
    }

    /// The machine-size bounds under which `OutputCounts::absorb_entry` can
    /// perform `absorb` on `usize` tallies.
    pub open spec fn absorb_fits(self, e: EntryView) -> bool {
        match e {
            EntryView::Matched { lang_id, counts } => {
                &&& self.get_or_zero(lang_id).files + counts.files <= usize::MAX
                &&& self.get_or_zero(lang_id).code + counts.code <= usize::MAX
                &&& self.get_or_zero(lang_id).comment + counts.comment <= usize::MAX
                &&& self.get_or_zero(lang_id).blank + counts.blank <= usize::MAX
                &&& self.get_or_zero(lang_id).invalid + counts.invalid <= usize::MAX
            },
            EntryView::Unmatched => self.unmatched_files + 1 <= usize::MAX,
            EntryView::Error => self.error_files + 1 <= usize::MAX,
        }
    }

    /// Fold a sequence of entry outcomes into the report, front first.
    pub open spec fn absorb_all(self, s: Seq<EntryView>) -> OutputView
        decreases s.len(),
    {
        if s.len() == 0 {
            self
        } else {
            self.absorb(s[0]).absorb_all(s.drop_first())
        }
    }
}

impl OutputCounts {
    /// Route one entry's outcome into this report (see `OutputView::absorb`).
    pub fn absorb_entry(&mut self, entry: &EntryResult)
        requires
            old(self).wf(),
            old(self)@.absorb_fits(entry@),
        ensures
            final(self).wf(),
            final(self)@ == old(self)@.absorb(entry@),
    {
        match entry {
            EntryResult::Matched { lang_id, counts } => {
                self.append_counts(*lang_id, counts);
            },
            EntryResult::Unmatched => {
                self.unmatched_files = self.unmatched_files + 1;
            },
            EntryResult::Error(_) => {
                self.error_files = self.error_files + 1;
            },
        }
    }
}

/// Merging reports is associative.
pub proof fn lemma_output_merge_assoc(a: OutputView, b: OutputView, c: OutputView)
    ensures
        a.merge(b).merge(c) == a.merge(b.merge(c)),
{
    assert(a.merge(b).merge(c) =~= a.merge(b.merge(c)));
}

/// Merging reports is commutative.
pub proof fn lemma_output_merge_comm(a: OutputView, b: OutputView)
    ensures
        a.merge(b) == b.merge(a),
{
    assert(a.merge(b) =~= b.merge(a));
}

/// The empty report is the identity of the merge, on both sides.
pub proof fn lemma_output_merge_zero(a: OutputView)
    ensures
        a.merge(OutputView::zero()) == a,
        OutputView::zero().merge(a) == a,
{
    assert(a.merge(OutputView::zero()) =~= a);
    assert(OutputView::zero().merge(a) =~= a);
}

/// Absorbing one outcome equals merging with the outcome absorbed into an
/// empty report.
pub proof fn lemma_absorb_is_merge(o: OutputView, e: EntryView)
    ensures
        o.absorb(e) == o.merge(OutputView::zero().absorb(e)),
{
    assert(o.absorb(e) =~= o.merge(OutputView::zero().absorb(e)));
}

/// Folding outcomes into a report equals merging the report with the fold of
/// the same outcomes into an empty report.
pub proof fn lemma_absorb_all_is_merge(o: OutputView, s: Seq<EntryView>)
    ensures
        o.absorb_all(s) == o.merge(OutputView::zero().absorb_all(s)),
    decreases s.len(),
{
    if s.len() == 0 {
        lemma_output_merge_zero(o);
    } else {
        let e0 = OutputView::zero().absorb(s[0]);
        let rest = OutputView::zero().absorb_all(s.drop_first());
        lemma_absorb_all_is_merge(o.absorb(s[0]), s.drop_first());
        lemma_absorb_is_merge(o, s[0]);
        lemma_output_merge_assoc(o, e0, rest);
        lemma_absorb_all_is_merge(e0, s.drop_first());
    }
}

/// Folding a concatenation is folding the first part, then the second.
pub proof fn lemma_absorb_all_concat(o: OutputView, s1: Seq<EntryView>, s2: Seq<EntryView>)
    ensures
        o.absorb_all(s1 + s2) == o.absorb_all(s1).absorb_all(s2),
    decreases s1.len(),
{
    if s1.len() == 0 {
        assert(s1 + s2 =~= s2);
    } else {
        assert((s1 + s2).drop_first() =~= s1.drop_first() + s2);
        lemma_absorb_all_concat(o.absorb(s1[0]), s1.drop_first(), s2);
    }
}

/// Splitting a stream of entry outcomes into two partitions, folding each into
/// its own empty report, and merging the partial reports gives the same result
/// as folding the whole stream sequentially. With `lemma_output_merge_assoc`
/// and `lemma_output_merge_comm` this extends to any partitioning and any
/// merge order.
pub proof fn lemma_partitioned_fold_agrees(s1: Seq<EntryView>, s2: Seq<EntryView>)
    ensures
        OutputView::zero().absorb_all(s1 + s2) == OutputView::zero().absorb_all(s1).merge(
            OutputView::zero().absorb_all(s2),
        ),
{
    lemma_absorb_all_concat(OutputView::zero(), s1, s2);
    lemma_absorb_all_is_merge(OutputView::zero().absorb_all(s1), s2);
}

} // verus!
