//! Ordering and totals for the report table.
//!
//! The rendered table lists languages by descending code count, ties broken
//! by ascending language id, and ends with a totals row that sums every
//! column. The rendering itself is outside the library; the order and the
//! sums are fixed here.

use vstd::prelude::*;
use vstd::seq_lib::group_to_multiset_ensures;

use crate::count::{Counts, CountsView, OutputCounts};

verus! {

/// The display order: more code first, then smaller language id.
pub open spec fn display_le(a: (usize, Counts), b: (usize, Counts)) -> bool {
    a.1.code > b.1.code || (a.1.code == b.1.code && a.0 <= b.0)
}

/// Whether `s` is sorted for display.
pub open spec fn display_sorted(s: Seq<(usize, Counts)>) -> bool {
    forall|i: int, j: int| 0 <= i < j < s.len() ==> display_le(#[trigger] s[i], #[trigger] s[j])
}

/// The per-language entries of the report, ordered for display: descending
/// code count, ties broken by ascending language id. The result holds exactly
/// the entries of `output.counts`.
#[verifier::loop_isolation(false)]
pub fn sort_counts(output: &OutputCounts) -> (r: Vec<(usize, Counts)>)
    ensures
        r@.to_multiset() == output.counts@.to_multiset(),
        r@.len() == output.counts@.len(),
        display_sorted(r@),
{
    broadcast use group_to_multiset_ensures;

    let n = output.counts.len();
    let mut r: Vec<(usize, Counts)> = Vec::new();
    let mut idx: usize = 0;
    proof {
        assert(output.counts@.take(0) =~= Seq::<(usize, Counts)>::empty());
        assert(Seq::<(usize, Counts)>::empty().to_multiset() =~= r@.to_multiset());
    }
    while idx < n
        invariant
            idx <= n,
            n == output.counts@.len(),
            r@.len() == idx,
            r@.to_multiset() == output.counts@.take(idx as int).to_multiset(),
            display_sorted(r@),
        decreases n - idx,
    {
        let item = output.counts[idx];
        let m = r.len();
        let mut pos: usize = 0;
        while pos < m && (r[pos].1.code > item.1.code || (r[pos].1.code == item.1.code && r[pos].0
            <= item.0))
            invariant
                pos <= m,
                m == r@.len(),
                forall|k: int| 0 <= k < pos ==> display_le(#[trigger] r@[k], item),
            decreases m - pos,
        {
            pos = pos + 1;
        }
        proof {
            assert(pos < m ==> !display_le(r@[pos as int], item));
            assert(pos < m ==> display_le(item, r@[pos as int]));
        }
        let ghost before = r@;
        r.insert(pos, item);
        proof {
            assert(r@ == before.insert(pos as int, item));
            vstd::seq_lib::to_multiset_insert(before, pos as int, item);
            assert(output.counts@.take(idx as int + 1) =~= output.counts@.take(idx as int).push(
                item,
            ));
            vstd::seq_lib::to_multiset_build(output.counts@.take(idx as int), item);
            assert(r@.to_multiset() == output.counts@.take(idx as int + 1).to_multiset());
            assert forall|i: int, j: int| 0 <= i < j < r@.len() implies display_le(
                #[trigger] r@[i],
                #[trigger] r@[j],
            ) by {
                if j < pos {
                    assert(r@[i] == before[i] && r@[j] == before[j]);
                } else if i < pos && j == pos {
                    assert(r@[i] == before[i] && r@[j] == item);
                } else if i < pos && j > pos {
                    assert(r@[i] == before[i] && r@[j] == before[j - 1]);
                } else if i == pos {
                    assert(r@[i] == item && r@[j] == before[j - 1]);
                    assert(display_le(before[pos as int], before[j - 1]) || pos as int == j - 1);
                } else {
                    assert(r@[i] == before[i - 1] && r@[j] == before[j - 1]);
                }
            }
        }
        idx = idx + 1;
    }
    proof {
        assert(output.counts@.take(n as int) =~= output.counts@);
    }
    r
}

/// The field-wise sum of the entries' counts.
pub open spec fn sum_counts(s: Seq<(usize, Counts)>) -> CountsView
    decreases s.len(),
{
    if s.len() == 0 {
        CountsView::zero()
    } else {
        sum_counts(s.drop_last()).add(s.last().1@)
    }
}

/// The sum of a prefix never exceeds the sum of the whole, field by field.
proof fn lemma_sum_counts_prefix(s: Seq<(usize, Counts)>, i: int)
    requires
        0 <= i <= s.len(),
    ensures
        sum_counts(s.take(i)).files <= sum_counts(s).files,
        sum_counts(s.take(i)).code <= sum_counts(s).code,
        sum_counts(s.take(i)).comment <= sum_counts(s).comment,
        sum_counts(s.take(i)).blank <= sum_counts(s).blank,
        sum_counts(s.take(i)).invalid <= sum_counts(s).invalid,
    decreases s.len() - i,
{
    if i == s.len() {
        assert(s.take(i) =~= s);
    } else {
        lemma_sum_counts_prefix(s, i + 1);
        assert(s.take(i + 1).drop_last() =~= s.take(i));
        assert(s.take(i + 1).last() == s[i]);
    }
}

/// The totals row: the field-wise sum of the listed entries.
#[verifier::loop_isolation(false)]
pub fn total_counts(entries: &Vec<(usize, Counts)>) -> (t: Counts)
    requires
        sum_counts(entries@).files <= usize::MAX,
        sum_counts(entries@).code <= usize::MAX,
        sum_counts(entries@).comment <= usize::MAX,
        sum_counts(entries@).blank <= usize::MAX,
        sum_counts(entries@).invalid <= usize::MAX,
    ensures
        t@ == sum_counts(entries@),
{
    let n = entries.len();
    let mut t = Counts::zero();
    let mut i: usize = 0;
    proof {
        assert(entries@.take(0) =~= Seq::<(usize, Counts)>::empty());
    }
    while i < n
        invariant
            i <= n,
            n == entries@.len(),
            t@ == sum_counts(entries@.take(i as int)),
        decreases n - i,
    {
        proof {
            lemma_sum_counts_prefix(entries@, i as int + 1);
            assert(entries@.take(i as int + 1).drop_last() =~= entries@.take(i as int));
            assert(entries@.take(i as int + 1).last() == entries@[i as int]);
        }
        t.merge(&entries[i].1);
        i = i + 1;
    }
    proof {
        assert(entries@.take(n as int) =~= entries@);
    }
    t
}

} // verus!
