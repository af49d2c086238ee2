use countlines::count::{CountError, Counts, EntryResult, OutputCounts};

fn counts(files: usize, code: usize, comment: usize, blank: usize, invalid: usize) -> Counts {
    Counts { files, code, comment, blank, invalid }
}

#[test]
fn merge_adds_field_wise() {
    let mut a = counts(1, 10, 2, 3, 0);
    let b = counts(2, 5, 1, 0, 4);
    a.merge(&b);
    assert_eq!(a, counts(3, 15, 3, 3, 4));
}

#[test]
fn merge_zero_is_identity() {
    let mut a = counts(1, 7, 2, 3, 4);
    a.merge(&Counts::zero());
    assert_eq!(a, counts(1, 7, 2, 3, 4));
    let mut z = Counts::zero();
    z.merge(&a);
    assert_eq!(z, a);
}

#[test]
fn merge_is_commutative_on_values() {
    let a = counts(1, 10, 2, 3, 0);
    let b = counts(2, 5, 1, 0, 4);
    let mut ab = a;
    ab.merge(&b);
    let mut ba = b;
    ba.merge(&a);
    assert_eq!(ab, ba);
}

#[test]
fn merge_is_associative_on_values() {
    let a = counts(1, 10, 2, 3, 0);
    let b = counts(2, 5, 1, 0, 4);
    let c = counts(4, 0, 9, 1, 1);
    let mut ab = a;
    ab.merge(&b);
    let mut ab_c = ab;
    ab_c.merge(&c);
    let mut bc = b;
    bc.merge(&c);
    let mut a_bc = a;
    a_bc.merge(&bc);
    assert_eq!(ab_c, a_bc);
}

#[test]
fn append_counts_creates_and_merges_slots() {
    let mut o = OutputCounts::new();
    o.append_counts(3, &counts(1, 5, 0, 1, 0));
    o.append_counts(1, &counts(1, 2, 2, 0, 0));
    o.append_counts(3, &counts(1, 1, 1, 1, 1));
    assert_eq!(o.counts, vec![(3, counts(2, 6, 1, 2, 1)), (1, counts(1, 2, 2, 0, 0))]);
    assert_eq!(o.unmatched_files, 0);
    assert_eq!(o.error_files, 0);
}

#[test]
fn unmatched_only_bumps_unmatched() {
    let mut o = OutputCounts::new();
    o.absorb_entry(&EntryResult::Unmatched);
    assert_eq!(o.counts, vec![]);
    assert_eq!(o.unmatched_files, 1);
    assert_eq!(o.error_files, 0);
}

#[test]
fn error_only_bumps_error() {
    let mut o = OutputCounts::new();
    o.absorb_entry(&EntryResult::Error(CountError::Io { path: "a.rs".to_string() }));
    o.absorb_entry(&EntryResult::Error(CountError::WalkDir));
    assert_eq!(o.counts, vec![]);
    assert_eq!(o.unmatched_files, 0);
    assert_eq!(o.error_files, 2);
}

#[test]
fn matched_entry_goes_to_its_language() {
    let mut o = OutputCounts::new();
    o.absorb_entry(&EntryResult::Matched { lang_id: 2, counts: counts(1, 4, 1, 0, 0) });
    assert_eq!(o.counts, vec![(2, counts(1, 4, 1, 0, 0))]);
    assert_eq!(o.unmatched_files, 0);
    assert_eq!(o.error_files, 0);
}

#[test]
fn partitioned_processing_equals_sequential() {
    // Fold six outcomes sequentially, then in two independently processed
    // partitions merged afterwards: the totals agree.
    let entries = [
        EntryResult::Matched { lang_id: 0, counts: counts(1, 3, 1, 0, 0) },
        EntryResult::Unmatched,
        EntryResult::Matched { lang_id: 1, counts: counts(1, 7, 0, 2, 0) },
        EntryResult::Error(CountError::WalkDir),
        EntryResult::Matched { lang_id: 0, counts: counts(1, 2, 0, 1, 1) },
        EntryResult::Unmatched,
    ];
    let mut sequential = OutputCounts::new();
    for e in &entries {
        sequential.absorb_entry(e);
    }
    let mut part1 = OutputCounts::new();
    for e in &entries[..3] {
        part1.absorb_entry(e);
    }
    let mut part2 = OutputCounts::new();
    for e in &entries[3..] {
        part2.absorb_entry(e);
    }
    part1.merge(&part2);
    assert_eq!(part1.counts, sequential.counts);
    assert_eq!(part1.unmatched_files, sequential.unmatched_files);
    assert_eq!(part1.error_files, sequential.error_files);
}

#[test]
fn merge_reports_unions_languages() {
    let mut a = OutputCounts::new();
    a.append_counts(0, &counts(1, 1, 0, 0, 0));
    a.absorb_entry(&EntryResult::Unmatched);
    let mut b = OutputCounts::new();
    b.append_counts(1, &counts(1, 2, 0, 0, 0));
    b.append_counts(0, &counts(1, 4, 0, 0, 0));
    b.absorb_entry(&EntryResult::Error(CountError::WalkDir));
    a.merge(&b);
    assert_eq!(a.counts, vec![(0, counts(2, 5, 0, 0, 0)), (1, counts(1, 2, 0, 0, 0))]);
    assert_eq!(a.unmatched_files, 1);
    assert_eq!(a.error_files, 1);
}
