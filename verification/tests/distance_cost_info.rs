use sequences::distance_cost_info::{CostTracker, DistanceCostInfo};
use sequences::sequence_element::SequenceElement::{Gap, Size};

fn entry(entries: &[(String, usize)], name: &str) -> Option<usize> {
    entries.iter().find(|(n, _)| n == name).map(|(_, c)| *c)
}

#[test]
fn costs_are_split_by_operation() {
    let t = CostTracker::new();
    let t = t.insert(12, Size(1));
    let t = t.delete(15, Gap(3));
    let t = t.substitute(21, Gap(5), Gap(3));
    let t = t.substitute(21, Gap(1), Gap(2));
    let t = t.swap(24, Size(1), Gap(1));
    assert_eq!(12, t.insert_size);
    assert_eq!(3, t.delete_gap);
    assert_eq!(6, t.substitute_gap_gap);
    assert_eq!(3, t.swap_size_gap);
    assert_eq!(24, t.current_cost());
    // Only the substitution that cost something is counted, smaller gap first.
    assert_eq!(Some(&1), t.from_gap_to_gap.get(&(3, 5)));
    assert_eq!(None, t.from_gap_to_gap.get(&(1, 2)));
    assert!(!t.is_abort);
    let t = t.abort();
    assert!(t.is_abort);

    let entries = t.as_btreemap();
    assert_eq!(14, entries.len());
    assert_eq!(Some(1), entry(&entries, "gap(3)_to_gap(5)"));
    assert_eq!(Some(12), entry(&entries, "insert_size"));
    assert_eq!(Some(6), entry(&entries, "substitute_gap_gap"));
    assert_eq!(Some(1), entry(&entries, "is_abort"));
    assert_eq!(Some(0), entry(&entries, "swap_gap_gap"));
    let mut names: Vec<&String> = entries.iter().map(|(n, _)| n).collect();
    names.sort();
    names.dedup();
    assert_eq!(entries.len(), names.len());
}

#[test]
fn the_unit_tracker_tracks_nothing() {
    let u = ();
    u.insert(3, Size(1));
    u.abort();
}
