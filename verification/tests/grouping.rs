//! Aggregation: grouping, partitioning and ordering of the table.

use std::collections::HashSet;

use procenv::aggregate::aggregate;
use procenv::aggregate::group_outcomes;
use procenv::aggregate::sort_groups;
use procenv::outcome::EnvVal;
use procenv::outcome::Group;

fn value(s: &str) -> EnvVal {
    EnvVal::Value(s.to_string())
}

fn sorted_pids(g: &Group) -> Vec<u32> {
    let mut p = g.pids.clone();
    p.sort_unstable();
    p
}

#[test]
fn outcome_equality_is_structural() {
    assert_eq!(value("x"), value("x"));
    assert_ne!(value("x"), value("y"));
    assert_ne!(value("x"), EnvVal::Nothing);
    assert_ne!(EnvVal::Nothing, EnvVal::Fail);
    assert_eq!(EnvVal::Fail, EnvVal::Fail);
}

#[test]
fn outcomes_hash_consistently_with_equality() {
    let mut seen: HashSet<EnvVal> = HashSet::new();
    seen.insert(value("x"));
    seen.insert(value("x"));
    seen.insert(EnvVal::Nothing);
    seen.insert(EnvVal::Nothing);
    assert_eq!(seen.len(), 2);
    assert!(seen.contains(&value("x")));
    assert!(!seen.contains(&EnvVal::Fail));
}

#[test]
fn groups_form_and_sort_by_size() {
    let pairs = vec![
        (value("a"), 1),
        (EnvVal::Nothing, 2),
        (value("a"), 3),
        (EnvVal::Fail, 4),
        (value("a"), 5),
        (EnvVal::Nothing, 6),
    ];
    let table = aggregate(pairs);
    assert_eq!(table.len(), 3);

    let sizes: Vec<usize> = table.iter().map(|g| g.pids.len()).collect();
    assert_eq!(sizes, vec![1, 2, 3]);

    for pair in table.windows(2) {
        assert!(pair[0].pids.len() <= pair[1].pids.len());
    }

    assert_eq!(table[0].outcome, EnvVal::Fail);
    assert_eq!(sorted_pids(&table[0]), vec![4]);
    assert_eq!(table[1].outcome, EnvVal::Nothing);
    assert_eq!(sorted_pids(&table[1]), vec![2, 6]);
    assert_eq!(table[2].outcome, value("a"));
    assert_eq!(sorted_pids(&table[2]), vec![1, 3, 5]);
}

#[test]
fn sum_of_group_sizes_is_process_count() {
    let pairs = vec![
        (value("x"), 10),
        (value("y"), 11),
        (value("x"), 12),
        (EnvVal::Fail, 13),
        (value("y"), 14),
    ];
    let n = pairs.len();
    let table = aggregate(pairs);
    let total: usize = table.iter().map(|g| g.pids.len()).sum();
    assert_eq!(total, n);
}

#[test]
fn every_process_lies_in_exactly_one_group() {
    let pairs = vec![
        (value("x"), 10),
        (value("y"), 11),
        (value("x"), 12),
        (EnvVal::Nothing, 13),
    ];
    let table = aggregate(pairs);
    let mut seen: HashSet<u32> = HashSet::new();
    let mut occurrences: usize = 0;
    for g in &table {
        for pid in &g.pids {
            seen.insert(*pid);
            occurrences += 1;
        }
    }
    assert_eq!(occurrences, 4);
    assert_eq!(seen, HashSet::from([10, 11, 12, 13]));
}

#[test]
fn group_keys_are_distinct() {
    let pairs = vec![
        (value("x"), 1),
        (value("x"), 2),
        (value("y"), 3),
        (value("x"), 4),
    ];
    let table = aggregate(pairs);
    assert_eq!(table.len(), 2);
    assert_ne!(table[0].outcome, table[1].outcome);
}

#[test]
fn empty_run_gives_empty_table() {
    let table = aggregate(Vec::new());
    assert!(table.is_empty());
}

#[test]
fn equal_values_from_different_bytes_share_a_group() {
    // Two distinct invalid byte sequences decode to the same text, so
    // the outcomes are equal and must share one group.
    let a = EnvVal::Value("\u{FFFD}".to_string());
    let b = EnvVal::Value("\u{FFFD}".to_string());
    assert_eq!(a, b);
    let table = aggregate(vec![(a, 1), (b, 2)]);
    assert_eq!(table.len(), 1);
    assert_eq!(sorted_pids(&table[0]), vec![1, 2]);
}

#[test]
fn grouping_alone_keeps_every_pair() {
    let pairs = vec![(value("x"), 1), (value("y"), 2), (value("x"), 3)];
    let grouped = group_outcomes(pairs);
    assert_eq!(grouped.len(), 2);
    let total: usize = grouped.iter().map(|g| g.pids.len()).sum();
    assert_eq!(total, 3);
}

#[test]
fn sorting_alone_orders_by_size() {
    let big = Group { outcome: value("big"), pids: vec![1, 2, 3] };
    let small = Group { outcome: value("small"), pids: vec![4] };
    let sorted = sort_groups(vec![big, small]);
    assert_eq!(sorted[0].outcome, value("small"));
    assert_eq!(sorted[1].outcome, value("big"));
}
