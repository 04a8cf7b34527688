use death_stats::keyorder::{precedes, same_key};
use death_stats::selector::CappedTopMap;

fn drained(capacity: usize, pairs: &[(&str, usize)]) -> Vec<(String, usize)> {
    let mut selector = CappedTopMap::new(capacity);
    for (k, v) in pairs {
        selector.push(k.to_string(), *v);
    }
    let mut out = selector.drain().entries().clone();
    out.sort();
    out
}

fn owned(pairs: &[(&str, usize)]) -> Vec<(String, usize)> {
    let mut out: Vec<(String, usize)> = pairs.iter().map(|(k, v)| (k.to_string(), *v)).collect();
    out.sort();
    out
}

#[test]
fn keeps_the_pairs_with_greatest_values() {
    let pairs = [("a", 7), ("b", 3), ("c", 9), ("d", 1), ("e", 5)];

    assert_eq!(drained(3, &pairs), owned(&[("a", 7), ("c", 9), ("e", 5)]));
    assert_eq!(drained(1, &pairs), owned(&[("c", 9)]));
    assert_eq!(drained(5, &pairs), owned(&pairs));
}

#[test]
fn capacity_zero_keeps_nothing() {
    assert!(drained(0, &[("a", 7), ("b", 3)]).is_empty());
}

#[test]
fn fewer_pairs_than_capacity_are_all_kept() {
    let pairs = [("x", 2), ("y", 2)];

    assert_eq!(drained(10, &pairs), owned(&pairs));
    assert!(drained(10, &[]).is_empty());
}

#[test]
fn equal_values_keep_the_earlier_name() {
    let pairs = [("M4A4", 4), ("AK47", 4), ("AWM", 4), ("UMP", 1)];

    assert_eq!(drained(2, &pairs), owned(&[("AK47", 4), ("AWM", 4)]));
}

#[test]
fn merge_is_pushing_the_other_pairs() {
    let mut left = CappedTopMap::new(2);
    left.push("a".to_string(), 1);
    left.push("b".to_string(), 8);
    let mut right = CappedTopMap::new(2);
    right.push("c".to_string(), 5);
    right.push("d".to_string(), 9);
    right.push("e".to_string(), 2);

    left.merge(right);
    let mut out = left.drain().entries().clone();
    out.sort();

    assert_eq!(out, owned(&[("b", 8), ("d", 9)]));
}

#[test]
fn name_order_is_bytewise() {
    assert!(precedes("AK47", "M4A4"));
    assert!(!precedes("M4A4", "AK47"));
    assert!(precedes("Player", "Player1"));
    assert!(!precedes("Player1", "Player1"));
    assert!(precedes("Zed", "amy"));
    assert!(precedes("", "a"));
    assert!(same_key("Player1", "Player1"));
    assert!(!same_key("Player1", "Player2"));
    assert!(!same_key("é", "e"));
}

#[test]
fn evicted_name_can_be_pushed_again() {
    let mut selector = CappedTopMap::new(1);
    selector.push("a".to_string(), 1);
    selector.push("b".to_string(), 5);
    // "a" was evicted; pushed again with a higher value it wins back its place
    selector.push("a".to_string(), 9);
    let out = selector.drain().entries().clone();

    assert_eq!(out, vec![("a".to_string(), 9)]);
}

#[test]
fn dropped_name_pushed_again_with_low_value_stays_out() {
    let mut selector = CappedTopMap::new(2);
    selector.push("x".to_string(), 4);
    selector.push("y".to_string(), 6);
    selector.push("z".to_string(), 1);
    selector.push("z".to_string(), 3);
    let mut out = selector.drain().entries().clone();
    out.sort();

    assert_eq!(out, owned(&[("x", 4), ("y", 6)]));
}

#[test]
fn merge_with_names_once_dropped_on_the_other_side() {
    let mut left = CappedTopMap::new(1);
    left.push("c".to_string(), 2);
    left.push("d".to_string(), 7);
    let mut right = CappedTopMap::new(1);
    right.push("c".to_string(), 8);
    right.push("e".to_string(), 3);

    left.merge(right);
    let out = left.drain().entries().clone();

    assert_eq!(out, vec![("c".to_string(), 8)]);
}

#[test]
fn merge_grouping_keeps_same_names() {
    let fill = |pairs: &[(&str, usize)]| {
        let mut s = CappedTopMap::new(2);
        for (k, v) in pairs {
            s.push(k.to_string(), *v);
        }
        s
    };
    let (a, b, c) = (&[("a", 3), ("b", 8)], &[("c", 5), ("d", 8)], &[("e", 9), ("f", 1)]);

    let mut left = fill(a);
    left.merge(fill(b));
    left.merge(fill(c));
    let mut right = fill(b);
    right.merge(fill(c));
    let mut outer = fill(a);
    outer.merge(right);

    let mut l = left.drain().entries().clone();
    let mut r = outer.drain().entries().clone();
    l.sort();
    r.sort();
    assert_eq!(l, owned(&[("e", 9), ("b", 8)]));
    assert_eq!(l, r);
}
