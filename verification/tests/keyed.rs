use kmerge::merge2_uniq::{into_iter, into_iter_safer, naive, old_datafrog, raw_storage};
use std::cmp::Ordering;

/// A record that is ordered by its key alone.
#[derive(Clone, Debug)]
struct Keyed {
    key: u32,
    payload: &'static str,
}

fn keyed(key: u32, payload: &'static str) -> Keyed {
    Keyed { key, payload }
}

impl PartialEq for Keyed {
    fn eq(&self, other: &Keyed) -> bool {
        self.key == other.key
    }
}

impl Eq for Keyed {}

impl PartialOrd for Keyed {
    fn partial_cmp(&self, other: &Keyed) -> Option<Ordering> {
        Some(self.cmp(other))
    }
}

impl Ord for Keyed {
    fn cmp(&self, other: &Keyed) -> Ordering {
        self.key.cmp(&other.key)
    }
}

fn contents(items: &[Keyed]) -> Vec<(u32, &'static str)> {
    items.iter().map(|item| (item.key, item.payload)).collect()
}

#[test]
fn first_input_wins_ties_naive() {
    let out = naive(vec![keyed(1, "a"), keyed(2, "b")], vec![keyed(1, "z")]);
    assert_eq!(contents(&out), vec![(1, "a"), (2, "b")]);
}

#[test]
fn first_input_wins_ties_into_iter() {
    let out = into_iter(vec![keyed(1, "a"), keyed(2, "b")], vec![keyed(1, "z")]);
    assert_eq!(contents(&out), vec![(1, "a"), (2, "b")]);
}

#[test]
fn first_input_wins_ties_into_iter_safer() {
    let out = into_iter_safer(vec![keyed(1, "a"), keyed(2, "b")], vec![keyed(1, "z")]);
    assert_eq!(contents(&out), vec![(1, "a"), (2, "b")]);
}

#[test]
fn first_input_wins_ties_old_datafrog() {
    let out = old_datafrog(vec![keyed(1, "a"), keyed(2, "b")], vec![keyed(1, "z")]);
    assert_eq!(contents(&out), vec![(1, "a"), (2, "b")]);
}

#[test]
fn first_input_wins_ties_raw_storage() {
    let out = raw_storage(vec![keyed(1, "a"), keyed(2, "b")], vec![keyed(1, "z")]);
    assert_eq!(contents(&out), vec![(1, "a"), (2, "b")]);
}

#[test]
fn first_input_wins_later_ties() {
    let a = vec![keyed(2, "a"), keyed(3, "a"), keyed(7, "a")];
    let b = vec![keyed(1, "z"), keyed(3, "z"), keyed(7, "z"), keyed(9, "z")];
    let expected = vec![(1, "z"), (2, "a"), (3, "a"), (7, "a"), (9, "z")];
    assert_eq!(contents(&naive(a.clone(), b.clone())), expected);
    assert_eq!(contents(&into_iter(a.clone(), b.clone())), expected);
    assert_eq!(contents(&into_iter_safer(a.clone(), b.clone())), expected);
    assert_eq!(contents(&old_datafrog(a.clone(), b.clone())), expected);
    assert_eq!(contents(&raw_storage(a, b)), expected);
}

#[test]
fn draining_merge_keeps_first_input_when_second_starts_lower() {
    // The second input starts with the lesser element, so the merge drains
    // it into the first. Where keys meet, the first input's record stays
    // all the same.
    let a = vec![keyed(2, "a"), keyed(3, "a"), keyed(7, "a")];
    let b = vec![keyed(1, "z"), keyed(3, "z"), keyed(7, "z"), keyed(9, "z")];
    let out = old_datafrog(a, b);
    assert_eq!(contents(&out), vec![(1, "z"), (2, "a"), (3, "a"), (7, "a"), (9, "z")]);
}

#[test]
fn draining_merge_keeps_first_input_in_a_tie_right_after_the_swap() {
    let out = old_datafrog(vec![keyed(2, "a")], vec![keyed(1, "z"), keyed(2, "b")]);
    assert_eq!(contents(&out), vec![(1, "z"), (2, "a")]);
    assert_eq!(out.len(), 2);
}

#[test]
fn draining_merge_keeps_first_input_in_the_last_tie_after_a_swap() {
    let a = vec![keyed(5, "a"), keyed(8, "a")];
    let b = vec![keyed(1, "z"), keyed(8, "z")];
    assert_eq!(contents(&old_datafrog(a, b)), vec![(1, "z"), (5, "a"), (8, "a")]);
    let a = vec![keyed(5, "a"), keyed(8, "a"), keyed(9, "a")];
    let b = vec![keyed(1, "z"), keyed(5, "z"), keyed(6, "z")];
    assert_eq!(
        contents(&old_datafrog(a, b)),
        vec![(1, "z"), (5, "a"), (6, "z"), (8, "a"), (9, "a")]
    );
}

#[test]
fn baseline_keeps_the_record_that_stood_first() {
    // Neither input is sorted. Of the records with one key the first of
    // the first input stays, or the first of the second where the first
    // input has none.
    let a = vec![keyed(2, "a"), keyed(1, "b"), keyed(2, "c")];
    let b = vec![keyed(3, "x"), keyed(2, "z"), keyed(1, "y"), keyed(3, "w")];
    let out = naive(a, b);
    assert_eq!(contents(&out), vec![(1, "b"), (2, "a"), (3, "x")]);
}

#[test]
fn draining_merge_keeps_first_input_when_it_starts_lower() {
    let a = vec![keyed(1, "a"), keyed(3, "a"), keyed(7, "a")];
    let b = vec![keyed(2, "z"), keyed(3, "z"), keyed(7, "z"), keyed(9, "z")];
    let out = old_datafrog(a, b);
    assert_eq!(contents(&out), vec![(1, "a"), (2, "z"), (3, "a"), (7, "a"), (9, "z")]);
}

#[test]
fn draining_merge_keeps_first_input_when_fronts_tie() {
    let a = vec![keyed(1, "a"), keyed(4, "a")];
    let b = vec![keyed(1, "z"), keyed(4, "z")];
    let out = old_datafrog(a, b);
    assert_eq!(contents(&out), vec![(1, "a"), (4, "a")]);
}

#[test]
fn baseline_keeps_first_input_in_long_inputs() {
    // Long enough for the sort to leave its short-input path.
    let mut a = Vec::new();
    let mut b = Vec::new();
    let mut expected = Vec::new();
    for key in 0..200u32 {
        if key % 3 != 1 {
            a.push(keyed(key, "a"));
        }
        if key % 2 == 0 {
            b.push(keyed(key, "z"));
        }
        if key % 3 != 1 {
            expected.push((key, "a"));
        } else if key % 2 == 0 {
            expected.push((key, "z"));
        }
    }
    assert_eq!(contents(&naive(a.clone(), b.clone())), expected);
    assert_eq!(contents(&into_iter(a.clone(), b.clone())), expected);
    assert_eq!(contents(&old_datafrog(a.clone(), b.clone())), expected);
    assert_eq!(
        contents(&old_datafrog(b.clone(), a.clone())),
        contents(&into_iter(b.clone(), a.clone()))
    );
    assert_eq!(contents(&raw_storage(a, b)), expected);
}
