use kmerge::merge2_uniq::{into_iter, into_iter_safer, naive, old_datafrog, raw_storage};

/// A small generator of fixed pseudo-random numbers.
struct Numbers {
    state: u64,
}

impl Numbers {
    fn new(seed: u64) -> Numbers {
        Numbers { state: seed }
    }

    fn below(&mut self, bound: u64) -> u64 {
        self.state = self.state.wrapping_mul(6364136223846793005).wrapping_add(1442695040888963407);
        (self.state >> 33) % bound
    }

    /// A sorted vector without repeats, of up to `longest` numbers below `bound`.
    fn input(&mut self, longest: u64, bound: u64) -> Vec<u64> {
        let count = self.below(longest + 1);
        let mut items = Vec::new();
        for _ in 0..count {
            items.push(self.below(bound));
        }
        items.sort_unstable();
        items.dedup();
        items
    }
}

fn inputs() -> Vec<(Vec<u64>, Vec<u64>)> {
    let mut numbers = Numbers::new(42);
    let mut pairs = Vec::new();
    for round in 0..300u64 {
        let bound = 1 + round % 40;
        pairs.push((numbers.input(24, bound), numbers.input(24, bound)));
    }
    pairs
}

fn shared(a: &[u64], b: &[u64]) -> usize {
    a.iter().filter(|x| b.contains(x)).count()
}

#[test]
fn into_iter_impl() {
    for (a, b) in inputs() {
        assert_eq!(into_iter(a.clone(), b.clone()), naive(a, b));
    }
}

#[test]
fn into_iter_safer_impl() {
    for (a, b) in inputs() {
        assert_eq!(into_iter_safer(a.clone(), b.clone()), naive(a, b));
    }
}

#[test]
fn old_datafrog_impl() {
    for (a, b) in inputs() {
        assert_eq!(old_datafrog(a.clone(), b.clone()), naive(a, b));
    }
}

#[test]
fn raw_storage_impl() {
    for (a, b) in inputs() {
        assert_eq!(raw_storage(a.clone(), b.clone()), naive(a, b));
    }
}

#[test]
fn output_length_is_sum_less_shared() {
    for (a, b) in inputs() {
        let expected = a.len() + b.len() - shared(&a, &b);
        assert_eq!(naive(a.clone(), b.clone()).len(), expected);
        assert_eq!(into_iter(a.clone(), b.clone()).len(), expected);
        assert_eq!(into_iter_safer(a.clone(), b.clone()).len(), expected);
        assert_eq!(old_datafrog(a.clone(), b.clone()).len(), expected);
        assert_eq!(raw_storage(a, b).len(), expected);
    }
}

#[test]
fn output_length_exact_value() {
    // 4 + 5 elements, of which 20 and 40 are shared.
    let a = vec![10u64, 20, 30, 40];
    let b = vec![5u64, 20, 25, 40, 50];
    assert_eq!(naive(a.clone(), b.clone()).len(), 7);
    assert_eq!(into_iter(a.clone(), b.clone()).len(), 7);
    assert_eq!(into_iter_safer(a.clone(), b.clone()).len(), 7);
    assert_eq!(old_datafrog(a.clone(), b.clone()).len(), 7);
    assert_eq!(raw_storage(a, b).len(), 7);
}

fn strictly_ascending(items: &[u64]) -> bool {
    items.windows(2).all(|pair| pair[0] < pair[1])
}

#[test]
fn output_is_strictly_ascending() {
    for (a, b) in inputs() {
        assert!(strictly_ascending(&naive(a.clone(), b.clone())));
        assert!(strictly_ascending(&into_iter(a.clone(), b.clone())));
        assert!(strictly_ascending(&into_iter_safer(a.clone(), b.clone())));
        assert!(strictly_ascending(&old_datafrog(a.clone(), b.clone())));
        assert!(strictly_ascending(&raw_storage(a, b)));
    }
}

#[test]
fn output_holds_every_input_element_and_no_other() {
    for (a, b) in inputs() {
        let out = raw_storage(a.clone(), b.clone());
        assert!(a.iter().all(|x| out.contains(x)));
        assert!(b.iter().all(|x| out.contains(x)));
        assert!(out.iter().all(|x| a.contains(x) || b.contains(x)));
    }
}

#[test]
fn merging_with_empty_is_identity() {
    for (a, _) in inputs() {
        assert_eq!(naive(a.clone(), vec![]), a);
        assert_eq!(naive(vec![], a.clone()), a);
        assert_eq!(into_iter(a.clone(), vec![]), a);
        assert_eq!(into_iter(vec![], a.clone()), a);
        assert_eq!(into_iter_safer(a.clone(), vec![]), a);
        assert_eq!(into_iter_safer(vec![], a.clone()), a);
        assert_eq!(old_datafrog(a.clone(), vec![]), a);
        assert_eq!(old_datafrog(vec![], a.clone()), a);
        assert_eq!(raw_storage(a.clone(), vec![]), a);
        assert_eq!(raw_storage(vec![], a.clone()), a);
    }
}

fn reuses_storage(merge: fn(Vec<u64>, Vec<u64>) -> Vec<u64>) -> bool {
    let a: Vec<u64> = vec![5, 7, 9];
    let storage = a.as_ptr();
    let first_kept = merge(a, vec![]).as_ptr() == storage;
    let b: Vec<u64> = vec![5, 7, 9];
    let storage = b.as_ptr();
    let second_kept = merge(vec![], b).as_ptr() == storage;
    first_kept && second_kept
}

#[test]
fn merging_with_empty_reuses_storage() {
    assert!(reuses_storage(naive::<u64>));
    assert!(reuses_storage(into_iter::<u64>));
    assert!(reuses_storage(into_iter_safer::<u64>));
    assert!(reuses_storage(old_datafrog::<u64>));
    assert!(reuses_storage(raw_storage::<u64>));
}

#[test]
fn baseline_works_in_the_first_input_storage() {
    // Room for both inputs is there, so that nothing has to move.
    let mut a: Vec<u64> = Vec::with_capacity(16);
    a.push(1);
    a.push(4);
    a.push(6);
    let storage = a.as_ptr();
    let out = naive(a, vec![4, 5]);
    assert_eq!(out, vec![1, 4, 5, 6]);
    assert_eq!(out.as_ptr(), storage);
}

#[test]
fn baseline_sorts_and_thins_any_inputs() {
    assert_eq!(naive(vec![3u64, 1, 3], vec![2, 1]), vec![1, 2, 3]);
    assert_eq!(naive(vec![9u64, 9, 9], vec![]), vec![9]);
    assert_eq!(naive(vec![], vec![4u64, 2, 4, 2]), vec![2, 4]);
    assert_eq!(naive(vec![5u64, 4, 3], vec![3, 4, 5]), vec![3, 4, 5]);
}

#[test]
fn baseline_on_any_inputs_ascends_and_holds_what_either_holds() {
    let mut numbers = Numbers::new(7);
    for round in 0..200u64 {
        let bound = 1 + round % 30;
        let mut a = Vec::new();
        let mut b = Vec::new();
        for _ in 0..numbers.below(20) {
            a.push(numbers.below(bound));
        }
        for _ in 0..numbers.below(20) {
            b.push(numbers.below(bound));
        }
        let out = naive(a.clone(), b.clone());
        assert!(strictly_ascending(&out));
        assert!(a.iter().all(|x| out.contains(x)));
        assert!(b.iter().all(|x| out.contains(x)));
        assert!(out.iter().all(|x| a.contains(x) || b.contains(x)));
    }
}

#[test]
fn merges_follow_the_fronts_on_unsorted_inputs() {
    // 3 and 2 meet: 2 goes first, and the first input follows as it is.
    assert_eq!(into_iter(vec![3u64, 1], vec![2]), vec![2, 3, 1]);
    assert_eq!(into_iter_safer(vec![3u64, 1], vec![2]), vec![2, 3, 1]);
    assert_eq!(old_datafrog(vec![3u64, 1], vec![2]), vec![2, 3, 1]);
    // 1 and 1 meet and one is dropped, then 5 and 0, then 5 and 5.
    assert_eq!(into_iter(vec![1u64, 5, 1], vec![1, 0, 5]), vec![1, 0, 5, 1]);
    assert_eq!(into_iter_safer(vec![1u64, 5, 1], vec![1, 0, 5]), vec![1, 0, 5, 1]);
    assert_eq!(old_datafrog(vec![1u64, 5, 1], vec![1, 0, 5]), vec![1, 0, 5, 1]);
}

#[test]
fn merges_return_on_any_inputs_within_the_length_bounds() {
    let mut numbers = Numbers::new(11);
    for round in 0..200u64 {
        let bound = 1 + round % 30;
        let mut a = Vec::new();
        let mut b = Vec::new();
        for _ in 0..numbers.below(20) {
            a.push(numbers.below(bound));
        }
        for _ in 0..numbers.below(20) {
            b.push(numbers.below(bound));
        }
        let longer = a.len().max(b.len());
        let sum = a.len() + b.len();
        let out = into_iter(a.clone(), b.clone());
        assert!(longer <= out.len() && out.len() <= sum);
        assert_eq!(into_iter_safer(a.clone(), b.clone()), out);
        assert_eq!(old_datafrog(a, b), out);
    }
}

#[test]
fn merging_is_symmetric_on_plain_numbers() {
    for (a, b) in inputs() {
        assert_eq!(into_iter(a.clone(), b.clone()), into_iter(b.clone(), a.clone()));
        assert_eq!(old_datafrog(a.clone(), b.clone()), old_datafrog(b, a));
    }
}
