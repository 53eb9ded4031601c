//! The union of two ascending sequences, as a mathematical object, and the
//! laws that hold of it.

use crate::ascending::{ascending, lemma_ascending_unique, matched};
use crate::order::{
    equiv, lawful, lemma_equiv_reflexive, lemma_equiv_then_lt, lemma_lt_transitive,
    lemma_trichotomy, lt,
};
use core::cmp::Ordering;
use vstd::multiset::Multiset;
use vstd::prelude::*;
use vstd::seq_lib::lemma_multiset_commutative;
use vstd::std_specs::cmp::OrdSpec;

verus! {

/// The union of `a` and `b`, in order. The lesser front element goes first;
/// of two equivalent front elements the one from `a` goes to the union and
/// the one from `b` is left out.
pub open spec fn merged<T: Ord>(a: Seq<T>, b: Seq<T>) -> Seq<T>
    decreases a.len() + b.len(),
{
    if a.len() == 0 {
        b
    } else if b.len() == 0 {
        a
    } else {
        match a[0].cmp_spec(&b[0]) {
            Ordering::Less => seq![a[0]] + merged(a.skip(1), b),
            Ordering::Greater => seq![b[0]] + merged(a, b.skip(1)),
            Ordering::Equal => seq![a[0]] + merged(a.skip(1), b.skip(1)),
        }
    }
}

/// The test that an element repeats one of `a`: it is equivalent to some
/// element of `a`.
pub open spec fn repeats<T: Ord>(a: Seq<T>) -> spec_fn(T) -> bool {
    |y: T| matched(a, y)
}

/// The elements of `b` that the union of `a` and `b` leaves out, in order:
/// those that repeat an element of `a`.
pub open spec fn duplicates<T: Ord>(a: Seq<T>, b: Seq<T>) -> Seq<T> {
    b.filter(repeats(a))
}

/// `c` is a union of `a` and `b`: it is strictly ascending, and it holds the
/// elements of `a` and those elements of `b` that repeat no element of `a`.
pub open spec fn is_union<T: Ord>(a: Seq<T>, b: Seq<T>, c: Seq<T>) -> bool {
    &&& ascending(c)
    &&& forall|x: T| c.contains(x) <==> a.contains(x) || (b.contains(x) && !matched(a, x))
}

/// An element that comes before the front of an ascending sequence repeats
/// none of its elements.
proof fn lemma_below_front_unmatched<T: Ord>(s: Seq<T>, x: T)
    requires
        lawful::<T>(),
        ascending(s),
        s.len() > 0,
        lt(x, s[0]),
    ensures
        !matched(s, x),
        !s.contains(x),
{
    assert forall|i: int| 0 <= i < s.len() implies !equiv(#[trigger] s[i], x) by {
        if i > 0 {
            lemma_lt_transitive(x, s[0], s[i]);
        }
        lemma_trichotomy(x, s[i]);
    }
    lemma_equiv_reflexive(x);
}

/// The union holds the elements of `a`, and those of `b` that repeat no
/// element of `a`.
pub proof fn lemma_merged_members<T: Ord>(a: Seq<T>, b: Seq<T>)
    requires
        lawful::<T>(),
        ascending(a),
        ascending(b),
    ensures
        forall|x: T|
            merged(a, b).contains(x) <==> a.contains(x) || (b.contains(x) && !matched(a, x)),
    decreases a.len() + b.len(),
{
    let m = merged(a, b);
    if a.len() > 0 && b.len() > 0 {
        let a1 = a.skip(1);
        let b1 = b.skip(1);
        lemma_trichotomy(a[0], b[0]);
        assert(a =~= seq![a[0]] + a1);
        assert(b =~= seq![b[0]] + b1);
        match a[0].cmp_spec(&b[0]) {
            Ordering::Less => {
                let rest = merged(a1, b);
                lemma_merged_members(a1, b);
                assert forall|x: T|
                    m.contains(x) <==> a.contains(x) || (b.contains(x) && !matched(a, x)) by {
                    lemma_front_or_rest(a[0], rest, x);
                    if b.contains(x) {
                        let j = choose|j: int| 0 <= j < b.len() && b[j] == x;
                        if j > 0 {
                            lemma_lt_transitive(a[0], b[0], x);
                        }
                    }
                }
            },
            Ordering::Greater => {
                let rest = merged(a, b1);
                lemma_merged_members(a, b1);
                lemma_below_front_unmatched(a, b[0]);
                assert forall|x: T|
                    m.contains(x) <==> a.contains(x) || (b.contains(x) && !matched(a, x)) by {
                    lemma_front_or_rest(b[0], rest, x);
                }
            },
            Ordering::Equal => {
                let rest = merged(a1, b1);
                lemma_merged_members(a1, b1);
                assert forall|x: T|
                    m.contains(x) <==> a.contains(x) || (b.contains(x) && !matched(a, x)) by {
                    lemma_front_or_rest(a[0], rest, x);
                    if b1.contains(x) {
                        lemma_equiv_then_lt(a[0], b[0], x);
                    }
                }
            },
        }
    }
}

/// A sequence with `x` put in front holds `x` and what the sequence held.
proof fn lemma_front_or_rest<T>(x: T, s: Seq<T>, y: T)
    ensures
        (seq![x] + s).contains(y) <==> y == x || s.contains(y),
{
    let t = seq![x] + s;
    if s.contains(y) {
        let i = choose|i: int| 0 <= i < s.len() && s[i] == y;
        assert(t[i + 1] == y);
    }
    assert(t[0] == x);
}

/// Whatever comes before the front of an ascending sequence comes before all
/// of its elements.
proof fn lemma_below_front_below_all<T: Ord>(s: Seq<T>, x: T)
    requires
        lawful::<T>(),
        ascending(s),
        s.len() > 0,
        lt(x, s[0]),
    ensures
        forall|y: T| s.contains(y) ==> lt(x, y),
{
    assert forall|y: T| s.contains(y) implies lt(x, y) by {
        let i = choose|i: int| 0 <= i < s.len() && s[i] == y;
        if i > 0 {
            lemma_lt_transitive(x, s[0], y);
        }
    }
}

/// The union is strictly ascending: sorted, with no two equivalent elements.
pub proof fn lemma_merged_ascending<T: Ord>(a: Seq<T>, b: Seq<T>)
    requires
        lawful::<T>(),
        ascending(a),
        ascending(b),
    ensures
        ascending(merged(a, b)),
    decreases a.len() + b.len(),
{
    if a.len() > 0 && b.len() > 0 {
        let a1 = a.skip(1);
        let b1 = b.skip(1);
        lemma_trichotomy(a[0], b[0]);
        match a[0].cmp_spec(&b[0]) {
            Ordering::Less => {
                lemma_merged_ascending(a1, b);
                lemma_merged_members(a1, b);
                lemma_below_front_below_all(b, a[0]);
            },
            Ordering::Greater => {
                lemma_merged_ascending(a, b1);
                lemma_merged_members(a, b1);
                lemma_below_front_below_all(a, b[0]);
            },
            Ordering::Equal => {
                lemma_merged_ascending(a1, b1);
                lemma_merged_members(a1, b1);
                assert forall|y: T| merged(a1, b1).contains(y) implies lt(a[0], y) by {
                    if !a1.contains(y) {
                        lemma_equiv_then_lt(a[0], b[0], y);
                    }
                }
            },
        }
    }
}

/// Two tests that agree on every element of a sequence select the same
/// elements from it.
proof fn lemma_filter_agree<T>(s: Seq<T>, p: spec_fn(T) -> bool, q: spec_fn(T) -> bool)
    requires
        forall|i: int| 0 <= i < s.len() ==> p(#[trigger] s[i]) == q(s[i]),
    ensures
        s.filter(p) == s.filter(q),
    decreases s.len(),
{
    reveal(Seq::filter);
    if s.len() > 0 {
        lemma_filter_agree(s.drop_last(), p, q);
    }
}

/// Every element of the inputs is accounted for exactly once: it is in the
/// union or among the duplicates that the union leaves out. Nothing is lost
/// and nothing occurs twice.
pub proof fn lemma_merged_accounts<T: Ord>(a: Seq<T>, b: Seq<T>)
    requires
        lawful::<T>(),
        ascending(a),
        ascending(b),
    ensures
        merged(a, b).to_multiset().add(duplicates(a, b).to_multiset()) == a.to_multiset().add(
            b.to_multiset(),
        ),
        merged(a, b).len() + duplicates(a, b).len() == a.len() + b.len(),
{
    lemma_accounts_by_induction(a, b);
    lemma_multiset_commutative(merged(a, b), duplicates(a, b));
    lemma_multiset_commutative(a, b);
    (merged(a, b) + duplicates(a, b)).to_multiset_ensures();
    (a + b).to_multiset_ensures();
}

/// Adding `x` and `y` to both sides of an equation between sums of
/// multisets keeps it, wherever in the sums they are added.
proof fn lemma_sums_with<T>(
    x: Multiset<T>,
    m: Multiset<T>,
    d: Multiset<T>,
    p: Multiset<T>,
    q: Multiset<T>,
    y: Multiset<T>,
)
    requires
        m.add(d) == p.add(q),
    ensures
        x.add(m).add(d) == x.add(p).add(q),
        x.add(m).add(d) == p.add(x.add(q)),
        x.add(m).add(y.add(d)) == x.add(p).add(y.add(q)),
{
    broadcast use vstd::multiset::group_multiset_axioms;

    let md = m.add(d);
    let pq = p.add(q);
    assert forall|v: T| #[trigger] m.count(v) + d.count(v) == p.count(v) + q.count(v) by {
        assert(md.count(v) == m.count(v) + d.count(v));
    }
}

/// The multisets of the union and of the duplicates add up to those of the
/// inputs.
proof fn lemma_accounts_by_induction<T: Ord>(a: Seq<T>, b: Seq<T>)
    requires
        lawful::<T>(),
        ascending(a),
        ascending(b),
    ensures
        merged(a, b).to_multiset().add(duplicates(a, b).to_multiset()) == a.to_multiset().add(
            b.to_multiset(),
        ),
    decreases a.len() + b.len(),
{
    broadcast use vstd::multiset::group_multiset_axioms;

    let m = merged(a, b);
    let d = duplicates(a, b);
    let none = Seq::<T>::empty();
    if a.len() == 0 {
        assert(d == none) by {
            b.lemma_all_neg_filter_empty(repeats(a));
        }
        lemma_multiset_commutative(m, d);
        lemma_multiset_commutative(a, b);
    } else if b.len() == 0 {
        lemma_multiset_commutative(m, d);
        lemma_multiset_commutative(a, b);
    } else {
        let a1 = a.skip(1);
        let b1 = b.skip(1);
        lemma_trichotomy(a[0], b[0]);
        assert(a =~= seq![a[0]] + a1);
        assert(b =~= seq![b[0]] + b1);
        lemma_multiset_commutative(seq![a[0]], a1);
        lemma_multiset_commutative(seq![b[0]], b1);
        match a[0].cmp_spec(&b[0]) {
            Ordering::Less => {
                lemma_accounts_by_induction(a1, b);
                assert(d == duplicates(a1, b)) by {
                    assert forall|j: int| 0 <= j < b.len() implies repeats(a)(#[trigger] b[j])
                        == repeats(a1)(b[j]) by {
                        if j > 0 {
                            lemma_lt_transitive(a[0], b[0], b[j]);
                        }
                    }
                    lemma_filter_agree(b, repeats(a), repeats(a1));
                }
                lemma_multiset_commutative(seq![a[0]], merged(a1, b));
                lemma_sums_with(
                    seq![a[0]].to_multiset(),
                    merged(a1, b).to_multiset(),
                    d.to_multiset(),
                    a1.to_multiset(),
                    b.to_multiset(),
                    Multiset::empty(),
                );
            },
            Ordering::Greater => {
                lemma_accounts_by_induction(a, b1);
                lemma_below_front_unmatched(a, b[0]);
                assert(d == duplicates(a, b1)) by {
                    b1.lemma_filter_prepend(b[0], repeats(a));
                }
                lemma_multiset_commutative(seq![b[0]], merged(a, b1));
                lemma_sums_with(
                    seq![b[0]].to_multiset(),
                    merged(a, b1).to_multiset(),
                    d.to_multiset(),
                    a.to_multiset(),
                    b1.to_multiset(),
                    Multiset::empty(),
                );
            },
            Ordering::Equal => {
                lemma_accounts_by_induction(a1, b1);
                assert(duplicates(a, b1) == duplicates(a1, b1)) by {
                    assert forall|j: int| 0 <= j < b1.len() implies repeats(a)(#[trigger] b1[j])
                        == repeats(a1)(b1[j]) by {
                        lemma_equiv_then_lt(a[0], b[0], b1[j]);
                    }
                    lemma_filter_agree(b1, repeats(a), repeats(a1));
                }
                assert(d == seq![b[0]] + duplicates(a1, b1)) by {
                    b1.lemma_filter_prepend(b[0], repeats(a));
                }
                lemma_multiset_commutative(seq![a[0]], merged(a1, b1));
                lemma_multiset_commutative(seq![b[0]], duplicates(a1, b1));
                lemma_sums_with(
                    seq![a[0]].to_multiset(),
                    merged(a1, b1).to_multiset(),
                    duplicates(a1, b1).to_multiset(),
                    a1.to_multiset(),
                    b1.to_multiset(),
                    seq![b[0]].to_multiset(),
                );
            },
        }
    }
}

/// `merged(a, b)` is a union of `a` and `b`, and the only one: whatever is
/// ascending and holds the union's elements is `merged(a, b)`.
pub proof fn lemma_union_is_merged<T: Ord>(a: Seq<T>, b: Seq<T>, c: Seq<T>)
    requires
        lawful::<T>(),
        ascending(a),
        ascending(b),
    ensures
        is_union(a, b, merged(a, b)),
        is_union(a, b, c) ==> c == merged(a, b),
{
    lemma_merged_ascending(a, b);
    lemma_merged_members(a, b);
    if is_union(a, b, c) {
        lemma_ascending_unique(c, merged(a, b));
    }
}

/// The union with an empty sequence is the other sequence, unchanged.
pub proof fn lemma_merged_identity<T: Ord>(s: Seq<T>)
    ensures
        merged(s, Seq::<T>::empty()) == s,
        merged(Seq::<T>::empty(), s) == s,
{
}

/// The union is at least as long as the longer input and at most as long
/// as both together, whatever the inputs hold.
pub proof fn lemma_merged_len_bounds<T: Ord>(a: Seq<T>, b: Seq<T>)
    ensures
        a.len() <= merged(a, b).len(),
        b.len() <= merged(a, b).len(),
        merged(a, b).len() <= a.len() + b.len(),
    decreases a.len() + b.len(),
{
    if a.len() > 0 && b.len() > 0 {
        lemma_merged_len_bounds(a.skip(1), b);
        lemma_merged_len_bounds(a, b.skip(1));
        lemma_merged_len_bounds(a.skip(1), b.skip(1));
    }
}

} // verus!
