//! Strictly ascending sequences: what every input must be and every output is.

use crate::order::{equiv, lawful, lemma_trichotomy, lt};
use vstd::prelude::*;

verus! {

/// `s` is sorted in strictly ascending order: each element comes before all
/// that follow it. Such a sequence holds no two equivalent elements.
pub open spec fn ascending<T: Ord>(s: Seq<T>) -> bool {
    forall|i: int, j: int| 0 <= i < j < s.len() ==> lt(#[trigger] s[i], #[trigger] s[j])
}

/// Some element of `s` is equivalent to `x`.
pub open spec fn matched<T: Ord>(s: Seq<T>, x: T) -> bool {
    exists|i: int| 0 <= i < s.len() && equiv(#[trigger] s[i], x)
}

/// Two sequences put together hold an element in the place of `x` when one
/// of them does.
pub proof fn lemma_matched_in_either<T: Ord>(a: Seq<T>, b: Seq<T>, x: T)
    ensures
        matched(a + b, x) <==> matched(a, x) || matched(b, x),
{
    let s = a + b;
    if matched(a, x) {
        let i = choose|i: int| 0 <= i < a.len() && equiv(#[trigger] a[i], x);
        assert(equiv(s[i], x));
    }
    if matched(b, x) {
        let i = choose|i: int| 0 <= i < b.len() && equiv(#[trigger] b[i], x);
        assert(equiv(s[i + a.len()], x));
    }
}

/// The elements of an ascending sequence determine it: two ascending
/// sequences with the same elements are the same sequence.
pub proof fn lemma_ascending_unique<T: Ord>(c: Seq<T>, d: Seq<T>)
    requires
        lawful::<T>(),
        ascending(c),
        ascending(d),
        forall|x: T| c.contains(x) <==> d.contains(x),
    ensures
        c == d,
    decreases c.len(),
{
    if c.len() == 0 {
        if d.len() > 0 {
            assert(d.contains(d[0]));
        }
    } else {
        assert(c.contains(c[0]));
        assert(d.contains(d[0]));
        lemma_trichotomy(c[0], d[0]);
        let c1 = c.skip(1);
        let d1 = d.skip(1);
        assert forall|x: T| c1.contains(x) <==> d1.contains(x) by {
            if c1.contains(x) {
                assert(c.contains(x));
                let j = choose|j: int| 0 <= j < d.len() && d[j] == x;
                assert(d1[j - 1] == x);
            }
            if d1.contains(x) {
                assert(d.contains(x));
                let j = choose|j: int| 0 <= j < c.len() && c[j] == x;
                assert(c1[j - 1] == x);
            }
        }
        lemma_ascending_unique(c1, d1);
        assert(c =~= seq![c[0]] + c1);
    }
}

} // verus!
