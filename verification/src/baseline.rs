//! Sorting and the removal of repeats, from which the baseline merge is
//! made, and the proof that the two together form the union.

use crate::ascending::{ascending, matched};
use crate::order::{
    equiv, lawful, lemma_equiv_reflexive, lemma_equiv_then_lt, lemma_equiv_transitive,
    lemma_lt_transitive, lemma_operators, lemma_trichotomy, lt,
};
use crate::union::{is_union, lemma_union_is_merged, merged};
use vstd::prelude::*;

verus! {

/// The test that an element holds the same place in the order as `x`.
pub open spec fn same_place<T: Ord>(x: T) -> spec_fn(T) -> bool {
    |y: T| equiv(x, y)
}

/// No element of `s` comes before one that precedes it in `s`.
pub open spec fn non_descending<T: Ord>(s: Seq<T>) -> bool {
    forall|i: int, j: int| 0 <= i < j < s.len() ==> !lt(#[trigger] s[j], #[trigger] s[i])
}

/// `after` is `before`, sorted stably: it is in order, and the elements that
/// hold any one place in the order are the same in both, in the same order
/// among themselves.
pub open spec fn stably_sorted<T: Ord>(before: Seq<T>, after: Seq<T>) -> bool {
    &&& non_descending(after)
    &&& forall|x: T| #[trigger] after.filter(same_place(x)) == before.filter(same_place(x))
}

/// `s` without the elements that are equivalent to their predecessor.
pub open spec fn without_repeats<T: Ord>(s: Seq<T>) -> Seq<T>
    decreases s.len(),
{
    if s.len() <= 1 {
        s
    } else if equiv(s[s.len() - 2], s.last()) {
        without_repeats(s.drop_last())
    } else {
        without_repeats(s.drop_last()).push(s.last())
    }
}

/// `x` is the first element of `s` in its place of the order.
pub open spec fn first_in_place<T: Ord>(s: Seq<T>, x: T) -> bool {
    s.filter(same_place(x)).len() > 0 && s.filter(same_place(x))[0] == x
}

/// The element at `i` is not equivalent to its predecessor in `s`.
pub open spec fn starts_run<T: Ord>(s: Seq<T>, i: int) -> bool {
    i == 0 || !equiv(s[i - 1], s[i])
}

/// Calls the slice method `sort` on the vector, which is taken on trust to
/// sort in place and stably: the result is in order, and equivalent elements
/// stand in it as they stood among themselves before. `sort` may panic where
/// the order is not total, which `lawful` rules out.
#[verifier::external_body]
pub(crate) fn sort<T: Ord>(vec: &mut Vec<T>)
    requires
        lawful::<T>(),
    ensures
        stably_sorted(old(vec)@, final(vec)@),
{
    vec.sort();
}

/// Removes each element that is equivalent to its predecessor, in place.
pub(crate) fn dedup<T: Ord>(vec: &mut Vec<T>)
    requires
        lawful::<T>(),
    ensures
        final(vec)@ == without_repeats(old(vec)@),
{
    if vec.len() < 2 {
        return;
    }
    let ghost whole = vec@;
    // The elements before `at` are what is kept of the first `seen` elements
    // of `whole`, and the rest is as it was. The element kept last is
    // equivalent to the one seen last, so that comparing with the one tells
    // whether the next element repeats the other.
    let mut at: usize = 1;
    let ghost mut kept: int = 1;
    let ghost mut seen: int = 1;
    proof {
        lemma_equiv_reflexive(whole[0]);
    }
    while at < vec.len()
        invariant
            lawful::<T>(),
            kept == at,
            1 <= at <= seen <= whole.len(),
            at <= vec@.len(),
            vec@.take(kept) == without_repeats(whole.take(seen)),
            vec@.skip(kept) == whole.skip(seen),
            equiv(vec@[at - 1], whole[seen - 1]),
        decreases whole.len() - seen,
    {
        let ghost before = vec@;
        proof {
            lemma_operators::<T>();
            assert(before.skip(kept).len() == whole.skip(seen).len());
            assert(before[kept] == before.skip(kept)[0]);
            assert(whole.take(seen + 1).drop_last() =~= whole.take(seen));
            lemma_trichotomy(before[kept], before[at - 1]);
            lemma_trichotomy(before[at - 1], whole[seen - 1]);
            if equiv(before[at - 1], whole[seen]) {
                lemma_equiv_transitive(whole[seen - 1], before[at - 1], whole[seen]);
            }
            if equiv(whole[seen - 1], whole[seen]) {
                lemma_equiv_transitive(before[at - 1], whole[seen - 1], whole[seen]);
            }
            lemma_equiv_reflexive(whole[seen]);
        }
        if vec[at] == vec[at - 1] {
            let _ = vec.remove(at);
            assert forall|i: int| 0 <= i < whole.len() - seen - 1 implies vec@.skip(kept)[i]
                == whole.skip(seen + 1)[i] by {
                assert(before.skip(kept)[i + 1] == whole.skip(seen)[i + 1]);
            }
        } else {
            at = at + 1;
            proof {
                kept = kept + 1;
            }
            assert forall|i: int| 0 <= i < whole.len() - seen - 1 implies vec@.skip(kept)[i]
                == whole.skip(seen + 1)[i] by {
                assert(before.skip(kept - 1)[i + 1] == whole.skip(seen)[i + 1]);
            }
        }
        proof {
            seen = seen + 1;
        }
    }
    assert(whole.take(seen) =~= whole);
}

/// What `without_repeats` keeps: the elements that stand at the start of a
/// run of equivalent elements.
pub proof fn lemma_without_repeats_members<T: Ord>(s: Seq<T>)
    ensures
        forall|x: T|
            without_repeats(s).contains(x) <==> exists|i: int|
                0 <= i < s.len() && #[trigger] s[i] == x && starts_run(s, i),
    decreases s.len(),
{
    let kept = without_repeats(s);
    if s.len() > 1 {
        let init = s.drop_last();
        let n = s.len() - 1;
        lemma_without_repeats_members(init);
        assert forall|x: T|
            kept.contains(x) <==> exists|i: int|
                0 <= i < s.len() && #[trigger] s[i] == x && starts_run(s, i) by {
            if without_repeats(init).contains(x) {
                let i = choose|i: int|
                    0 <= i < init.len() && #[trigger] init[i] == x && starts_run(init, i);
                assert(s[i] == x && starts_run(s, i));
            }
            if exists|i: int| 0 <= i < s.len() && #[trigger] s[i] == x && starts_run(s, i) {
                let i = choose|i: int| 0 <= i < s.len() && #[trigger] s[i] == x && starts_run(s, i);
                if i < n {
                    assert(init[i] == x && starts_run(init, i));
                    let k = choose|k: int|
                        0 <= k < without_repeats(init).len() && without_repeats(init)[k] == x;
                    assert(kept[k] == x);
                } else {
                    assert(kept[kept.len() - 1] == x);
                }
            }
        }
    }
}

/// In a sequence that is in order, the elements that start a run ascend
/// strictly.
pub proof fn lemma_without_repeats_ascending<T: Ord>(s: Seq<T>)
    requires
        lawful::<T>(),
        non_descending(s),
    ensures
        ascending(without_repeats(s)),
    decreases s.len(),
{
    if s.len() > 1 {
        let init = s.drop_last();
        let n = s.len() - 1;
        let kept = without_repeats(init);
        lemma_without_repeats_ascending(init);
        if !equiv(s[n - 1], s[n]) {
            // The last element is kept. It comes after its predecessor, and
            // so after all that was kept before it.
            lemma_without_repeats_members(init);
            let longer = kept.push(s[n]);
            assert forall|i: int, j: int| 0 <= i < j < longer.len() implies lt(
                #[trigger] longer[i],
                #[trigger] longer[j],
            ) by {
                if j == kept.len() {
                    assert(kept.contains(kept[i]));
                    let k = choose|k: int|
                        0 <= k < init.len() && #[trigger] init[k] == kept[i] && starts_run(init, k);
                    lemma_at_most(s, k, n - 1, n);
                }
            }
        }
    }
}

/// In a sequence that is in order, an element that is not equivalent to its
/// predecessor comes after it, and so after all that stand before it.
proof fn lemma_at_most<T: Ord>(s: Seq<T>, k: int, i: int, j: int)
    requires
        lawful::<T>(),
        non_descending(s),
        0 <= k <= i < j < s.len(),
        !equiv(s[i], s[j]),
    ensures
        lt(s[k], s[j]),
{
    lemma_trichotomy(s[i], s[j]);
    if k < i {
        lemma_trichotomy(s[k], s[i]);
        if equiv(s[k], s[i]) {
            lemma_equiv_then_lt(s[k], s[i], s[j]);
        } else {
            lemma_lt_transitive(s[k], s[i], s[j]);
        }
    }
}

/// The first element that a filter keeps is the first element of the
/// sequence that passes the test. The result is where it stands.
proof fn lemma_filter_front<T>(s: Seq<T>, p: spec_fn(T) -> bool) -> (i: int)
    requires
        s.filter(p).len() > 0,
    ensures
        0 <= i < s.len(),
        p(s[i]),
        s.filter(p)[0] == s[i],
        forall|k: int| 0 <= k < i ==> !p(#[trigger] s[k]),
    decreases s.len(),
{
    let rest = s.skip(1);
    if s.len() > 0 {
        assert(s =~= seq![s[0]] + rest);
        rest.lemma_filter_prepend(s[0], p);
    }
    if s.len() == 0 || p(s[0]) {
        0
    } else {
        lemma_filter_front(rest, p) + 1
    }
}

/// A filter that no element passes keeps nothing.
proof fn lemma_filter_none<T>(s: Seq<T>, p: spec_fn(T) -> bool)
    requires
        forall|i: int| 0 <= i < s.len() ==> !p(#[trigger] s[i]),
    ensures
        s.filter(p).len() == 0,
    decreases s.len(),
{
    reveal(Seq::filter);
    if s.len() > 0 {
        lemma_filter_none(s.drop_last(), p);
    }
}

/// An ascending sequence holds at most one element in any one place of the
/// order: the filter for the place of `x` keeps that element, or nothing.
proof fn lemma_place_in_ascending<T: Ord>(s: Seq<T>, x: T)
    requires
        lawful::<T>(),
        ascending(s),
    ensures
        !matched(s, x) ==> s.filter(same_place(x)).len() == 0,
        forall|i: int|
            0 <= i < s.len() && equiv(#[trigger] s[i], x) ==> s.filter(same_place(x)) == seq![s[i]],
    decreases s.len(),
{
    let p = same_place(x);
    if s.len() > 0 {
        let rest = s.skip(1);
        assert(s =~= seq![s[0]] + rest);
        rest.lemma_filter_prepend(s[0], p);
        lemma_place_in_ascending(rest, x);
        lemma_trichotomy(s[0], x);
        if equiv(s[0], x) {
            // The rest comes after the front element, and so after `x`.
            assert forall|i: int| 0 <= i < rest.len() implies !p(#[trigger] rest[i]) by {
                lemma_equiv_then_lt(x, s[0], rest[i]);
            }
            lemma_filter_none(rest, p);
        } else {
            assert forall|i: int| 0 <= i < rest.len() && equiv(s[i + 1], x) implies equiv(
                #[trigger] rest[i],
                x,
            ) by {}
        }
    }
}

/// Every element is equivalent to the one that starts its run.
proof fn lemma_run_start<T: Ord>(s: Seq<T>, i: int) -> (start: int)
    requires
        lawful::<T>(),
        0 <= i < s.len(),
    ensures
        0 <= start <= i,
        starts_run(s, start),
        equiv(s[start], s[i]),
    decreases i,
{
    lemma_equiv_reflexive(s[i]);
    if starts_run(s, i) {
        i
    } else {
        let start = lemma_run_start(s, i - 1);
        lemma_equiv_transitive(s[start], s[i - 1], s[i]);
        start
    }
}

/// A sequence holds an element in the place of `x` when the filter for that
/// place keeps something.
proof fn lemma_place_taken<T: Ord>(s: Seq<T>, x: T)
    requires
        lawful::<T>(),
    ensures
        matched(s, x) <==> s.filter(same_place(x)).len() > 0,
{
    let p = same_place(x);
    if matched(s, x) {
        let i = choose|i: int| 0 <= i < s.len() && equiv(#[trigger] s[i], x);
        lemma_trichotomy(x, s[i]);
        s.lemma_filter_contains(p, i);
    }
    if s.filter(p).len() > 0 {
        let i = lemma_filter_front(s, p);
        lemma_trichotomy(x, s[i]);
    }
}

/// Sorting stably and removing the repeats leaves, whatever the sequence
/// held, one element for each place of the order that it held an element
/// in: the first of them. What is left ascends strictly.
pub proof fn lemma_sorted_distinct<T: Ord>(before: Seq<T>, sorted: Seq<T>)
    requires
        lawful::<T>(),
        stably_sorted(before, sorted),
    ensures
        ascending(without_repeats(sorted)),
        forall|x: T| matched(without_repeats(sorted), x) <==> matched(before, x),
        forall|i: int|
            0 <= i < without_repeats(sorted).len() ==> first_in_place(
                before,
                #[trigger] without_repeats(sorted)[i],
            ),
{
    let kept = without_repeats(sorted);
    lemma_without_repeats_ascending(sorted);
    lemma_without_repeats_members(sorted);
    assert forall|x: T| matched(kept, x) <==> matched(before, x) by {
        lemma_place_taken(before, x);
        lemma_place_taken(sorted, x);
        if matched(kept, x) {
            let k = choose|k: int| 0 <= k < kept.len() && equiv(#[trigger] kept[k], x);
            assert(kept.contains(kept[k]));
            let i = choose|i: int|
                0 <= i < sorted.len() && #[trigger] sorted[i] == kept[k] && starts_run(sorted, i);
            assert(equiv(sorted[i], x));
        }
        if matched(sorted, x) {
            let i = choose|i: int| 0 <= i < sorted.len() && equiv(#[trigger] sorted[i], x);
            let start = lemma_run_start(sorted, i);
            lemma_equiv_transitive(sorted[start], sorted[i], x);
            assert(kept.contains(sorted[start]));
            let k = choose|k: int| 0 <= k < kept.len() && kept[k] == sorted[start];
            assert(equiv(kept[k], x));
        }
    }
    assert forall|k: int| 0 <= k < kept.len() implies first_in_place(
        before,
        #[trigger] kept[k],
    ) by {
        let x = kept[k];
        let p = same_place(x);
        assert(kept.contains(x));
        let i = choose|i: int|
            0 <= i < sorted.len() && #[trigger] sorted[i] == x && starts_run(sorted, i);
        lemma_equiv_reflexive(x);
        sorted.lemma_filter_contains(p, i);
        let first = lemma_filter_front(sorted, p);
        if first < i {
            lemma_at_most(sorted, first, i - 1, i);
            lemma_trichotomy(x, sorted[first]);
        }
    }
}

/// Sorting the two inputs together, stably, and removing the repeats gives
/// the union of the two, the same that a merge forms: from each pair of
/// equivalent elements the one of `a` stays, because it stood first.
pub proof fn lemma_sorted_is_merged<T: Ord>(a: Seq<T>, b: Seq<T>, sorted: Seq<T>)
    requires
        lawful::<T>(),
        ascending(a),
        ascending(b),
        stably_sorted(a + b, sorted),
    ensures
        is_union(a, b, without_repeats(sorted)),
        without_repeats(sorted) == merged(a, b),
{
    let kept = without_repeats(sorted);
    lemma_without_repeats_ascending(sorted);
    lemma_without_repeats_members(sorted);
    assert forall|x: T| kept.contains(x) <==> a.contains(x) || (b.contains(x) && !matched(a, x)) by {
        // The elements in the place of `x` are at most one of `a` and then
        // at most one of `b`, before the sort and after it.
        let p = same_place(x);
        lemma_equiv_reflexive(x);
        lemma_place_in_ascending(a, x);
        lemma_place_in_ascending(b, x);
        if kept.contains(x) {
            // `x` starts a run, so it is the first in its place.
            let i = choose|i: int|
                0 <= i < sorted.len() && #[trigger] sorted[i] == x && starts_run(sorted, i);
            sorted.lemma_filter_contains(p, i);
            let first = lemma_filter_front(sorted, p);
            if first < i {
                lemma_at_most(sorted, first, i - 1, i);
            }
        }
        if a.contains(x) || (b.contains(x) && !matched(a, x)) {
            // `x` is the first in its place, so it starts a run.
            let first = lemma_filter_front(sorted, p);
            if first > 0 {
                lemma_trichotomy(x, sorted[first - 1]);
            }
        }
    }
    lemma_union_is_merged(a, b, kept);
}

} // verus!
