//! Merging two sorted, duplicate-free vectors into their sorted,
//! duplicate-free union.
//!
//! Each public function of this module is one strategy for the same task.
//! The order of the elements must be total. Where both inputs ascend
//! strictly, every strategy returns the union that `merged` describes:
//! strictly ascending, with the elements of both inputs, and of two
//! equivalent elements the one of the first input.
//!
//! On other inputs the baseline still returns a strictly ascending vector
//! with one element for each place of the order that an input holds an
//! element in, and the merges by iterator and by draining return what
//! `merged` says of such inputs. The merge over raw storage asks for
//! ascending inputs.

use crate::ascending::{ascending, lemma_matched_in_either, matched};
use crate::baseline::{dedup, first_in_place, lemma_sorted_distinct, lemma_sorted_is_merged, sort};
use crate::cursor::{as_slice, extend, next};
use crate::order::{lawful, lemma_operators, lemma_trichotomy};
use crate::union::{
    duplicates, is_union, lemma_merged_accounts, lemma_merged_len_bounds, lemma_union_is_merged,
    merged,
};
use core::cmp::Ordering;
use std::vec::IntoIter;
use vstd::prelude::*;
use vstd::std_specs::cmp::OrdSpec;
use vstd::std_specs::iter::IteratorSpec;

verus! {

/// The baseline: puts the two inputs together, sorts the whole, and removes
/// each element that is equivalent to its predecessor, all in the storage of
/// `a`, or in that of `b` where `a` is empty. The sort is stable, so that of equivalent elements the one that
/// stood first stays: the one of `a` before the one of `b`. The inputs need
/// not be sorted. Where they ascend strictly, the result is their union as
/// the other merges form it.
pub fn naive<T: Ord>(a: Vec<T>, b: Vec<T>) -> (out: Vec<T>)
    requires
        lawful::<T>(),
    ensures
        ascending(out@),
        forall|x: T| matched(out@, x) <==> matched(a@, x) || matched(b@, x),
        forall|i: int| 0 <= i < out@.len() ==> first_in_place(a@ + b@, #[trigger] out@[i]),
        ascending(a@) && ascending(b@) ==> out@ == merged(a@, b@),
        ascending(a@) && ascending(b@) ==> is_union(a@, b@, out@),
        ascending(a@) && ascending(b@) ==> out@.len() + duplicates(a@, b@).len() == a@.len()
            + b@.len(),
        a@.len() == 0 && ascending(b@) ==> out@ == b@,
        b@.len() == 0 && ascending(a@) ==> out@ == a@,
{
    let ghost (first, second) = (a@, b@);
    let mut a = a;
    let mut b = b;
    // All is done in the storage of `a`. With nothing in `a`, the storage
    // of `b` takes its part, and nothing has to be copied.
    if a.is_empty() {
        std::mem::swap(&mut a, &mut b);
    }
    a.append(&mut b);
    sort(&mut a);
    let ghost sorted = a@;
    dedup(&mut a);
    proof {
        lemma_sorted_distinct(first + second, sorted);
        assert forall|x: T| matched(a@, x) <==> matched(first, x) || matched(second, x) by {
            lemma_matched_in_either(first, second, x);
        }
        if ascending(first) && ascending(second) {
            lemma_sorted_is_merged(first, second, sorted);
            lemma_merged_accounts(first, second);
        }
    }
    a
}

/// Takes the next item of an iterator that is known to have one.
fn next_unchecked<T>(iter: &mut IntoIter<T>) -> (item: T)
    requires
        (*old(iter)).remaining().len() > 0,
    ensures
        item == (*old(iter)).remaining()[0],
        (*final(iter)).remaining() == (*old(iter)).remaining().skip(1),
{
    match next(iter) {
        Some(x) => x,
        None => vstd::pervasive::unreached(),
    }
}

/// Appends `value` to a vector that was sized for `reserved` elements and
/// holds fewer than that: the vector stays within what it was sized for.
fn push_unchecked<T>(vec: &mut Vec<T>, value: T, Ghost(reserved): Ghost<nat>)
    requires
        old(vec)@.len() < reserved,
    ensures
        final(vec)@ == old(vec)@.push(value),
        final(vec)@.len() <= reserved,
{
    vec.push(value);
}

/// Merges with a pair of consuming iterators. While both have items left,
/// the lesser front item moves to the output; of two equivalent front items
/// the one of `a` moves and the one of `b` is dropped. What is left of the
/// other iterator when one runs out follows in order.
pub fn into_iter<T: Ord>(a: Vec<T>, b: Vec<T>) -> (out: Vec<T>)
    requires
        lawful::<T>(),
    ensures
        out@ == merged(a@, b@),
        a@.len() <= out@.len(),
        b@.len() <= out@.len(),
        out@.len() <= a@.len() + b@.len(),
        a@.len() == 0 ==> out@ == b@,
        b@.len() == 0 ==> out@ == a@,
        ascending(a@) && ascending(b@) ==> is_union(a@, b@, out@),
        ascending(a@) && ascending(b@) ==> out@.len() + duplicates(a@, b@).len() == a@.len()
            + b@.len(),
{
    proof {
        lemma_merged_len_bounds(a@, b@);
        if ascending(a@) && ascending(b@) {
            lemma_union_is_merged(a@, b@, merged(a@, b@));
            lemma_merged_accounts(a@, b@);
        }
    }
    if a.is_empty() {
        return b;
    }
    if b.is_empty() {
        return a;
    }
    let ghost whole = merged(a@, b@);
    let ghost reserved = a@.len() + b@.len();
    // Room for all of both inputs, so that the output never has to grow.
    let mut out = Vec::with_capacity(a.len().saturating_add(b.len()));

    let mut a = a.into_iter();
    let mut b = b.into_iter();

    while !as_slice(&a).is_empty() && !as_slice(&b).is_empty()
        invariant
            lawful::<T>(),
            out@ + merged(a.remaining(), b.remaining()) == whole,
            out@.len() + a.remaining().len() + b.remaining().len() <= reserved,
        decreases reserved - out@.len(),
    {
        proof {
            lemma_operators::<T>();
        }
        let a_elem = &as_slice(&a)[0];
        let b_elem = &as_slice(&b)[0];
        match a_elem.cmp(b_elem) {
            Ordering::Less => {
                push_unchecked(&mut out, next_unchecked(&mut a), Ghost(reserved));
            },
            Ordering::Greater => {
                push_unchecked(&mut out, next_unchecked(&mut b), Ghost(reserved));
            },
            Ordering::Equal => {
                push_unchecked(&mut out, next_unchecked(&mut a), Ghost(reserved));
                let _ = next_unchecked(&mut b);
            },
        }
    }
    if !as_slice(&a).is_empty() {
        while !as_slice(&a).is_empty()
            invariant
                out@ + a.remaining() == whole,
                out@.len() + a.remaining().len() <= reserved,
            decreases reserved - out@.len(),
        {
            push_unchecked(&mut out, next_unchecked(&mut a), Ghost(reserved));
        }
    } else {
        while !as_slice(&b).is_empty()
            invariant
                out@ + b.remaining() == whole,
                out@.len() + b.remaining().len() <= reserved,
            decreases reserved - out@.len(),
        {
            push_unchecked(&mut out, next_unchecked(&mut b), Ghost(reserved));
        }
    }
    out
}

/// Merges as [`into_iter`] does, with checked access only: each item is
/// taken through `next`, whose answer is examined, and what is left of the
/// longer input is appended in one call.
pub fn into_iter_safer<T: Ord>(a: Vec<T>, b: Vec<T>) -> (out: Vec<T>)
    requires
        lawful::<T>(),
    ensures
        out@ == merged(a@, b@),
        a@.len() <= out@.len(),
        b@.len() <= out@.len(),
        out@.len() <= a@.len() + b@.len(),
        a@.len() == 0 ==> out@ == b@,
        b@.len() == 0 ==> out@ == a@,
        ascending(a@) && ascending(b@) ==> is_union(a@, b@, out@),
        ascending(a@) && ascending(b@) ==> out@.len() + duplicates(a@, b@).len() == a@.len()
            + b@.len(),
{
    proof {
        lemma_merged_len_bounds(a@, b@);
        if ascending(a@) && ascending(b@) {
            lemma_union_is_merged(a@, b@, merged(a@, b@));
            lemma_merged_accounts(a@, b@);
        }
    }
    if a.is_empty() {
        return b;
    }
    if b.is_empty() {
        return a;
    }
    let ghost whole = merged(a@, b@);
    let ghost reserved = a@.len() + b@.len();
    // Room for all of both inputs, so that the output never has to grow.
    let mut out = Vec::with_capacity(a.len().saturating_add(b.len()));

    let mut a = a.into_iter();
    let mut b = b.into_iter();

    while !as_slice(&a).is_empty() && !as_slice(&b).is_empty()
        invariant
            lawful::<T>(),
            out@ + merged(a.remaining(), b.remaining()) == whole,
            out@.len() + a.remaining().len() + b.remaining().len() <= reserved,
        decreases reserved - out@.len(),
    {
        proof {
            lemma_operators::<T>();
        }
        let a_elem = &as_slice(&a)[0];
        let b_elem = &as_slice(&b)[0];
        match a_elem.cmp(b_elem) {
            Ordering::Less => {
                push_unchecked(&mut out, next(&mut a).unwrap(), Ghost(reserved));
            },
            Ordering::Greater => {
                push_unchecked(&mut out, next(&mut b).unwrap(), Ghost(reserved));
            },
            Ordering::Equal => {
                push_unchecked(&mut out, next(&mut a).unwrap(), Ghost(reserved));
                let _ = next(&mut b).unwrap();
            },
        }
    }

    if !as_slice(&a).is_empty() {
        extend(&mut out, a);
    } else {
        extend(&mut out, b);
    }

    out
}

/// A forward cursor over the storage taken over from one input. It stands
/// at the first element that has not left the storage. An element leaves
/// through `advance`, once, and the cursor cannot reach it again.
struct RawIter<T> {
    items: IntoIter<T>,
}

impl<T> RawIter<T> {
    /// No element is left in the storage.
    fn is_empty(&self) -> (empty: bool)
        ensures
            empty == (self.items.remaining().len() == 0),
    {
        as_slice(&self.items).is_empty()
    }

    /// The number of elements that are left in the storage.
    fn len(&self) -> (count: usize)
        ensures
            count == self.items.remaining().len(),
    {
        as_slice(&self.items).len()
    }

    /// The element at the cursor, which stays where it is.
    fn front(&self) -> (item: &T)
        requires
            self.items.remaining().len() > 0,
        ensures
            *item == self.items.remaining()[0],
    {
        &as_slice(&self.items)[0]
    }

    /// Moves the element at the cursor out of the storage and steps past its
    /// slot. The caller vouches that an element is there.
    fn advance(&mut self) -> (item: T)
        requires
            old(self).items.remaining().len() > 0,
        ensures
            item == old(self).items.remaining()[0],
            final(self).items.remaining() == old(self).items.remaining().skip(1),
    {
        next_unchecked(&mut self.items)
    }

    /// Moves all that is left to the end of `out`, in one piece and in
    /// order, and gives the emptied storage back.
    fn relocate_rest(self, out: &mut Vec<T>)
        ensures
            final(out)@ == old(out)@ + self.items.remaining(),
    {
        extend(out, self.items);
    }

    /// Gives the storage back once every element has left it.
    fn release(self)
        requires
            self.items.remaining().len() == 0,
    {
    }
}

/// Merges by walking a cursor over the storage of each input and writing
/// into an output sized for both. Each element leaves its storage exactly
/// once: it is moved to the output, or, being the duplicate of an element of
/// `a`, dropped. What is left of one input when the other runs out moves
/// over in one piece, and each storage is given back once it is empty.
pub fn raw_storage<T: Ord>(a: Vec<T>, b: Vec<T>) -> (out: Vec<T>)
    requires
        lawful::<T>(),
        ascending(a@),
        ascending(b@),
    ensures
        out@ == merged(a@, b@),
        is_union(a@, b@, out@),
        out@.len() + duplicates(a@, b@).len() == a@.len() + b@.len(),
        out@.to_multiset().add(duplicates(a@, b@).to_multiset()) == a@.to_multiset().add(
            b@.to_multiset(),
        ),
        a@.len() == 0 ==> out@ == b@,
        b@.len() == 0 ==> out@ == a@,
{
    proof {
        lemma_union_is_merged(a@, b@, merged(a@, b@));
        lemma_merged_accounts(a@, b@);
    }
    if a.is_empty() {
        return b;
    }
    if b.is_empty() {
        return a;
    }
    let ghost whole = merged(a@, b@);
    let ghost reserved = a@.len() + b@.len();

    let mut ait = RawIter { items: a.into_iter() };
    let mut bit = RawIter { items: b.into_iter() };

    // Room for all of both inputs, so that the output never has to grow.
    let mut out: Vec<T> = Vec::with_capacity(ait.len().saturating_add(bit.len()));

    // While elements remain in both storages.
    while !ait.is_empty() && !bit.is_empty()
        invariant
            lawful::<T>(),
            out@ + merged(ait.items.remaining(), bit.items.remaining()) == whole,
            out@.len() + ait.items.remaining().len() + bit.items.remaining().len() <= reserved,
        decreases reserved - out@.len(),
    {
        proof {
            lemma_operators::<T>();
        }
        match ait.front().cmp(bit.front()) {
            Ordering::Less => {
                push_unchecked(&mut out, ait.advance(), Ghost(reserved));
            },
            Ordering::Greater => {
                push_unchecked(&mut out, bit.advance(), Ghost(reserved));
            },
            Ordering::Equal => {
                push_unchecked(&mut out, ait.advance(), Ghost(reserved));
                // The duplicate is not moved to the output: it is dropped here.
                let _ = bit.advance();
            },
        }
    }

    if !ait.is_empty() {
        ait.relocate_rest(&mut out);
        bit.release();
    } else {
        bit.relocate_rest(&mut out);
        ait.release();
    }

    out
}

/// How the next item of `iter` compares with `elem`, if an item is left.
fn peek_order<T: Ord>(iter: &IntoIter<T>, elem: &T) -> (order: Option<Ordering>)
    requires
        lawful::<T>(),
    ensures
        iter.remaining().len() == 0 ==> order is None,
        iter.remaining().len() > 0 ==> order == Some(iter.remaining()[0].cmp_spec(elem)),
{
    proof {
        lemma_operators::<T>();
    }
    match as_slice(iter).first() {
        Some(front) => Some(front.cmp(elem)),
        None => None,
    }
}

/// What the draining merge still has to put out, with `first` and `second`
/// as it holds them: after a swap the inputs have changed places.
spec fn pending<T: Ord>(swapped: bool, first: Seq<T>, second: Seq<T>) -> Seq<T> {
    if swapped {
        merged(second, first)
    } else {
        merged(first, second)
    }
}

/// Merges by draining. The input that starts with the lesser element is
/// taken as the first, and its front element opens the output. Then, for
/// each further element of the first input, the pending elements of the
/// second that come before it are moved over, and the element follows.
/// Where the two meet in an equivalent pair, the element of `a` goes to the
/// output and the one of `b` is dropped, swap or no swap. What is left of
/// the second input closes the output.
pub fn old_datafrog<T: Ord>(a: Vec<T>, b: Vec<T>) -> (out: Vec<T>)
    requires
        lawful::<T>(),
    ensures
        out@ == merged(a@, b@),
        a@.len() <= out@.len(),
        b@.len() <= out@.len(),
        out@.len() <= a@.len() + b@.len(),
        a@.len() == 0 ==> out@ == b@,
        b@.len() == 0 ==> out@ == a@,
        ascending(a@) && ascending(b@) ==> is_union(a@, b@, out@),
        ascending(a@) && ascending(b@) ==> out@.len() + duplicates(a@, b@).len() == a@.len()
            + b@.len(),
{
    proof {
        lemma_merged_len_bounds(a@, b@);
        if ascending(a@) && ascending(b@) {
            lemma_union_is_merged(a@, b@, merged(a@, b@));
            lemma_merged_accounts(a@, b@);
        }
        lemma_operators::<T>();
    }
    if a.is_empty() {
        return b;
    }
    if b.is_empty() {
        return a;
    }
    let ghost whole = merged(a@, b@);
    let ghost reserved = a@.len() + b@.len();
    let mut a = a;
    let mut b = b;

    // Make sure that `a` starts with the lesser element.
    proof {
        lemma_trichotomy(a@[0], b@[0]);
    }
    let swapped = a[0] > b[0];
    if swapped {
        std::mem::swap(&mut a, &mut b);
    }

    // Room for all of both inputs, so that the output never has to grow.
    let mut out = Vec::with_capacity(a.len().saturating_add(b.len()));
    let mut a = a.into_iter();
    let mut b = b.into_iter();

    out.push(next_unchecked(&mut a));
    // After a swap the fronts differ, so that this drops an element of the
    // second input only.
    if matches!(peek_order(&b, &out[0]), Some(Ordering::Equal)) {
        let _ = next(&mut b);
    }

    while !as_slice(&a).is_empty()
        invariant
            lawful::<T>(),
            out@ + pending(swapped, a.remaining(), b.remaining()) == whole,
            out@.len() + a.remaining().len() + b.remaining().len() <= reserved,
        decreases reserved - out@.len(),
    {
        let ghost ra = a.remaining();
        let ghost start = out@.len();
        let elem = next_unchecked(&mut a);
        while matches!(peek_order(&b, &elem), Some(Ordering::Less))
            invariant
                lawful::<T>(),
                ra.len() > 0,
                elem == ra[0],
                a.remaining() == ra.skip(1),
                out@ + pending(swapped, ra, b.remaining()) == whole,
                start <= out@.len(),
                out@.len() + ra.len() + b.remaining().len() <= reserved,
            decreases reserved - out@.len(),
        {
            let ghost rb = b.remaining();
            proof {
                lemma_trichotomy(elem, rb[0]);
            }
            out.push(next_unchecked(&mut b));
        }
        let ghost rb = b.remaining();
        proof {
            lemma_trichotomy(elem, rb[0]);
        }
        if matches!(peek_order(&b, &elem), Some(Ordering::Equal)) {
            if swapped {
                // The pending element is the one of the first input: it
                // stays, and `elem` is dropped.
                out.push(next_unchecked(&mut b));
            } else {
                let _ = next(&mut b);
                out.push(elem);
            }
        } else {
            out.push(elem);
        }
    }

    // Finish draining the second input.
    extend(&mut out, b);
    out
}

} // verus!
