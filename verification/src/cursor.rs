//! Consuming iterators over vectors: the operations on them that the merges
//! use, each with what it does to the items that are still to come.

use std::vec::IntoIter;
use vstd::prelude::*;
use vstd::std_specs::iter::IteratorSpec;

verus! {

/// Calls `IntoIter::as_slice`, which is taken on trust to return the items
/// that the iterator has not yet handed out, in the order in which it will
/// hand them out.
#[verifier::external_body]
pub(crate) fn as_slice<T>(iter: &IntoIter<T>) -> (items: &[T])
    ensures
        items@ == iter.remaining(),
{
    iter.as_slice()
}

/// Takes the next item of an iterator, if one is left: the first of those
/// that were still to come.
pub(crate) fn next<I: Iterator>(iter: &mut I) -> (item: Option<I::Item>)
    requires
        (*old(iter)).obeys_prophetic_iter_laws(),
    ensures
        (*final(iter)).obeys_prophetic_iter_laws(),
        (*old(iter)).remaining().len() == 0 ==> item is None,
        (*old(iter)).remaining().len() == 0
            ==> (*final(iter)).remaining() == (*old(iter)).remaining(),
        (*old(iter)).remaining().len() > 0 ==> item == Some((*old(iter)).remaining()[0]),
        (*old(iter)).remaining().len() > 0
            ==> (*final(iter)).remaining() == (*old(iter)).remaining().skip(1),
{
    iter.next()
}

/// Calls `Vec::extend` with a consuming iterator over another vector, which
/// is taken on trust to append the items that the iterator has not yet
/// handed out, in order.
#[verifier::external_body]
pub(crate) fn extend<T>(vec: &mut Vec<T>, rest: IntoIter<T>)
    ensures
        final(vec)@ == old(vec)@ + rest.remaining(),
{
    vec.extend(rest);
}

} // verus!
