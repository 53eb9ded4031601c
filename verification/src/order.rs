//! The total order that the merges rely on.
//!
//! Elements are compared through `Ord`. The contracts speak of the order
//! through [`lt`] and [`equiv`], and [`lawful`] says that the type's
//! comparison operators all follow one total order.

use core::cmp::Ordering;
use vstd::laws_cmp::{
    obeys_cmp, obeys_cmp_ord, obeys_cmp_partial_ord, obeys_partial_cmp_spec_properties,
};
use vstd::laws_eq::obeys_eq_spec_properties;
use vstd::prelude::*;
use vstd::std_specs::cmp::{OrdSpec, PartialEqSpec, PartialOrdSpec};

verus! {

/// `T`'s comparison operators are deterministic and agree with one total
/// order on `T`.
pub open spec fn lawful<T: Ord>() -> bool {
    obeys_cmp::<T>()
}

/// `x` comes strictly before `y`.
pub open spec fn lt<T: Ord>(x: T, y: T) -> bool {
    x.cmp_spec(&y) == Ordering::Less
}

/// `x` and `y` occupy the same place in the order. Two such values need not
/// be identical: a record ordered by its key alone is equivalent to every
/// record with that key.
pub open spec fn equiv<T: Ord>(x: T, y: T) -> bool {
    x.cmp_spec(&y) == Ordering::Equal
}

/// What `lawful` promises of the executable operators: each returns what
/// its model in the contracts says, and `==` and `<` mean `equiv` and `lt`.
pub proof fn lemma_operators<T: Ord>()
    requires
        lawful::<T>(),
    ensures
        T::obeys_cmp_spec(),
        T::obeys_partial_cmp_spec(),
        T::obeys_eq_spec(),
        forall|x: T, y: T| #[trigger] x.eq_spec(&y) <==> equiv(x, y),
        forall|x: T, y: T| #[trigger] x.partial_cmp_spec(&y) == Some(x.cmp_spec(&y)),
{
    reveal(obeys_cmp_ord);
    reveal(obeys_cmp_partial_ord);
}

/// Exactly one of `lt(x, y)`, `equiv(x, y)` and `lt(y, x)` holds.
pub proof fn lemma_trichotomy<T: Ord>(x: T, y: T)
    requires
        lawful::<T>(),
    ensures
        lt(x, y) || equiv(x, y) || lt(y, x),
        !(lt(x, y) && equiv(x, y)),
        !(lt(x, y) && lt(y, x)),
        !(equiv(x, y) && lt(y, x)),
        lt(y, x) <==> x.cmp_spec(&y) == Ordering::Greater,
        equiv(x, y) <==> equiv(y, x),
{
    reveal(obeys_cmp_ord);
    reveal(obeys_partial_cmp_spec_properties);
}

/// Every value is equivalent to itself.
pub proof fn lemma_equiv_reflexive<T: Ord>(x: T)
    requires
        lawful::<T>(),
    ensures
        equiv(x, x),
{
    lemma_trichotomy(x, x);
}

/// `lt` is transitive.
pub proof fn lemma_lt_transitive<T: Ord>(x: T, y: T, z: T)
    requires
        lawful::<T>(),
        lt(x, y),
        lt(y, z),
    ensures
        lt(x, z),
{
    reveal(obeys_cmp_ord);
    reveal(obeys_partial_cmp_spec_properties);
}

/// `equiv` is transitive.
pub proof fn lemma_equiv_transitive<T: Ord>(x: T, y: T, z: T)
    requires
        lawful::<T>(),
        equiv(x, y),
        equiv(y, z),
    ensures
        equiv(x, z),
{
    reveal(obeys_cmp_ord);
    reveal(obeys_cmp_partial_ord);
    reveal(obeys_eq_spec_properties);
}

/// A value equivalent to one that comes before `z` comes before `z` too.
pub proof fn lemma_equiv_then_lt<T: Ord>(x: T, y: T, z: T)
    requires
        lawful::<T>(),
        equiv(x, y),
        lt(y, z),
    ensures
        lt(x, z),
{
    lemma_trichotomy(x, z);
    lemma_trichotomy(x, y);
    if equiv(x, z) {
        lemma_equiv_transitive(y, x, z);
    } else if lt(z, x) {
        lemma_lt_transitive(y, z, x);
    }
}

} // verus!

