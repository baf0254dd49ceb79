//! The comparison that places values in the tree, as a relation that
//! contracts can speak of.

use vstd::prelude::*;
use vstd::std_specs::cmp::PartialOrdIs;
use vstd::std_specs::cmp::PartialOrdSpec;

verus! {

/// `a <= b`, as `PartialOrd` defines it for `T`.
pub open spec fn le<T: PartialOrd>(a: T, b: T) -> bool {
    a.is_le(&b)
}

/// The executable `<=` on `T` is a function of the two values and returns
/// what [`le`] says. This holds of the integer types; of a type with an
/// order of its own it holds where its `PartialOrd` is given with its
/// meaning.
pub open spec fn le_is_computed<T: PartialOrd>() -> bool {
    T::obeys_partial_cmp_spec()
}

/// Any two values are comparable, one way or the other.
pub open spec fn connex<T: PartialOrd>() -> bool {
    forall|a: T, b: T| #[trigger] le(a, b) || le(b, a)
}

/// `a <= b` and `b <= c` give `a <= c`.
pub open spec fn transitive<T: PartialOrd>() -> bool {
    forall|a: T, b: T, c: T| #[trigger] le(a, b) && #[trigger] le(b, c) ==> le(a, c)
}

/// `<=` on `T` compares any two values and is transitive: a total order,
/// but that two different values may be equal in it.
pub open spec fn total_preorder<T: PartialOrd>() -> bool {
    connex::<T>() && transitive::<T>()
}

} // verus!
