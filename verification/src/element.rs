//! What generic code asks of the values it stores and compares.
use vstd::prelude::*;
use vstd::std_specs::cmp::PartialEqSpec;

verus! {

/// Comparing two values of `T` with `==` tells whether they are the same
/// value.
pub open spec fn exact_eq<T: PartialEq>() -> bool {
    &&& T::obeys_eq_spec()
    &&& forall|a: T, b: T| #[trigger] a.eq_spec(&b) == (a == b)
}

/// A clone of a value of `T` is the same value.
pub open spec fn exact_clone<T: Clone>() -> bool {
    forall|a: T, b: T| #[trigger] cloned(a, b) ==> a == b
}

/// Clones a value of a type whose clones are the same value.
pub fn duplicate<T: Clone>(x: &T) -> (r: T)
    requires
        exact_clone::<T>(),
    ensures
        r == *x,
{
    let r = x.clone();
    assert(cloned(*x, r));
    r
}

} // verus!
