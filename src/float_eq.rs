use vstd::prelude::*;

verus! {

/// Equality up to a tolerance, for values that accumulate rounding error.
///
/// Each implementing type fixes what "close enough" means for it through
/// `float_eq_spec`; `float_eq` computes exactly that relation.
pub trait FloatEq {
    /// The tolerant equality relation of the implementing type.
    spec fn float_eq_spec(&self, other: &Self) -> bool;

    fn float_eq(&self, other: &Self) -> (r: bool)
        ensures
            r == self.float_eq_spec(other),
    ;
}

/// Checks that `left` and `right` are equal within tolerance.
///
/// Verified callers must establish the equality; unverified callers get a
/// runtime check that aborts when it does not hold.
pub fn assert_float_eq<T: FloatEq>(left: T, right: T)
    requires
        left.float_eq_spec(&right),
{
    let same = left.float_eq(&right);
    vstd::pervasive::runtime_assert(same);
}

/// Checks that `left` and `right` differ by more than the tolerance.
///
/// Verified callers must establish the difference; unverified callers get a
/// runtime check that aborts when it does not hold.
pub fn assert_float_ne<T: FloatEq>(left: T, right: T)
    requires
        !left.float_eq_spec(&right),
{
    let same = left.float_eq(&right);
    vstd::pervasive::runtime_assert(!same);
}

} // verus!
