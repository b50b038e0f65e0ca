//! What the matrix algorithms assume of their element type.
//!
//! The element type is only known through the standard operator traits.
//! vstd gives each operation a precondition (`add_req`, ...) and, for types
//! that declare it, a specification function (`add_spec`, ...) that the
//! operation computes: the machine integers declare theirs, the floating
//! point types do not.

use core::ops::{Add, Div, Mul, Neg, Sub};
use vstd::prelude::*;
use vstd::std_specs::cmp::PartialEqSpec;
use vstd::std_specs::convert::FromSpec;
use vstd::std_specs::ops::{AddSpec, DivSpec, MulSpec, NegSpec, SubSpec};

verus! {

/// Addition, subtraction, multiplication and negation on `T` may be applied
/// to any operands.
pub open spec fn ring_total<T>() -> bool where
    T: Add<Output = T> + Sub<Output = T> + Mul<Output = T> + Neg<Output = T>,
 {
    &&& forall|a: T, b: T| #[trigger] a.add_req(b)
    &&& forall|a: T, b: T| #[trigger] a.sub_req(b)
    &&& forall|a: T, b: T| #[trigger] a.mul_req(b)
    &&& forall|a: T| #[trigger] a.neg_req()
}

/// Addition, subtraction, multiplication, negation and the conversion of
/// small integers into `T` compute what their specification functions say.
pub open spec fn ring_exact<T>() -> bool where
    T: Add<Output = T> + Sub<Output = T> + Mul<Output = T> + Neg<Output = T> + From<i8>,
 {
    &&& T::obeys_add_spec()
    &&& T::obeys_sub_spec()
    &&& T::obeys_mul_spec()
    &&& T::obeys_neg_spec()
    &&& T::obeys_from_spec()
}

/// The ring operations and division on `T` may be applied to any operands.
pub open spec fn field_total<T>() -> bool where
    T: Add<Output = T> + Sub<Output = T> + Mul<Output = T> + Div<Output = T> + Neg<Output = T>,
 {
    &&& ring_total::<T>()
    &&& forall|a: T, b: T| #[trigger] a.div_req(b)
}

/// The ring operations, division and equality on `T` compute what their
/// specification functions say.
pub open spec fn field_exact<T>() -> bool where
    T: Add<Output = T> + Sub<Output = T> + Mul<Output = T> + Div<Output = T> + Neg<Output = T>
        + PartialEq + From<i8>,
 {
    &&& ring_exact::<T>()
    &&& T::obeys_div_spec()
    &&& T::obeys_eq_spec()
}

/// The zero of `T`, as converted from the integer 0.
pub open spec fn zero<T: From<i8>>() -> T {
    T::from_spec(0i8)
}

/// The unit of `T`, as converted from the integer 1.
pub open spec fn one<T: From<i8>>() -> T {
    T::from_spec(1i8)
}

} // verus!
