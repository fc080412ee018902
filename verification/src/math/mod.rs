//! Number theory on the machine integers.
//!
//! The routines are written once, for every type that implements
//! [`Numeric`] (or [`Primitive`], where they work on bits), and their
//! contracts speak of the integers that the values of such a type stand for.

use crate::math::divisibility::{magnitude, truncated_div, truncated_rem};
use crate::order::{comparison_is_total, lt};
use core::ops::{Add, BitAnd, BitOr, Div, Mul, Rem, Shl, Shr, Sub};
use vstd::arithmetic::power2::pow2;
use vstd::prelude::*;
use vstd::std_specs::cmp::PartialEqSpec;
use vstd::std_specs::ops::{
    AddSpec, BitAndSpec, BitOrSpec, DivSpec, MulSpec, RemSpec, ShlSpec, ShrSpec, SubSpec,
};

pub mod divisibility;
pub mod gcd;
pub mod integers;
pub mod lcm;

pub use self::gcd::euclid_gcd as gcd;
pub use self::gcd::{binary_gcd, euclid_gcd};
pub use self::lcm::lcm;

verus! {

/// Trait encompassing all numeric types usable by this module.
///
/// A value stands for an integer between `lowest()` and `highest()`, and
/// the operators of the type compute on those integers wherever the result
/// is in range.
pub trait Numeric: PartialEq + PartialOrd + Add<Output = Self> + Sub<Output = Self> + Mul<
    Output = Self,
> + Div<Output = Self> + Rem<Output = Self> + Sized {
    /// The integer that the value stands for.
    spec fn value(self) -> int;

    /// The least integer that a value of the type stands for.
    spec fn lowest() -> int;

    /// The greatest integer that a value of the type stands for.
    spec fn highest() -> int;

    /// The values of the type stand for the integers of its range, one for
    /// one, and `==` and `<` compare those integers.
    proof fn lemma_values()
        ensures
            Self::lowest() == 0 || Self::lowest() == -Self::highest() - 1,
            Self::highest() >= 127,
            forall|a: Self| Self::lowest() <= #[trigger] a.value() <= Self::highest(),
            forall|a: Self, b: Self| #[trigger] a.value() == #[trigger] b.value() ==> a == b,
            Self::obeys_eq_spec(),
            forall|a: Self, b: Self| #[trigger] a.eq_spec(&b) <==> a.value() == b.value(),
            comparison_is_total::<Self>(),
            forall|a: Self, b: Self| #[trigger] lt(a, b) <==> a.value() < b.value(),
    ;

    /// `+`, `-` and `*` compute the sum, the difference and the product
    /// wherever that is in range.
    proof fn lemma_ring(a: Self, b: Self)
        ensures
            Self::obeys_add_spec(),
            Self::obeys_sub_spec(),
            Self::obeys_mul_spec(),
            Self::lowest() <= a.value() + b.value() <= Self::highest() ==> a.add_req(b)
                && a.add_spec(b).value() == a.value() + b.value(),
            Self::lowest() <= a.value() - b.value() <= Self::highest() ==> a.sub_req(b)
                && a.sub_spec(b).value() == a.value() - b.value(),
            Self::lowest() <= a.value() * b.value() <= Self::highest() ==> a.mul_req(b)
                && a.mul_spec(b).value() == a.value() * b.value(),
    ;

    /// `/` and `%` compute the quotient rounded towards zero and its
    /// remainder, wherever the divisor is not 0 and the quotient is in range.
    proof fn lemma_division(a: Self, b: Self)
        requires
            b.value() != 0,
            !(a.value() == Self::lowest() && b.value() == -1),
        ensures
            Self::obeys_div_spec(),
            Self::obeys_rem_spec(),
            a.div_req(b),
            a.div_spec(b).value() == truncated_div(a.value(), b.value()),
            a.rem_req(b),
            a.rem_spec(b).value() == truncated_rem(a.value(), b.value()),
    ;

    /// Return the absolute value of `self`. No-op for unsigned types.
    fn abs(self) -> (r: Self)
        requires
            -self.value() <= Self::highest(),
        ensures
            r.value() == magnitude(self.value()),
    ;

    /// Return the equivalent of `0` for this type.
    fn zero() -> (r: Self)
        ensures
            r.value() == 0,
    ;

    /// Return the equivalent of `1` for this type.
    fn one() -> (r: Self)
        ensures
            r.value() == 1,
    ;
}

/// Trait encompassing all numeric types supporting bitwise operations.
///
/// On values that stand for integers that are not negative, the bitwise
/// operators halve, double and test for oddness.
pub trait Primitive: Numeric + Shl<Self, Output = Self> + Shr<Self, Output = Self> + BitAnd<
    Output = Self,
> + BitOr<Output = Self> {
    /// Shifting right by one halves, and the lowest bit tells odd from even.
    proof fn lemma_low_bit(a: Self, one: Self)
        requires
            a.value() >= 0,
            one.value() == 1,
        ensures
            Self::obeys_shr_spec(),
            Self::obeys_bitand_spec(),
            a.shr_req(one),
            a.shr_spec(one).value() == a.value() / 2,
            a.bitand_req(one),
            a.bitand_spec(one).value() == a.value() % 2,
    ;

    /// The bitwise or of two values is even exactly if both are.
    proof fn lemma_or(a: Self, b: Self)
        requires
            a.value() >= 0,
            b.value() >= 0,
        ensures
            Self::obeys_bitor_spec(),
            a.bitor_req(b),
            a.bitor_spec(b).value() >= 0,
            a.bitor_spec(b).value() % 2 == 0 <==> a.value() % 2 == 0 && b.value() % 2 == 0,
    ;

    /// Shifting left multiplies by a power of two wherever the product is in
    /// range.
    proof fn lemma_shift_left(a: Self, k: Self)
        requires
            a.value() > 0,
            k.value() >= 0,
            a.value() * pow2(k.value() as nat) <= Self::highest(),
        ensures
            Self::obeys_shl_spec(),
            a.shl_req(k),
            a.shl_spec(k).value() == a.value() * pow2(k.value() as nat),
    ;
}

} // verus!
