//! The greatest common divisor, after Euclid and after Stein.

use crate::math::divisibility::{
    common_divisor, is_gcd, lemma_difference_divisors, lemma_divisor_bound, lemma_double_beside_odd,
    lemma_gcd_of_doubles, lemma_gcd_of_same_divisors, lemma_gcd_with_self, lemma_gcd_with_zero,
    lemma_mod_of_negated_divisor, lemma_same_divisors_transitive, lemma_truncated_rem, magnitude,
    same_divisors, truncated_rem,
};
use crate::math::{Numeric, Primitive};
use crate::order::greater;
use vstd::arithmetic::power2::{lemma_pow2_pos, lemma_pow2_unfold, pow2};
use vstd::prelude::*;
use vstd::std_specs::ops::{BitAndSpec, BitOrSpec};

verus! {

/// The greatest common divisor of `u` and `v`, by repeated division.
///
/// The three excluded cases are those in which a quotient or the result
/// would not be in the range of `T`.
pub fn euclid_gcd<T>(u: T, v: T) -> (g: T) where T: Copy + Numeric
    requires
        !(u.value() == T::lowest() && v.value() == -1),
        !(u.value() == -1 && v.value() == T::lowest()),
        T::lowest() < 0 ==> !((u.value() == T::lowest() || u.value() == 0) && (v.value()
            == T::lowest() || v.value() == 0) && (u.value() == T::lowest() || v.value()
            == T::lowest())),
    ensures
        is_gcd(u.value(), v.value(), g.value()),
{
    let mut u = u;
    let mut v = v;
    let ghost u0 = u.value();
    let ghost v0 = v.value();
    let mut t;
    let zero = T::zero();
    proof {
        T::lemma_values();
    }
    while v != zero
        invariant
            zero.value() == 0,
            same_divisors(u.value(), v.value(), u0, v0),
            T::lowest() < 0 ==> (u.value() == T::lowest() ==> v.value() != 0 && v.value() != -1),
            T::lowest() < 0 ==> (v.value() == T::lowest() ==> u.value() != 0 && u.value() != -1
                && u.value() != T::lowest()),
        decreases magnitude(v.value()),
    {
        proof {
            T::lemma_values();
            T::lemma_division(u, v);
            lemma_truncated_rem(u.value(), v.value());
            let r = truncated_rem(u.value(), v.value());
            lemma_same_divisors_transitive(u.value(), v.value(), v.value(), r, v.value(), r);
            lemma_same_divisors_transitive(v.value(), r, u.value(), v.value(), u0, v0);
            if v.value() == T::lowest() && T::lowest() < 0 {
                // dividing by the lowest value leaves the dividend as it is
                assert(r == u.value()) by {
                    lemma_rem_by_larger(u.value(), v.value());
                }
            }
        }
        t = u;
        u = v;
        v = t % v;
    }
    proof {
        T::lemma_values();
        lemma_gcd_with_zero(u.value());
        lemma_gcd_of_same_divisors(u0, v0, u.value(), 0, magnitude(u.value()));
    }
    u.abs()
}

/// Dividing by a number that is larger in magnitude leaves the dividend as
/// remainder.
pub proof fn lemma_rem_by_larger(a: int, b: int)
    requires
        magnitude(a) < magnitude(b),
    ensures
        truncated_rem(a, b) == a,
{
    let x = magnitude(a);
    if b > 0 {
        vstd::arithmetic::div_mod::lemma_small_mod(x as nat, b as nat);
    } else {
        lemma_mod_of_negated_divisor(x, b);
        vstd::arithmetic::div_mod::lemma_small_mod(x as nat, (-b) as nat);
    }
}

/// The greatest common divisor of `a` and `b`, multiplied by two to the
/// power of `shift`, is that of `a0` and `b0`.
pub open spec fn reduced(a: int, b: int, shift: nat, a0: int, b0: int) -> bool {
    forall|g: int| #[trigger] is_gcd(a, b, g) ==> is_gcd(a0, b0, g * pow2(shift))
}

/// Halving two even numbers halves their greatest common divisor.
pub proof fn lemma_reduced_by_halving(a: int, b: int, shift: nat, a0: int, b0: int)
    requires
        reduced(a, b, shift, a0, b0),
        a % 2 == 0,
        b % 2 == 0,
    ensures
        reduced(a / 2, b / 2, shift + 1, a0, b0),
{
    assert forall|g: int| #[trigger] is_gcd(a / 2, b / 2, g) implies is_gcd(
        a0,
        b0,
        g * pow2(shift + 1),
    ) by {
        lemma_gcd_of_doubles(a / 2, b / 2, g);
        assert(is_gcd(a, b, 2 * g));
        lemma_pow2_unfold(shift + 1);
        assert((2 * g) * pow2(shift) == g * pow2(shift + 1)) by (nonlinear_arith)
            requires
                pow2(shift + 1) == 2 * pow2(shift),
        ;
    }
}

/// Replacing two numbers by two with the same common divisors leaves their
/// greatest common divisor as it is.
pub proof fn lemma_reduced_same(
    a: int,
    b: int,
    c: int,
    e: int,
    shift: nat,
    a0: int,
    b0: int,
)
    requires
        reduced(a, b, shift, a0, b0),
        same_divisors(a, b, c, e),
    ensures
        reduced(c, e, shift, a0, b0),
{
    assert forall|g: int| #[trigger] is_gcd(c, e, g) implies is_gcd(a0, b0, g * pow2(shift)) by {
        lemma_gcd_of_same_divisors(a, b, c, e, g);
    }
}

/// The greatest common divisor of `u` and `v`, neither of them negative, by
/// halving and subtracting.
pub fn binary_gcd<T>(u: T, v: T) -> (g: T) where T: Copy + Primitive
    requires
        u.value() >= 0,
        v.value() >= 0,
    ensures
        is_gcd(u.value(), v.value(), g.value()),
{
    let mut u = u;
    let mut v = v;
    let ghost u0 = u.value();
    let ghost v0 = v.value();
    proof {
        T::lemma_values();
    }
    if u == v {
        proof {
            lemma_gcd_with_self(u0);
        }
        return u;
    }
    let zero = T::zero();
    if u == zero || v == zero {
        proof {
            T::lemma_ring(u, v);
            lemma_gcd_with_zero(u0);
            lemma_gcd_with_zero(v0);
        }
        return u + v;
    }
    let mut shift = T::zero();
    let one = T::one();
    proof {
        vstd::arithmetic::power2::lemma2_to64();
        assert(reduced(u0, v0, 0, u0, v0)) by {
            assert forall|g: int| #[trigger] is_gcd(u0, v0, g) implies is_gcd(
                u0,
                v0,
                g * pow2(0),
            ) by {
                assert(g * pow2(0) == g) by (nonlinear_arith)
                    requires
                        pow2(0) == 1,
                ;
            }
        }
        assert(u.value() * pow2(shift.value() as nat) == u0) by (nonlinear_arith)
            requires
                pow2(shift.value() as nat) == 1,
                u.value() == u0,
        ;
        T::lemma_or(u, v);
        T::lemma_low_bit(u.bitor_spec(v), one);
    }
    while ((u | v) & one) == zero
        invariant
            zero.value() == 0,
            one.value() == 1,
            0 < u0 <= T::highest(),
            v0 > 0,
            u.value() > 0,
            v.value() > 0,
            shift.value() >= 0,
            u.value() * pow2(shift.value() as nat) == u0,
            reduced(u.value(), v.value(), shift.value() as nat, u0, v0),
            T::obeys_bitor_spec(),
            T::obeys_bitand_spec(),
            u.bitor_req(v),
            u.bitor_spec(v).bitand_req(one),
            u.bitor_spec(v).bitand_spec(one).value() == 0 <==> u.value() % 2 == 0 && v.value()
                % 2 == 0,
        decreases u.value(),
    {
        proof {
            T::lemma_values();
            T::lemma_low_bit(u, one);
            T::lemma_low_bit(v, one);
            T::lemma_ring(shift, one);
            lemma_reduced_by_halving(u.value(), v.value(), shift.value() as nat, u0, v0);
            lemma_pow2_unfold((shift.value() + 1) as nat);
            lemma_pow2_pos(shift.value() as nat);
            let half = u.value() / 2;
            assert(half * pow2((shift.value() + 1) as nat) == u0) by (nonlinear_arith)
                requires
                    u.value() == 2 * half,
                    u.value() * pow2(shift.value() as nat) == u0,
                    pow2((shift.value() + 1) as nat) == 2 * pow2(shift.value() as nat),
            ;
            lemma_exponent_below(half, (shift.value() + 1) as nat, u0);
        }
        u = u >> one;
        v = v >> one;
        shift = shift + one;
        proof {
            T::lemma_or(u, v);
            T::lemma_low_bit(u.bitor_spec(v), one);
        }
    }
    proof {
        T::lemma_low_bit(u, one);
    }
    while (u & one) == zero
        invariant
            zero.value() == 0,
            one.value() == 1,
            u0 > 0,
            v0 > 0,
            u.value() > 0,
            v.value() > 0,
            shift.value() >= 0,
            v.value() % 2 != 0 || u.value() % 2 != 0,
            reduced(u.value(), v.value(), shift.value() as nat, u0, v0),
            T::obeys_bitand_spec(),
            u.bitand_req(one),
            u.bitand_spec(one).value() == u.value() % 2,
        decreases u.value(),
    {
        proof {
            T::lemma_values();
            T::lemma_low_bit(u, one);
            lemma_double_beside_odd(u.value() / 2, v.value());
            lemma_reduced_same(
                u.value(),
                v.value(),
                u.value() / 2,
                v.value(),
                shift.value() as nat,
                u0,
                v0,
            );
        }
        u = u >> one;
        proof {
            T::lemma_low_bit(u, one);
        }
    }
    while v != zero
        invariant
            zero.value() == 0,
            one.value() == 1,
            u0 > 0,
            v0 > 0,
            u.value() > 0,
            v.value() >= 0,
            shift.value() >= 0,
            u.value() % 2 != 0,
            reduced(u.value(), v.value(), shift.value() as nat, u0, v0),
        decreases u.value() + v.value(),
    {
        proof {
            T::lemma_values();
            T::lemma_low_bit(v, one);
        }
        let ghost before = v.value();
        while (v & one) == zero
            invariant
                v.value() <= before,
                zero.value() == 0,
                one.value() == 1,
                u.value() > 0,
                v.value() > 0,
                u.value() % 2 != 0,
                reduced(u.value(), v.value(), shift.value() as nat, u0, v0),
                T::obeys_bitand_spec(),
                v.bitand_req(one),
                v.bitand_spec(one).value() == v.value() % 2,
            decreases v.value(),
        {
            proof {
                T::lemma_values();
                T::lemma_low_bit(v, one);
                lemma_double_beside_odd(v.value() / 2, u.value());
                lemma_reduced_same(
                    u.value(),
                    v.value(),
                    u.value(),
                    v.value() / 2,
                    shift.value() as nat,
                    u0,
                    v0,
                );
            }
            v = v >> one;
            proof {
                T::lemma_low_bit(v, one);
            }
        }
        if greater(&u, &v) {
            proof {
                assert(same_divisors(u.value(), v.value(), v.value(), u.value()));
                lemma_reduced_same(
                    u.value(),
                    v.value(),
                    v.value(),
                    u.value(),
                    shift.value() as nat,
                    u0,
                    v0,
                );
            }
            core::mem::swap(&mut u, &mut v);
        }
        proof {
            T::lemma_values();
            T::lemma_ring(v, u);
            lemma_difference_divisors(u.value(), v.value());
            lemma_same_divisors_transitive(
                u.value(),
                v.value() - u.value(),
                u.value(),
                v.value(),
                u.value(),
                v.value(),
            );
            lemma_reduced_same(
                u.value(),
                v.value(),
                u.value(),
                v.value() - u.value(),
                shift.value() as nat,
                u0,
                v0,
            );
        }
        v = v - u;
    }
    proof {
        T::lemma_values();
        lemma_gcd_with_zero(u.value());
        let g = u.value() * pow2(shift.value() as nat);
        assert(is_gcd(u0, v0, g));
        assert(common_divisor(g, u0, v0));
        lemma_divisor_bound(g, u0);
        T::lemma_shift_left(u, shift);
    }
    u << shift
}

/// A power of two that divides a number in the range of a machine integer
/// has an exponent in that range.
pub proof fn lemma_exponent_below(a: int, k: nat, bound: int)
    requires
        a > 0,
        a * pow2(k) <= bound,
    ensures
        k < bound,
    decreases k,
{
    lemma_pow2_pos(k);
    if k > 0 {
        lemma_pow2_unfold(k);
        lemma_pow2_pos((k - 1) as nat);
        assert(a * pow2((k - 1) as nat) <= bound - 1) by (nonlinear_arith)
            requires
                a > 0,
                a * pow2(k) <= bound,
                pow2(k) == 2 * pow2((k - 1) as nat),
                pow2((k - 1) as nat) > 0,
        ;
        lemma_exponent_below(a, (k - 1) as nat, bound - 1);
    } else {
        assert(a * pow2(0) >= 1) by (nonlinear_arith)
            requires
                a > 0,
                pow2(0) > 0,
        ;
    }
}

} // verus!
