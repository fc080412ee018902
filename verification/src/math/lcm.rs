//! The least common multiple.

use crate::math::divisibility::{
    divides, is_lcm, lemma_divides_basics, lemma_divides_by, lemma_lcm_from_gcd,
};
use crate::math::gcd::euclid_gcd;
use crate::math::Numeric;
use vstd::prelude::*;

verus! {

/// The least common multiple of `u` and `v`, which are not both 0.
///
/// The product of `u` and `v` and its magnitude must be in the range of
/// `T`, and so must the greatest common divisor and the quotients on the
/// way to it.
pub fn lcm<T>(u: T, v: T) -> (m: T) where T: Copy + Numeric
    requires
        !(u.value() == 0 && v.value() == 0),
        T::lowest() <= u.value() * v.value() <= T::highest(),
        -(u.value() * v.value()) <= T::highest(),
        !(u.value() == T::lowest() && v.value() == -1),
        !(u.value() == -1 && v.value() == T::lowest()),
        T::lowest() < 0 ==> !((u.value() == T::lowest() || u.value() == 0) && (v.value()
            == T::lowest() || v.value() == 0) && (u.value() == T::lowest() || v.value()
            == T::lowest())),
    ensures
        is_lcm(u.value(), v.value(), m.value()),
{
    let gcd = euclid_gcd(u, v);
    proof {
        T::lemma_values();
        T::lemma_ring(u, v);
    }
    let product = u * v;
    let whole = product.abs();
    proof {
        let g = gcd.value();
        let p = whole.value();
        T::lemma_division(whole, gcd);
        assert(divides(g, u.value()));
        let k = choose|k: int| u.value() == #[trigger] (k * g);
        assert(u.value() * v.value() == (k * v.value()) * g) by (nonlinear_arith)
            requires
                u.value() == k * g,
        ;
        lemma_divides_by(g, u.value() * v.value(), k * v.value());
        lemma_divides_basics(g, u.value() * v.value());
        assert(divides(g, p));
        let q = choose|q: int| p == #[trigger] (q * g);
        assert(p / g == q && q >= 0) by {
            vstd::arithmetic::div_mod::lemma_fundamental_div_mod_converse(p, g, q, 0);
            assert(q >= 0) by (nonlinear_arith)
                requires
                    p == q * g,
                    p >= 0,
                    g > 0,
            ;
        }
        lemma_lcm_from_gcd(u.value(), v.value(), g, p / g);
    }
    whole / gcd
}

} // verus!
