//! Divisibility on the integers, and what a greatest common divisor is.

use vstd::prelude::*;

verus! {

/// `d` divides `n`: `n` is a multiple of `d`.
pub open spec fn divides(d: int, n: int) -> bool {
    exists|k: int| n == #[trigger] (k * d)
}

/// `d` divides both `a` and `b`.
pub open spec fn common_divisor(d: int, a: int, b: int) -> bool {
    divides(d, a) && divides(d, b)
}

/// `g` is the greatest common divisor of `a` and `b`: the greatest integer
/// that divides both, and 0 where both are 0 and every integer does.
pub open spec fn is_gcd(a: int, b: int, g: int) -> bool {
    if a == 0 && b == 0 {
        g == 0
    } else {
        &&& g > 0
        &&& common_divisor(g, a, b)
        &&& forall|d: int| #[trigger] common_divisor(d, a, b) ==> d <= g
    }
}

/// `c` is a multiple of both `a` and `b`.
pub open spec fn common_multiple(c: int, a: int, b: int) -> bool {
    divides(a, c) && divides(b, c)
}

/// `m` is the least common multiple of `a` and `b`: the least positive
/// integer that is a multiple of both, and 0 where one of them is 0 and no
/// positive integer is.
pub open spec fn is_lcm(a: int, b: int, m: int) -> bool {
    if a == 0 || b == 0 {
        m == 0
    } else {
        &&& m > 0
        &&& common_multiple(m, a, b)
        &&& forall|c: int| c > 0 && #[trigger] common_multiple(c, a, b) ==> m <= c
    }
}

/// The pairs `(a, b)` and `(c, e)` have the same common divisors.
pub open spec fn same_divisors(a: int, b: int, c: int, e: int) -> bool {
    forall|d: int| #[trigger] common_divisor(d, a, b) <==> common_divisor(d, c, e)
}

/// The magnitude of `a`.
pub open spec fn magnitude(a: int) -> int {
    if a < 0 {
        -a
    } else {
        a
    }
}

/// Division that rounds towards zero, as the machine integers divide.
pub open spec fn truncated_div(a: int, b: int) -> int {
    if a >= 0 {
        a / b
    } else {
        -((-a) / b)
    }
}

/// The remainder of the division that rounds towards zero.
pub open spec fn truncated_rem(a: int, b: int) -> int {
    if a >= 0 {
        a % b
    } else {
        -((-a) % b)
    }
}

/// `n` is `k` times `d`, so `d` divides `n`.
pub proof fn lemma_divides_by(d: int, n: int, k: int)
    requires
        n == k * d,
    ensures
        divides(d, n),
{
}

/// Every integer divides 0 and itself, and whatever it divides with the
/// sign of either side changed.
pub proof fn lemma_divides_basics(d: int, n: int)
    ensures
        divides(d, 0),
        divides(d, d),
        divides(d, -d),
        divides(d, n) <==> divides(d, -n),
        divides(d, n) <==> divides(-d, n),
{
    lemma_divides_by(d, 0, 0);
    lemma_divides_by(d, d, 1);
    lemma_divides_by(d, -d, -1);
    if divides(d, n) {
        let k = choose|k: int| n == #[trigger] (k * d);
        assert(-n == (-k) * d) by (nonlinear_arith)
            requires
                n == k * d,
        ;
        assert(n == (-k) * (-d)) by (nonlinear_arith)
            requires
                n == k * d,
        ;
        lemma_divides_by(d, -n, -k);
        lemma_divides_by(-d, n, -k);
    }
    if divides(d, -n) {
        let k = choose|k: int| -n == #[trigger] (k * d);
        assert(n == (-k) * d) by (nonlinear_arith)
            requires
                -n == k * d,
        ;
        lemma_divides_by(d, n, -k);
    }
    if divides(-d, n) {
        let k = choose|k: int| n == #[trigger] (k * (-d));
        assert(n == (-k) * d) by (nonlinear_arith)
            requires
                n == k * (-d),
        ;
        lemma_divides_by(d, n, -k);
    }
}

/// A divisor of a number other than 0 is not larger than its magnitude.
pub proof fn lemma_divisor_bound(d: int, n: int)
    requires
        divides(d, n),
        n != 0,
    ensures
        d <= magnitude(n),
        d != 0,
{
    let k = choose|k: int| n == #[trigger] (k * d);
    assert(d <= magnitude(n) && d != 0) by (nonlinear_arith)
        requires
            n == k * d,
            n != 0,
    ;
}

/// Only 0 is divided by every integer.
pub proof fn lemma_divided_by_all(n: int)
    requires
        forall|d: int| #[trigger] divides(d, n),
    ensures
        n == 0,
{
    if n != 0 {
        assert(divides(magnitude(n) + 1, n));
        lemma_divisor_bound(magnitude(n) + 1, n);
    }
}

/// What divides two numbers divides their sum and their difference, and
/// every multiple of either.
pub proof fn lemma_divides_combination(d: int, a: int, b: int, q: int)
    requires
        divides(d, a),
        divides(d, b),
    ensures
        divides(d, a + b),
        divides(d, a - b),
        divides(d, q * a),
        divides(d, a + q * b),
        divides(d, a - q * b),
{
    let ka = choose|k: int| a == #[trigger] (k * d);
    let kb = choose|k: int| b == #[trigger] (k * d);
    assert(a + b == (ka + kb) * d) by (nonlinear_arith)
        requires
            a == ka * d,
            b == kb * d,
    ;
    assert(a - b == (ka - kb) * d) by (nonlinear_arith)
        requires
            a == ka * d,
            b == kb * d,
    ;
    assert(q * a == (q * ka) * d) by (nonlinear_arith)
        requires
            a == ka * d,
    ;
    assert(a + q * b == (ka + q * kb) * d) by (nonlinear_arith)
        requires
            a == ka * d,
            b == kb * d,
    ;
    assert(a - q * b == (ka - q * kb) * d) by (nonlinear_arith)
        requires
            a == ka * d,
            b == kb * d,
    ;
    lemma_divides_by(d, a + b, ka + kb);
    lemma_divides_by(d, a - b, ka - kb);
    lemma_divides_by(d, q * a, q * ka);
    lemma_divides_by(d, a + q * b, ka + q * kb);
    lemma_divides_by(d, a - q * b, ka - q * kb);
}

/// A number and a divisor have the same common divisors as the divisor and
/// the remainder.
pub proof fn lemma_remainder_divisors(a: int, b: int, q: int, r: int)
    requires
        a == q * b + r,
    ensures
        same_divisors(a, b, b, r),
{
    assert forall|d: int| #[trigger] common_divisor(d, a, b) <==> common_divisor(d, b, r) by {
        if common_divisor(d, a, b) {
            lemma_divides_combination(d, a, b, q);
            assert(a - q * b == r);
        }
        if common_divisor(d, b, r) {
            lemma_divides_combination(d, r, b, q);
            assert(r + q * b == a);
        }
    }
}

/// The division that rounds towards zero leaves a remainder that is smaller
/// in magnitude than the divisor and has the same common divisors with it as
/// the dividend has.
pub proof fn lemma_truncated_rem(a: int, b: int)
    requires
        b != 0,
    ensures
        magnitude(truncated_rem(a, b)) < magnitude(b),
        a == truncated_div(a, b) * b + truncated_rem(a, b),
        same_divisors(a, b, b, truncated_rem(a, b)),
        a >= 0 ==> truncated_rem(a, b) >= 0,
        a <= 0 ==> truncated_rem(a, b) <= 0,
{
    let x = magnitude(a);
    vstd::arithmetic::div_mod::lemma_fundamental_div_mod(x, b);
    if a == 0 {
        assert(0int % b == 0) by (nonlinear_arith)
            requires
                b != 0,
        ;
    }
    assert(0 <= x % b < magnitude(b)) by {
        if b > 0 {
            vstd::arithmetic::div_mod::lemma_mod_bound(x, b);
        } else {
            assert(x % b == x % (-b)) by {
                vstd::arithmetic::div_mod::lemma_mod_bound(x, -b);
                vstd::arithmetic::div_mod::lemma_fundamental_div_mod(x, -b);
                lemma_mod_of_negated_divisor(x, b);
            }
            vstd::arithmetic::div_mod::lemma_mod_bound(x, -b);
        }
    }
    assert(x == (x / b) * b + x % b) by (nonlinear_arith)
        requires
            x == b * (x / b) + x % b,
    ;
    if a < 0 {
        assert(a == (-(x / b)) * b + (-(x % b))) by (nonlinear_arith)
            requires
                -a == (x / b) * b + x % b,
        ;
    }
    lemma_remainder_divisors(a, b, truncated_div(a, b), truncated_rem(a, b));
}

/// The quotient is not larger in magnitude than the dividend.
pub proof fn lemma_truncated_div_bound(a: int, b: int)
    requires
        b != 0,
    ensures
        magnitude(truncated_div(a, b)) <= magnitude(a),
        a >= 0 ==> -a <= a / b <= a,
        a < 0 ==> a <= (-a) / b <= -a,
        a < 0 && b != -1 ==> a < (-a) / b,
{
    let x = magnitude(a);
    assert(-x <= x / b <= x) by (nonlinear_arith)
        requires
            x >= 0,
            b != 0,
    ;
    if a < 0 && b != -1 {
        vstd::arithmetic::div_mod::lemma_fundamental_div_mod(x, b);
        let q = x / b;
        let r = x % b;
        if b > 0 {
            vstd::arithmetic::div_mod::lemma_mod_bound(x, b);
        } else {
            lemma_mod_of_negated_divisor(x, b);
            vstd::arithmetic::div_mod::lemma_mod_bound(x, -b);
        }
        assert(q > -x) by (nonlinear_arith)
            requires
                x == b * q + r,
                x > 0,
                b != 0,
                b != -1,
                0 <= r,
                b > 0 ==> r < b,
                b < 0 ==> r < -b,
        ;
    }
}

/// Pairs that have the same common divisors as a third pair have the same
/// common divisors.
pub proof fn lemma_same_divisors_transitive(a: int, b: int, c: int, e: int, x: int, y: int)
    requires
        same_divisors(a, b, c, e),
        same_divisors(c, e, x, y),
    ensures
        same_divisors(a, b, x, y),
        same_divisors(c, e, a, b),
{
    assert forall|d: int| #[trigger] common_divisor(d, a, b) <==> common_divisor(d, x, y) by {
        assert(common_divisor(d, a, b) <==> common_divisor(d, c, e));
        assert(common_divisor(d, c, e) <==> common_divisor(d, x, y));
    }
    assert forall|d: int| #[trigger] common_divisor(d, c, e) <==> common_divisor(d, a, b) by {
        assert(common_divisor(d, a, b) <==> common_divisor(d, c, e));
    }
}

/// The remainder does not depend on the sign of the divisor.
pub proof fn lemma_mod_of_negated_divisor(x: int, b: int)
    requires
        b < 0,
        x >= 0,
    ensures
        x % b == x % (-b),
{
    assert(x % b == x % (-b)) by (nonlinear_arith)
        requires
            b < 0,
            x >= 0,
    ;
}

/// Pairs with the same common divisors have the same greatest common
/// divisor.
pub proof fn lemma_gcd_of_same_divisors(a: int, b: int, c: int, e: int, g: int)
    requires
        same_divisors(a, b, c, e),
        is_gcd(c, e, g),
    ensures
        is_gcd(a, b, g),
{
    if c == 0 && e == 0 {
        assert forall|d: int| #[trigger] divides(d, a) by {
            lemma_divides_basics(d, 0);
            assert(common_divisor(d, c, e));
            assert(common_divisor(d, a, b));
        }
        assert forall|d: int| #[trigger] divides(d, b) by {
            lemma_divides_basics(d, 0);
            assert(common_divisor(d, c, e));
            assert(common_divisor(d, a, b));
        }
        lemma_divided_by_all(a);
        lemma_divided_by_all(b);
    } else {
        assert(common_divisor(g, c, e));
        assert(common_divisor(g, a, b));
        if a == 0 && b == 0 {
            assert forall|d: int| #[trigger] divides(d, c) by {
                lemma_divides_basics(d, 0);
                assert(common_divisor(d, a, b));
                assert(common_divisor(d, c, e));
            }
            assert forall|d: int| #[trigger] divides(d, e) by {
                lemma_divides_basics(d, 0);
                assert(common_divisor(d, a, b));
                assert(common_divisor(d, c, e));
            }
            lemma_divided_by_all(c);
            lemma_divided_by_all(e);
        }
        assert forall|d: int| #[trigger] common_divisor(d, a, b) implies d <= g by {
            assert(common_divisor(d, c, e));
        }
    }
}

/// The greatest common divisor of a number and 0 is the magnitude of the
/// number.
pub proof fn lemma_gcd_with_zero(a: int)
    ensures
        is_gcd(a, 0, magnitude(a)),
        is_gcd(0, a, magnitude(a)),
{
    if a != 0 {
        lemma_divides_basics(a, a);
        lemma_divides_basics(-a, a);
        lemma_divides_basics(magnitude(a), 0);
        assert(divides(magnitude(a), a));
        assert forall|d: int| #[trigger] common_divisor(d, a, 0) implies d <= magnitude(a) by {
            lemma_divisor_bound(d, a);
        }
        assert forall|d: int| #[trigger] common_divisor(d, 0, a) implies d <= magnitude(a) by {
            lemma_divisor_bound(d, a);
        }
    }
}

/// A number is its own greatest common divisor with itself, up to sign.
pub proof fn lemma_gcd_with_self(a: int)
    ensures
        is_gcd(a, a, magnitude(a)),
{
    lemma_gcd_with_zero(a);
    assert forall|d: int| #[trigger] common_divisor(d, a, a) <==> common_divisor(d, a, 0) by {
        lemma_divides_basics(d, 0);
    }
    lemma_gcd_of_same_divisors(a, a, a, 0, magnitude(a));
}

/// What divides an odd number is odd.
pub proof fn lemma_divisor_of_odd(d: int, n: int)
    requires
        divides(d, n),
        n % 2 != 0,
    ensures
        d % 2 != 0,
{
    let k = choose|k: int| n == #[trigger] (k * d);
    if d % 2 == 0 {
        let e = d / 2;
        assert(n == 2 * (k * e)) by (nonlinear_arith)
            requires
                n == k * d,
                d == 2 * e,
        ;
    }
}

/// An odd number that divides twice a number divides the number.
pub proof fn lemma_odd_divisor_of_double(d: int, x: int)
    requires
        divides(d, 2 * x),
        d % 2 != 0,
    ensures
        divides(d, x),
{
    let k = choose|k: int| 2 * x == #[trigger] (k * d);
    if k % 2 != 0 {
        let i = k / 2;
        let j = d / 2;
        assert(2 * x == 2 * (2 * (i * j) + i + j) + 1) by (nonlinear_arith)
            requires
                2 * x == k * d,
                k == 2 * i + 1,
                d == 2 * j + 1,
        ;
    }
    let h = k / 2;
    assert(x == h * d) by (nonlinear_arith)
        requires
            2 * x == k * d,
            k == 2 * h,
    ;
    lemma_divides_by(d, x, k / 2);
}

/// Halving an even number that divides twice a number gives a divisor of
/// the number; doubling a divisor gives a divisor of the double.
pub proof fn lemma_double_divisor(d: int, x: int)
    ensures
        divides(2 * d, 2 * x) <==> divides(d, x),
{
    if divides(2 * d, 2 * x) {
        let k = choose|k: int| 2 * x == #[trigger] (k * (2 * d));
        assert(x == k * d) by (nonlinear_arith)
            requires
                2 * x == k * (2 * d),
        ;
        lemma_divides_by(d, x, k);
    }
    if divides(d, x) {
        let k = choose|k: int| x == #[trigger] (k * d);
        assert(2 * x == k * (2 * d)) by (nonlinear_arith)
            requires
                x == k * d,
        ;
        lemma_divides_by(2 * d, 2 * x, k);
    }
}

/// Doubling both of two numbers doubles their greatest common divisor.
pub proof fn lemma_gcd_of_doubles(a: int, b: int, g: int)
    requires
        is_gcd(a, b, g),
    ensures
        is_gcd(2 * a, 2 * b, 2 * g),
{
    if !(a == 0 && b == 0) {
        lemma_double_divisor(g, a);
        lemma_double_divisor(g, b);
        assert forall|d: int| #[trigger] common_divisor(d, 2 * a, 2 * b) implies d <= 2 * g by {
            if d % 2 != 0 {
                lemma_odd_divisor_of_double(d, a);
                lemma_odd_divisor_of_double(d, b);
                assert(common_divisor(d, a, b));
            } else {
                let h = d / 2;
                assert(d == 2 * h);
                lemma_double_divisor(h, a);
                lemma_double_divisor(h, b);
                assert(common_divisor(h, a, b));
            }
        }
    }
}

/// Doubling one of two numbers leaves their common divisors as they are
/// where the other is odd.
pub proof fn lemma_double_beside_odd(a: int, b: int)
    requires
        b % 2 != 0,
    ensures
        same_divisors(2 * a, b, a, b),
        same_divisors(b, 2 * a, b, a),
{
    assert forall|d: int| #[trigger] common_divisor(d, 2 * a, b) <==> common_divisor(d, a, b) by {
        if common_divisor(d, 2 * a, b) {
            lemma_divisor_of_odd(d, b);
            lemma_odd_divisor_of_double(d, a);
        }
        if common_divisor(d, a, b) {
            lemma_divides_combination(d, a, b, 2);
        }
    }
    assert forall|d: int| #[trigger] common_divisor(d, b, 2 * a) <==> common_divisor(d, b, a) by {
        assert(common_divisor(d, 2 * a, b) <==> common_divisor(d, a, b));
    }
}

/// Taking one of two numbers off the other leaves their common divisors as
/// they are.
pub proof fn lemma_difference_divisors(a: int, b: int)
    ensures
        same_divisors(a, b - a, a, b),
{
    assert forall|d: int| #[trigger] common_divisor(d, a, b - a) <==> common_divisor(d, a, b) by {
        if common_divisor(d, a, b - a) {
            lemma_divides_combination(d, a, b - a, 1);
            assert(a + 1 * (b - a) == b);
        }
        if common_divisor(d, a, b) {
            lemma_divides_combination(d, b, a, 1);
        }
    }
}

/// The signs of two numbers do not matter to their greatest common
/// divisor.
pub proof fn lemma_gcd_of_magnitudes(a: int, b: int, g: int)
    requires
        is_gcd(a, b, g),
    ensures
        is_gcd(magnitude(a), magnitude(b), g),
{
    assert forall|d: int| #[trigger]
        common_divisor(d, magnitude(a), magnitude(b)) <==> common_divisor(d, a, b) by {
        lemma_divides_basics(d, a);
        lemma_divides_basics(d, b);
    }
    lemma_gcd_of_same_divisors(magnitude(a), magnitude(b), a, b, g);
}

/// No positive common multiple of two positive numbers is less than their
/// product divided by their greatest common divisor.
pub proof fn lemma_no_lesser_multiple(a: int, b: int, g: int, m: int, c: int)
    requires
        a > 0,
        b > 0,
        is_gcd(a, b, g),
        m * g == a * b,
        common_multiple(m, a, b),
        c > 0,
        common_multiple(c, a, b),
    ensures
        m <= c,
    decreases c,
{
    if c < m {
        let q = m / c;
        let r = m % c;
        vstd::arithmetic::div_mod::lemma_fundamental_div_mod(m, c);
        vstd::arithmetic::div_mod::lemma_mod_bound(m, c);
        assert(m - q * c == r) by (nonlinear_arith)
            requires
                m == c * q + r,
        ;
        lemma_divides_combination(a, m, c, q);
        lemma_divides_combination(b, m, c, q);
        if r > 0 {
            lemma_no_lesser_multiple(a, b, g, m, r);
        } else {
            // `c` divides `m` and is less: then `g` is not the greatest
            let x = choose|x: int| c == #[trigger] (x * a);
            let y = choose|y: int| c == #[trigger] (y * b);
            assert(q >= 2) by (nonlinear_arith)
                requires
                    m == c * q,
                    0 < c < m,
            ;
            assert(b == x * (q * g)) by (nonlinear_arith)
                requires
                    m * g == a * b,
                    m == c * q,
                    c == x * a,
                    a > 0,
            ;
            assert(a == y * (q * g)) by (nonlinear_arith)
                requires
                    m * g == a * b,
                    m == c * q,
                    c == y * b,
                    b > 0,
            ;
            lemma_divides_by(q * g, b, x);
            lemma_divides_by(q * g, a, y);
            assert(common_divisor(q * g, a, b));
            assert(q * g > g) by (nonlinear_arith)
                requires
                    q >= 2,
                    g > 0,
            ;
        }
    }
}

/// The product of two numbers, up to sign, divided by their greatest common
/// divisor is their least common multiple.
pub proof fn lemma_lcm_from_gcd(a: int, b: int, g: int, m: int)
    requires
        is_gcd(a, b, g),
        !(a == 0 && b == 0),
        m * g == magnitude(a * b),
    ensures
        is_lcm(a, b, m),
{
    if a == 0 || b == 0 {
        assert(a * b == 0) by (nonlinear_arith)
            requires
                a == 0 || b == 0,
        ;
        assert(m == 0) by (nonlinear_arith)
            requires
                m * g == 0,
                g > 0,
        ;
    } else {
        let x = magnitude(a);
        let y = magnitude(b);
        lemma_gcd_of_magnitudes(a, b, g);
        assert(magnitude(a * b) == x * y) by (nonlinear_arith)
            requires
                x == magnitude(a),
                y == magnitude(b),
        ;
        let kx = choose|k: int| x == #[trigger] (k * g);
        let ky = choose|k: int| y == #[trigger] (k * g);
        assert(m == ky * x && m == kx * y && m > 0) by (nonlinear_arith)
            requires
                m * g == x * y,
                x == kx * g,
                y == ky * g,
                g > 0,
                x > 0,
                y > 0,
        ;
        lemma_divides_by(x, m, ky);
        lemma_divides_by(y, m, kx);
        lemma_divides_basics(a, m);
        lemma_divides_basics(b, m);
        assert(common_multiple(m, a, b));
        assert forall|c: int| c > 0 && #[trigger] common_multiple(c, a, b) implies m <= c by {
            lemma_divides_basics(a, c);
            lemma_divides_basics(b, c);
            lemma_no_lesser_multiple(x, y, g, m, c);
        }
    }
}

} // verus!
