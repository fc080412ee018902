//! The machine integers as [`Numeric`] and [`Primitive`] types.

use crate::math::divisibility::lemma_truncated_div_bound;
use crate::math::{Numeric, Primitive};
use vstd::arithmetic::power2::{lemma2_to64, lemma2_to64_rest, lemma_pow2_strictly_increases, pow2};
use vstd::prelude::*;

verus! {

/// A positive number whose multiple by a power of two is below the next
/// power of two is shifted by less than the exponent of the latter.
pub proof fn lemma_shift_in_range(a: int, k: nat, bits: nat)
    requires
        a > 0,
        a * pow2(k) < pow2(bits),
    ensures
        k < bits,
{
    if k >= bits {
        if k > bits {
            lemma_pow2_strictly_increases(bits, k);
        }
        assert(a * pow2(k) >= pow2(k)) by (nonlinear_arith)
            requires
                a > 0,
                pow2(k) >= 0,
        ;
    }
}

impl Numeric for i8 {
    open spec fn value(self) -> int {
        self as int
    }

    open spec fn lowest() -> int {
        i8::MIN as int
    }

    open spec fn highest() -> int {
        i8::MAX as int
    }

    proof fn lemma_values() {
    }

    proof fn lemma_ring(a: Self, b: Self) {
    }

    proof fn lemma_division(a: Self, b: Self) {
        lemma_truncated_div_bound(a as int, b as int);
    }

    fn abs(self) -> (r: Self) {
        if self < 0 {
            -self
        } else {
            self
        }
    }

    fn zero() -> (r: Self) {
        0
    }

    fn one() -> (r: Self) {
        1
    }
}

impl Primitive for i8 {
    proof fn lemma_low_bit(a: Self, one: Self) {
        assert(a >= 0 ==> a >> 1u8 == a / 2) by (bit_vector);
        assert(a >= 0 ==> a & 1i8 == a % 2) by (bit_vector);
    }

    proof fn lemma_or(a: Self, b: Self) {
        assert(a >= 0 && b >= 0 ==> (a | b) >= 0 && ((a | b) % 2 == 0 <==> a % 2 == 0 && b % 2
            == 0)) by (bit_vector);
    }

    proof fn lemma_shift_left(a: Self, k: Self) {
        lemma2_to64();
        lemma2_to64_rest();
        lemma_shift_in_range(a as int, k as nat, 7);
        let wide = a as u8;
        let by = k as u8;
        vstd::bits::lemma_u8_shl_is_mul(wide, by);
        assert((a << by) as u8 == (a as u8) << by) by (bit_vector);
        let shifted: i8 = a << by;
        assert((shifted as u8) <= 0x7fu8 ==> shifted >= 0) by (bit_vector);
    }
}

impl Numeric for i16 {
    open spec fn value(self) -> int {
        self as int
    }

    open spec fn lowest() -> int {
        i16::MIN as int
    }

    open spec fn highest() -> int {
        i16::MAX as int
    }

    proof fn lemma_values() {
    }

    proof fn lemma_ring(a: Self, b: Self) {
    }

    proof fn lemma_division(a: Self, b: Self) {
        lemma_truncated_div_bound(a as int, b as int);
    }

    fn abs(self) -> (r: Self) {
        if self < 0 {
            -self
        } else {
            self
        }
    }

    fn zero() -> (r: Self) {
        0
    }

    fn one() -> (r: Self) {
        1
    }
}

impl Primitive for i16 {
    proof fn lemma_low_bit(a: Self, one: Self) {
        assert(a >= 0 ==> a >> 1u16 == a / 2) by (bit_vector);
        assert(a >= 0 ==> a & 1i16 == a % 2) by (bit_vector);
    }

    proof fn lemma_or(a: Self, b: Self) {
        assert(a >= 0 && b >= 0 ==> (a | b) >= 0 && ((a | b) % 2 == 0 <==> a % 2 == 0 && b % 2
            == 0)) by (bit_vector);
    }

    proof fn lemma_shift_left(a: Self, k: Self) {
        lemma2_to64();
        lemma2_to64_rest();
        lemma_shift_in_range(a as int, k as nat, 15);
        let wide = a as u16;
        let by = k as u16;
        vstd::bits::lemma_u16_shl_is_mul(wide, by);
        assert((a << by) as u16 == (a as u16) << by) by (bit_vector);
        let shifted: i16 = a << by;
        assert((shifted as u16) <= 0x7fffu16 ==> shifted >= 0) by (bit_vector);
    }
}

impl Numeric for i32 {
    open spec fn value(self) -> int {
        self as int
    }

    open spec fn lowest() -> int {
        i32::MIN as int
    }

    open spec fn highest() -> int {
        i32::MAX as int
    }

    proof fn lemma_values() {
    }

    proof fn lemma_ring(a: Self, b: Self) {
    }

    proof fn lemma_division(a: Self, b: Self) {
        lemma_truncated_div_bound(a as int, b as int);
    }

    fn abs(self) -> (r: Self) {
        if self < 0 {
            -self
        } else {
            self
        }
    }

    fn zero() -> (r: Self) {
        0
    }

    fn one() -> (r: Self) {
        1
    }
}

impl Primitive for i32 {
    proof fn lemma_low_bit(a: Self, one: Self) {
        assert(a >= 0 ==> a >> 1u32 == a / 2) by (bit_vector);
        assert(a >= 0 ==> a & 1i32 == a % 2) by (bit_vector);
    }

    proof fn lemma_or(a: Self, b: Self) {
        assert(a >= 0 && b >= 0 ==> (a | b) >= 0 && ((a | b) % 2 == 0 <==> a % 2 == 0 && b % 2
            == 0)) by (bit_vector);
    }

    proof fn lemma_shift_left(a: Self, k: Self) {
        lemma2_to64();
        lemma2_to64_rest();
        lemma_shift_in_range(a as int, k as nat, 31);
        let wide = a as u32;
        let by = k as u32;
        vstd::bits::lemma_u32_shl_is_mul(wide, by);
        assert((a << by) as u32 == (a as u32) << by) by (bit_vector);
        let shifted: i32 = a << by;
        assert((shifted as u32) <= 0x7fffffffu32 ==> shifted >= 0) by (bit_vector);
    }
}

impl Numeric for i64 {
    open spec fn value(self) -> int {
        self as int
    }

    open spec fn lowest() -> int {
        i64::MIN as int
    }

    open spec fn highest() -> int {
        i64::MAX as int
    }

    proof fn lemma_values() {
    }

    proof fn lemma_ring(a: Self, b: Self) {
    }

    proof fn lemma_division(a: Self, b: Self) {
        lemma_truncated_div_bound(a as int, b as int);
    }

    fn abs(self) -> (r: Self) {
        if self < 0 {
            -self
        } else {
            self
        }
    }

    fn zero() -> (r: Self) {
        0
    }

    fn one() -> (r: Self) {
        1
    }
}

impl Primitive for i64 {
    proof fn lemma_low_bit(a: Self, one: Self) {
        assert(a >= 0 ==> a >> 1u64 == a / 2) by (bit_vector);
        assert(a >= 0 ==> a & 1i64 == a % 2) by (bit_vector);
    }

    proof fn lemma_or(a: Self, b: Self) {
        assert(a >= 0 && b >= 0 ==> (a | b) >= 0 && ((a | b) % 2 == 0 <==> a % 2 == 0 && b % 2
            == 0)) by (bit_vector);
    }

    proof fn lemma_shift_left(a: Self, k: Self) {
        lemma2_to64();
        lemma2_to64_rest();
        lemma_shift_in_range(a as int, k as nat, 63);
        let wide = a as u64;
        let by = k as u64;
        vstd::bits::lemma_u64_shl_is_mul(wide, by);
        assert((a << by) as u64 == (a as u64) << by) by (bit_vector);
        let shifted: i64 = a << by;
        assert((shifted as u64) <= 0x7fffffffffffffffu64 ==> shifted >= 0) by (bit_vector);
    }
}

impl Numeric for u8 {
    open spec fn value(self) -> int {
        self as int
    }

    open spec fn lowest() -> int {
        0
    }

    open spec fn highest() -> int {
        u8::MAX as int
    }

    proof fn lemma_values() {
    }

    proof fn lemma_ring(a: Self, b: Self) {
    }

    proof fn lemma_division(a: Self, b: Self) {
    }

    /// No-op
    fn abs(self) -> (r: Self) {
        self
    }

    fn zero() -> (r: Self) {
        0
    }

    fn one() -> (r: Self) {
        1
    }
}

impl Primitive for u8 {
    proof fn lemma_low_bit(a: Self, one: Self) {
        assert(a >> 1u8 == a / 2) by (bit_vector);
        assert(a & 1u8 == a % 2) by (bit_vector);
    }

    proof fn lemma_or(a: Self, b: Self) {
        assert((a | b) % 2 == 0 <==> a % 2 == 0 && b % 2 == 0) by (bit_vector);
    }

    proof fn lemma_shift_left(a: Self, k: Self) {
        lemma2_to64();
        lemma2_to64_rest();
        lemma_shift_in_range(a as int, k as nat, 8);
        vstd::bits::lemma_u8_shl_is_mul(a, k);
    }
}

impl Numeric for u16 {
    open spec fn value(self) -> int {
        self as int
    }

    open spec fn lowest() -> int {
        0
    }

    open spec fn highest() -> int {
        u16::MAX as int
    }

    proof fn lemma_values() {
    }

    proof fn lemma_ring(a: Self, b: Self) {
    }

    proof fn lemma_division(a: Self, b: Self) {
    }

    /// No-op
    fn abs(self) -> (r: Self) {
        self
    }

    fn zero() -> (r: Self) {
        0
    }

    fn one() -> (r: Self) {
        1
    }
}

impl Primitive for u16 {
    proof fn lemma_low_bit(a: Self, one: Self) {
        assert(a >> 1u16 == a / 2) by (bit_vector);
        assert(a & 1u16 == a % 2) by (bit_vector);
    }

    proof fn lemma_or(a: Self, b: Self) {
        assert((a | b) % 2 == 0 <==> a % 2 == 0 && b % 2 == 0) by (bit_vector);
    }

    proof fn lemma_shift_left(a: Self, k: Self) {
        lemma2_to64();
        lemma2_to64_rest();
        lemma_shift_in_range(a as int, k as nat, 16);
        vstd::bits::lemma_u16_shl_is_mul(a, k);
    }
}

impl Numeric for u32 {
    open spec fn value(self) -> int {
        self as int
    }

    open spec fn lowest() -> int {
        0
    }

    open spec fn highest() -> int {
        u32::MAX as int
    }

    proof fn lemma_values() {
    }

    proof fn lemma_ring(a: Self, b: Self) {
    }

    proof fn lemma_division(a: Self, b: Self) {
    }

    /// No-op
    fn abs(self) -> (r: Self) {
        self
    }

    fn zero() -> (r: Self) {
        0
    }

    fn one() -> (r: Self) {
        1
    }
}

impl Primitive for u32 {
    proof fn lemma_low_bit(a: Self, one: Self) {
        assert(a >> 1u32 == a / 2) by (bit_vector);
        assert(a & 1u32 == a % 2) by (bit_vector);
    }

    proof fn lemma_or(a: Self, b: Self) {
        assert((a | b) % 2 == 0 <==> a % 2 == 0 && b % 2 == 0) by (bit_vector);
    }

    proof fn lemma_shift_left(a: Self, k: Self) {
        lemma2_to64();
        lemma2_to64_rest();
        lemma_shift_in_range(a as int, k as nat, 32);
        vstd::bits::lemma_u32_shl_is_mul(a, k);
    }
}

impl Numeric for u64 {
    open spec fn value(self) -> int {
        self as int
    }

    open spec fn lowest() -> int {
        0
    }

    open spec fn highest() -> int {
        u64::MAX as int
    }

    proof fn lemma_values() {
    }

    proof fn lemma_ring(a: Self, b: Self) {
    }

    proof fn lemma_division(a: Self, b: Self) {
    }

    /// No-op
    fn abs(self) -> (r: Self) {
        self
    }

    fn zero() -> (r: Self) {
        0
    }

    fn one() -> (r: Self) {
        1
    }
}

impl Primitive for u64 {
    proof fn lemma_low_bit(a: Self, one: Self) {
        assert(a >> 1u64 == a / 2) by (bit_vector);
        assert(a & 1u64 == a % 2) by (bit_vector);
    }

    proof fn lemma_or(a: Self, b: Self) {
        assert((a | b) % 2 == 0 <==> a % 2 == 0 && b % 2 == 0) by (bit_vector);
    }

    proof fn lemma_shift_left(a: Self, k: Self) {
        lemma2_to64();
        lemma2_to64_rest();
        lemma_shift_in_range(a as int, k as nat, 64);
        vstd::bits::lemma_u64_shl_is_mul(a, k);
    }
}

} // verus!
