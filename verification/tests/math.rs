use algorithms::math::{binary_gcd, euclid_gcd, gcd, lcm, Numeric};

#[test]
fn test_euclid_zero() {
    assert_eq!(0, euclid_gcd(0, 0));
}

#[test]
fn test_euclid_same() {
    assert_eq!(10, euclid_gcd(10, 10));
}

#[test]
fn test_euclid_simple() {
    assert_eq!(7, euclid_gcd(14, 21));
}

#[test]
fn test_euclid_prime() {
    assert_eq!(1, euclid_gcd(132512537, 132512351));
}

#[test]
fn test_binary_zero() {
    assert_eq!(0, binary_gcd(0, 0));
}

#[test]
fn test_binary_same() {
    assert_eq!(10, binary_gcd(10, 10));
}

#[test]
fn test_binary_simple() {
    assert_eq!(7, binary_gcd(14, 21));
}

#[test]
fn test_binary_prime() {
    assert_eq!(1, binary_gcd(132512537, 132512351));
}

#[test]
fn test_zero() {
    assert_eq!(0, lcm(0, 1));
}

#[test]
fn test_same() {
    assert_eq!(4, lcm(4, 4));
}

#[test]
fn lcm_test_simple() {
    assert_eq!(42, lcm(21, 6));
}

#[test]
fn test_negative() {
    assert_eq!(42, lcm(21, -6));
}

#[test]
fn test_prime() {
    assert_eq!(77, lcm(7, 11));
}

#[test]
fn gcd_is_euclid() {
    assert_eq!(6u8, gcd(54u8, 24u8));
    assert_eq!(6i64, gcd(-54i64, 24i64));
    assert_eq!(6i16, gcd(54i16, -24i16));
    assert_eq!(5u64, gcd(0u64, 5u64));
    assert_eq!(5u64, gcd(5u64, 0u64));
    assert_eq!(2i32, gcd(i32::MIN, 6));
}

#[test]
fn binary_gcd_agrees_with_euclid() {
    for a in 0u32..60 {
        for b in 0u32..60 {
            assert_eq!(binary_gcd(a, b), euclid_gcd(a, b));
            assert_eq!(binary_gcd(a as i8, b as i8), euclid_gcd(a as i8, b as i8));
        }
    }
    assert_eq!(binary_gcd(1u64 << 40, 1u64 << 35), 1u64 << 35);
    assert_eq!(binary_gcd(96u8, 64u8), 32u8);
    assert_eq!(binary_gcd(i8::MAX, 0i8), i8::MAX);
}

#[test]
fn gcd_divides_both_and_is_greatest() {
    for a in 1i32..40 {
        for b in 1i32..40 {
            let g = euclid_gcd(a, b);
            assert!(g > 0 && a % g == 0 && b % g == 0);
            for d in (g + 1)..=a.min(b) {
                assert!(a % d != 0 || b % d != 0);
            }
        }
    }
}

#[test]
fn lcm_times_gcd_is_the_product() {
    for a in 1i64..30 {
        for b in -30i64..30 {
            let m = lcm(a, b);
            assert_eq!(m * gcd(a, b), (a * b).abs());
            assert!(m >= 0);
        }
    }
    assert_eq!(lcm(0u16, 9u16), 0);
    assert_eq!(lcm(12u8, 18u8), 36u8);
}

#[test]
fn lcm_is_the_least_common_multiple() {
    for a in 1u32..25 {
        for b in 1u32..25 {
            let m = lcm(a, b);
            assert!(m > 0 && m % a == 0 && m % b == 0);
            for c in 1..m {
                assert!(c % a != 0 || c % b != 0);
            }
        }
    }
}

#[test]
fn numeric_constants() {
    assert_eq!(<i32 as Numeric>::zero(), 0);
    assert_eq!(<u8 as Numeric>::one(), 1);
    assert_eq!(Numeric::abs(-5i16), 5);
    assert_eq!(Numeric::abs(5u64), 5);
    assert_eq!(Numeric::abs(i8::MIN + 1), i8::MAX);
}
