use gcd::{binary_u8, euclid_u8, Gcd};

#[test]
fn zero_and_zero() {
    assert_eq!(0, 0u8.gcd(0));
    assert_eq!(0, 0u8.gcd_binary(0));
    assert_eq!(0, 0u8.gcd_euclid(0));
}

#[test]
fn zero_is_neutral() {
    assert_eq!(10, 10u8.gcd(0));
    assert_eq!(10, 0u8.gcd(10));
    assert_eq!(10, 10u8.gcd_euclid(0));
    assert_eq!(10, 0u8.gcd_euclid(10));
}

#[test]
fn multiple_of_other() {
    assert_eq!(10, 10u8.gcd(20));
    assert_eq!(10, 20u8.gcd(10));
    assert_eq!(10, 10u8.gcd_euclid(20));
}

#[test]
fn coprime() {
    assert_eq!(1, 17u8.gcd(13));
    assert_eq!(1, 17u8.gcd_euclid(13));
    assert_eq!(1, binary_u8(13, 17));
}

#[test]
fn largest_value() {
    assert_eq!(85, 255u8.gcd(85));
    assert_eq!(85, euclid_u8(255, 85));
    assert_eq!(255, 255u8.gcd(255));
    assert_eq!(255, 255u8.gcd(0));
    assert_eq!(1, 255u8.gcd(254));
}

#[test]
fn common_power_of_two() {
    assert_eq!(64, binary_u8(192, 128));
    assert_eq!(64, euclid_u8(192, 128));
    assert_eq!(12, binary_u8(36, 24));
    assert_eq!(4, binary_u8(4, 12));
}

#[test]
fn algorithms_agree_on_every_pair() {
    for a in 0..=255u8 {
        for b in 0..=255u8 {
            assert_eq!(binary_u8(a, b), euclid_u8(a, b));
        }
    }
}

#[test]
fn result_divides_both_on_every_pair() {
    for a in 0..=255u8 {
        for b in 0..=255u8 {
            let g = a.gcd(b);
            if g != 0 {
                assert_eq!(0, a % g);
                assert_eq!(0, b % g);
            }
        }
    }
}

#[test]
fn result_is_greatest_on_every_pair() {
    for a in 1..=255u8 {
        for b in 1..=255u8 {
            let g = a.gcd(b);
            for d in (g as u16 + 1)..=(a.min(b) as u16) {
                assert!(a as u16 % d != 0 || b as u16 % d != 0);
            }
        }
    }
}

#[test]
fn zero_on_either_side_for_every_value() {
    for n in 0..=255u8 {
        assert_eq!(n, n.gcd(0));
        assert_eq!(n, 0u8.gcd(n));
        assert_eq!(n, n.gcd_euclid(0));
        assert_eq!(n, 0u8.gcd_euclid(n));
    }
}

#[test]
fn commutative_on_every_pair() {
    for a in 0..=255u8 {
        for b in 0..=255u8 {
            assert_eq!(a.gcd(b), b.gcd(a));
            assert_eq!(a.gcd_euclid(b), b.gcd_euclid(a));
        }
    }
}

#[test]
fn self_gcd_on_every_value() {
    for a in 0..=255u8 {
        assert_eq!(a, a.gcd(a));
        assert_eq!(a, a.gcd_euclid(a));
    }
}
