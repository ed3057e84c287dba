use gcd::{
    binary_u16, binary_u32, binary_u64, euclid_u16, euclid_u32, euclid_u64, Gcd,
};

#[test]
fn scenarios_u32() {
    assert_eq!(0, 0u32.gcd(0));
    assert_eq!(10, 10u32.gcd(0));
    assert_eq!(10, 0u32.gcd(10));
    assert_eq!(10, 10u32.gcd(20));
    assert_eq!(44, 2024u32.gcd(748));
    assert_eq!(44, 2024u32.gcd_euclid(748));
    assert_eq!(44, 748u32.gcd_binary(2024));
    assert_eq!(1, 17u32.gcd(13));
}

#[test]
fn scenarios_u16() {
    assert_eq!(44, 2024u16.gcd(748));
    assert_eq!(44, euclid_u16(2024, 748));
    assert_eq!(65535, 65535u16.gcd(0));
    assert_eq!(65535, 65535u16.gcd(65535));
    assert_eq!(1, 65535u16.gcd(65534));
    assert_eq!(32768, binary_u16(32768, 0));
    assert_eq!(16384, binary_u16(32768, 49152));
}

#[test]
fn scenarios_u64() {
    assert_eq!(44, 2024u64.gcd(748));
    assert_eq!(u64::MAX, u64::MAX.gcd(u64::MAX));
    assert_eq!(u64::MAX, binary_u64(0, u64::MAX));
    assert_eq!(1 << 63, binary_u64(1 << 63, 0));
    assert_eq!(1 << 62, binary_u64(1 << 63, 3 << 62));
    assert_eq!(1 << 62, euclid_u64(1 << 63, 3 << 62));
    assert_eq!(1, (u64::MAX).gcd(u64::MAX - 1));
    // two large coprime values
    assert_eq!(1, 18446744073709551557u64.gcd(18446744073709551533));
    assert_eq!(1, 18446744073709551557u64.gcd_euclid(18446744073709551533));
}

#[test]
fn large_common_factor_u32() {
    let f = 65521u32;
    assert_eq!(f, (f * 3).gcd(f * 5));
    assert_eq!(f * 4, (f * 8).gcd(f * 12));
    assert_eq!(f * 4, euclid_u32(f * 8, f * 12));
    assert_eq!(f * 4, binary_u32(f * 12, f * 8));
}

#[test]
fn algorithms_agree_u16_sample() {
    let mut a: u16 = 1;
    for _ in 0..2000 {
        a = a.wrapping_mul(25173).wrapping_add(13849);
        let b = a.rotate_left(7) ^ 0x5a5a;
        assert_eq!(binary_u16(a, b), euclid_u16(a, b));
        assert_eq!(a.gcd(b), b.gcd(a));
    }
}

#[test]
fn algorithms_agree_u64_sample() {
    let mut a: u64 = 0x9e3779b97f4a7c15;
    for _ in 0..2000 {
        a = a.wrapping_mul(6364136223846793005).wrapping_add(1442695040888963407);
        let b = (a >> 17) * ((a & 0xff) + 1);
        let c = a & 0xffff_ffff_ffff_fff0;
        let g = binary_u64(c, b);
        assert_eq!(g, euclid_u64(c, b));
        if g != 0 {
            assert_eq!(0, c % g);
            assert_eq!(0, b % g);
        }
    }
}

#[test]
fn zero_and_self_every_width() {
    for n in [0u64, 1, 2, 3, 1000, u64::MAX] {
        assert_eq!(n, n.gcd(0));
        assert_eq!(n, 0u64.gcd(n));
        assert_eq!(n, n.gcd(n));
        assert_eq!(n, n.gcd_euclid(n));
    }
    for n in [0u32, 1, 7, u32::MAX] {
        assert_eq!(n, n.gcd(0));
        assert_eq!(n, 0u32.gcd_euclid(n));
        assert_eq!(n, n.gcd_binary(n));
    }
    for n in [0u16, 1, 6, u16::MAX] {
        assert_eq!(n, 0u16.gcd(n));
        assert_eq!(n, n.gcd_euclid(0));
    }
}
