use basm::math::{egcd, gcd, lcm, modinv, modmul, modpow};

#[test]
fn gcd_returns_gcd() {
    assert_eq!(32, gcd::<u32>(128736, 72352));
}

#[test]
fn lcm_returns_lcm() {
    assert_eq!(249318024, lcm::<u32>(234984, 12732));
}

#[test]
fn gcd_u64_returns_gcd() {
    assert_eq!(6, gcd::<u64>(2763162631554, 1276921782234));
}

#[test]
fn lcm_u64_returns_lcm() {
    assert_eq!(4264971179382324, lcm::<u64>(273652348, 62341452));
}

#[test]
fn egcd_returns_gcd() {
    let a: i128 = 823327498201749212;
    let b: i128 = 734892783927949214;
    let (g, s, t) = egcd(a, b);
    let normal = gcd(a as u64, b as u64) as i128;
    assert_eq!(normal, g);
    assert_eq!(a * s + b * t, g);
}

#[test]
fn egcd_handles_signs_and_zero() {
    let (g, s, t) = egcd(-12i32, 18i32);
    assert_eq!(6, g);
    assert_eq!(-12 * s + 18 * t, 6);
    let (g, s, t) = egcd(0i64, -5i64);
    assert_eq!(5, g);
    assert_eq!(-5 * t, 5);
    assert_eq!(0, 0 * s);
    let (g, _, _) = egcd(0i8, 0i8);
    assert_eq!(0, g);
    let (g, s, t) = egcd(i64::MAX, i64::MAX - 1);
    assert_eq!(1, g);
    assert_eq!(i64::MAX as i128 * s as i128 + (i64::MAX - 1) as i128 * t as i128, 1);
}

#[test]
fn modinv_returns_modinv() {
    assert_eq!(None, modinv(4i64, 16i64));
    assert_eq!(None, modinv(301i64, 7i64));
    assert_eq!(Some(4i64), modinv(3i64, 11i64));
    assert_eq!(Some(4u64), modinv(3u64, 11u64));
    let p = 0u64.wrapping_sub((1u64 << 32) - 1);
    assert_eq!(Some((p + 1) / 2), modinv(2u64, p));
}

#[test]
fn modpow_returns_modpow() {
    assert_eq!(Some(0i64), modpow(4i64, 4i64, 16i64));
    assert_eq!(None, modpow(4i64, -4i64, 16i64));
    assert_eq!(Some(1i64), modpow(2i64, 1_000_000_006i64, 1_000_000_007i64));
    assert_eq!(Some(1u64), modpow(2u64, 1_000_000_006u64, 1_000_000_007u64));
    let p = 0u64.wrapping_sub((1u64 << 32) - 1);
    assert_eq!(Some(1u64), modpow(2u64, p - 1, p));
    let p128 = 0u128.wrapping_sub(159);
    assert_eq!(Some(1u128), modpow(2u128, p128 - 1, p128));
}

#[test]
fn gcd_with_zero_is_the_other_argument() {
    assert_eq!(7, gcd::<u8>(0, 7));
    assert_eq!(9, gcd::<u16>(9, 0));
    assert_eq!(0, gcd::<usize>(0, 0));
    assert_eq!(0, lcm::<u64>(0, 0));
    assert_eq!(0, lcm::<u64>(0, 5));
    assert_eq!(u128::MAX, gcd::<u128>(u128::MAX, u128::MAX));
}

#[test]
fn modmul_reduces_the_product() {
    assert_eq!(1u64, modmul(3u64, 5u64, 7u64));
    assert_eq!(6i64, modmul(-3i64, 5i64, 7i64));
    let m = u128::MAX - 158;
    assert_eq!(m - 1, modmul(m - 1, 1u128, m));
    assert_eq!(1u128, modmul(m - 1, m - 1, m));
    assert_eq!(0u8, modmul(200u8, 200u8, 1u8));
}

#[test]
fn modinv_of_negative_and_large_values() {
    assert_eq!(Some(7i32), modinv(-3i32, 11i32));
    assert_eq!(Some(0u32), modinv(5u32, 1u32));
    assert_eq!(None, modinv(0u64, 5u64));
    let m = u128::MAX - 158;
    let inv = modinv(3u128, m).unwrap();
    assert_eq!(1u128, modmul(3u128, inv, m));
}

#[test]
fn modpow_with_negative_exponent_inverts() {
    assert_eq!(Some(4i64), modpow(3i64, -1i64, 11i64));
    assert_eq!(Some(5i64), modpow(3i64, -2i64, 11i64));
    assert_eq!(Some(1i64), modpow(5i64, 0i64, 7i64));
    assert_eq!(Some(2i64), modpow(-5i64, 1i64, 7i64));
    assert_eq!(Some(1024u32), modpow(2u32, 10u32, 100000u32));
}
