//! The default inversion exponent `n - 2` (Fermat's little theorem for a prime modulus), and
//! inversion with it on 32-bit prime moduli.

use zkboo_modular::montgomery::{MontgomeryMod, MontgomeryWord};
use zkboo_modular::safegcd::safegcd_invert;
use zkboo_modular::word::CompositeWord;

fn modinv_i128(a: i128, m: i128) -> Option<i128> {
    let (mut t, mut new_t) = (0, 1);
    let (mut r, mut new_r) = (m, a);
    while new_r != 0 {
        let q = r / new_r;
        (t, new_t) = (new_t, t - q * new_t);
        (r, new_r) = (new_r, r - q * new_r);
    }
    if r > 1 {
        return None;
    }
    if t < 0 {
        t += m;
    }
    return Some(t);
}

fn word32(x: u32) -> CompositeWord {
    CompositeWord::from_le_bytes(x.to_le_bytes().to_vec())
}

fn value32(w: &CompositeWord) -> u32 {
    let b = w.to_le_bytes();
    u32::from_le_bytes([b[0], b[1], b[2], b[3]])
}

/// A prime modulus over 32-bit words, with its Montgomery constants for `R = 2^32` and the
/// default inversion exponent.
fn prime_mod(n: u32) -> MontgomeryMod {
    let n128 = n as u128;
    let r = 1u128 << 32;
    let r_mod_n = r % n128;
    let rr = ((r_mod_n * r_mod_n) % n128) as u32;
    let n_inv = modinv_i128(n128 as i128, r as i128).unwrap() as u128;
    assert!((n128 * n_inv) % r == 1, "n_inv is not correct");
    let n_neg_inv = r.wrapping_sub(n_inv) as u32;
    MontgomeryMod::new(word32(n), word32(rr), word32(n_neg_inv)).unwrap()
}

/// `a * a^{-1} == 1 (mod p)`, with the inverse by the default exponent and by safegcd.
fn check_inv(p: u32, a: u32) {
    let m = prime_mod(p);
    let aw = MontgomeryWord::new(&word32(a), &m);
    let inv = aw.inv();
    let prod = aw.mul(&inv);
    let out = value32(&prod.value());
    assert_eq!(out, 1, "a * a^-1 should be 1 mod {p} (a = {a})");
    let inv2 = safegcd_invert(&word32(a % p), &word32(p));
    assert_eq!(value32(&inv2), value32(&inv.value()), "safegcd and Fermat inverses differ mod {p} (a = {a})");
}

#[test]
fn test_default_inv_exp_value() {
    // The default inv_exp must equal n - 2.
    for &p in &[97u32, 65537, 2147483647] {
        let m = prime_mod(p);
        let exp = value32(&m.inv_exp().expect("default inv_exp must be Some"));
        assert_eq!(exp, p - 2, "default inv_exp should be n - 2");
    }
}

#[test]
fn test_inv_small_prime() {
    let p = 97u32;
    for a in 1..p {
        check_inv(p, a);
    }
}

#[test]
fn test_inv_fermat_prime() {
    let p = 65537u32; // F4
    for a in [1, 2, 3, 100, 256, 65535, 65536] {
        check_inv(p, a);
    }
}

#[test]
fn test_inv_mersenne_prime() {
    let p = 2147483647u32; // M31 = 2^31 - 1
    for a in [1u32, 2, 3, 7, 12345, 1 << 20, p - 1, p / 2] {
        check_inv(p, a);
    }
}

#[test]
fn inv_of_zero_is_zero() {
    let m = prime_mod(97);
    let z = MontgomeryWord::new(&word32(0), &m);
    assert_eq!(value32(&z.inv().value()), 0);
    assert_eq!(value32(&safegcd_invert(&word32(0), &word32(97)).clone()), 0);
}

#[test]
fn no_inversion_exponent_can_be_set() {
    let m = prime_mod(97).with_inv_exp(Some(word32(5)));
    let a = MontgomeryWord::new(&word32(3), &m);
    // 3^5 = 243 = 2 * 97 + 49
    assert_eq!(value32(&a.inv().value()), 49);
    let m = prime_mod(97).with_inv_exp(None);
    assert!(m.inv_exp().is_none());
}
