//! The odd modulus one: every residue is zero, inversion gives zero, and the default inversion
//! exponent `n - 2` wraps around the word.

use zkboo_modular::montgomery::{MontgomeryMod, MontgomeryWord};
use zkboo_modular::safegcd::safegcd_invert;
use zkboo_modular::word::CompositeWord;

fn word32(x: u32) -> CompositeWord {
    CompositeWord::from_le_bytes(x.to_le_bytes().to_vec())
}

fn value32(w: &CompositeWord) -> u32 {
    let b = w.to_le_bytes();
    u32::from_le_bytes([b[0], b[1], b[2], b[3]])
}

/// The modulus one over 32-bit words: `R^2 mod 1 == 0`, and `1 * (2^32 - 1) ≡ -1 (mod 2^32)`.
fn modulus_one() -> MontgomeryMod {
    MontgomeryMod::new(word32(1), word32(0), word32(u32::MAX)).expect("modulus one is accepted")
}

#[test]
fn safegcd_modulus_one_gives_zero() {
    let inv = safegcd_invert(&word32(0), &word32(1));
    assert_eq!(value32(&inv), 0);
    let one_byte = CompositeWord::from_le_bytes(vec![1u8]);
    let zero_byte = CompositeWord::from_le_bytes(vec![0u8]);
    assert_eq!(safegcd_invert(&zero_byte, &one_byte).to_le_bytes(), vec![0u8]);
}

#[test]
fn montgomery_modulus_one_is_accepted() {
    let m = modulus_one();
    assert_eq!(value32(&m.n()), 1);
    // Wrong constants are still refused.
    assert!(MontgomeryMod::new(word32(1), word32(1), word32(u32::MAX)).is_none());
    assert!(MontgomeryMod::new(word32(1), word32(0), word32(1)).is_none());
}

#[test]
fn montgomery_modulus_one_default_exponent_wraps() {
    let e = modulus_one().inv_exp().expect("default inv_exp must be Some");
    assert_eq!(e.width(), 4);
    assert_eq!(value32(&e), u32::MAX);
}

#[test]
fn montgomery_modulus_one_arithmetic_is_zero() {
    let m = modulus_one();
    let a = MontgomeryWord::new(&word32(5), &m);
    let b = MontgomeryWord::new(&word32(7), &m);
    assert_eq!(value32(&a.value()), 0);
    assert_eq!(value32(&a.add(&b).value()), 0);
    assert_eq!(value32(&a.mul(&b).value()), 0);
    assert_eq!(value32(&a.inv().value()), 0);
    assert_eq!(value32(&a.neg().value()), 0);
}

#[test]
fn default_inv_exp_has_modulus_width() {
    let n = 97u32;
    let r = 1u128 << 32;
    let rr = (((r % 97) * (r % 97)) % 97) as u32;
    // n^-1 mod 2^32 by Newton's iteration; `new` checks n * n_neg_inv ≡ -1 itself.
    let mut n_inv: u32 = 1;
    for _ in 0..5 {
        n_inv = n_inv.wrapping_mul(2u32.wrapping_sub(n.wrapping_mul(n_inv)));
    }
    let n_neg_inv = n_inv.wrapping_neg();
    let m = MontgomeryMod::new(word32(n), word32(rr), word32(n_neg_inv)).unwrap();
    let e = m.inv_exp().unwrap();
    assert_eq!(e.width(), 4);
    assert_eq!(value32(&e), 95);
}
