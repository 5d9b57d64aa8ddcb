//! Montgomery reduction and field-element arithmetic on small moduli, against plain integer
//! arithmetic.

use zkboo_modular::field::{const_word, invert_const, one_word, zero_word, FieldRep};
use zkboo_modular::montgomery::{MontgomeryMod, MontgomeryWord};
use zkboo_modular::word::CompositeWord;

fn word16(x: u16) -> CompositeWord {
    CompositeWord::from_le_bytes(x.to_le_bytes().to_vec())
}

fn value16(w: &CompositeWord) -> u16 {
    let b = w.to_le_bytes();
    u16::from_le_bytes([b[0], b[1]])
}

/// The Montgomery modulus `n` over 16-bit words (`R = 2^16`).
fn mont16(n: u16) -> MontgomeryMod {
    let r: u64 = 1 << 16;
    let rr = ((r % n as u64) * (r % n as u64)) % n as u64;
    // n * inv ≡ 1 (mod R) by search, then negate.
    let mut inv = 1u64;
    while (n as u64 * inv) % r != 1 {
        inv += 2;
    }
    let n_neg_inv = (r - inv) % r;
    MontgomeryMod::new(word16(n), word16(rr as u16), word16(n_neg_inv as u16)).unwrap()
}

const N: u16 = 65521; // the largest prime below 2^16

fn pow_mod(b: u64, e: u64, n: u64) -> u64 {
    let mut res = 1u64;
    for _ in 0..e {
        res = res * b % n;
    }
    res
}

#[test]
fn montgomery_constants_are_checked() {
    let good = mont16(N);
    assert_eq!(value16(&good.n()), N);
    assert_eq!(value16(&good.rr_mod_n()), ((1u64 << 32) % N as u64) as u16);
    let r = 1u64 << 16;
    assert_eq!((N as u64 * value16(&good.n_neg_inv()) as u64) % r, r - 1);
    // wrong rr_mod_n
    assert!(MontgomeryMod::new(word16(N), word16(1), good.n_neg_inv()).is_none());
    // wrong n_neg_inv
    assert!(MontgomeryMod::new(word16(N), good.rr_mod_n(), word16(1)).is_none());
    // even modulus
    assert!(MontgomeryMod::new(word16(100), word16(0), word16(0)).is_none());
    // modulus one, odd, is accepted with its constants
    assert!(MontgomeryMod::new(word16(1), word16(0), word16(0xffff)).is_some());
    // widths differ
    assert!(MontgomeryMod::new(word16(N), CompositeWord::from_le_bytes(vec![1]), good.n_neg_inv()).is_none());
}

#[test]
fn montgomery_conversions() {
    let m = mont16(N);
    let r = 1u64 << 16;
    for v in [0u16, 1, 2, 12345, 65520, 65535] {
        let t = m.to_montgomery_const(&word16(v));
        assert_eq!(value16(&t) as u64, (v as u64 * r) % N as u64);
        let back = m.from_montgomery_const(&t);
        assert_eq!(value16(&back) as u64, v as u64 % N as u64);
        assert_eq!(value16(&m.reduce_const(&word16(v))) as u64, v as u64 % N as u64);
    }
    // redc of R is one: R · R^-1 = 1
    let r_mod_n = (r % N as u64) as u16;
    assert_eq!(value16(&m.redc_const(&word16(r_mod_n))), 1);
    // redc_wide of (lo, hi) = x·R reduces to x
    let x = 4321u64;
    let t = x * r;
    let lo = word16((t % r) as u16);
    let hi = word16((t / r) as u16);
    assert_eq!(value16(&m.redc_wide_const(&lo, &hi)), 4321);
}

#[test]
fn montgomery_word_arithmetic() {
    let m = mont16(N);
    let n = N as u64;
    let samples = [0u16, 1, 2, 3, 1000, 40000, 65520];
    for &a in samples.iter() {
        for &b in samples.iter() {
            let x = MontgomeryWord::new(&word16(a), &m);
            let y = MontgomeryWord::new(&word16(b), &m);
            let (a, b) = (a as u64, b as u64);
            assert_eq!(value16(&x.add(&y).value()) as u64, (a + b) % n);
            assert_eq!(value16(&x.sub(&y).value()) as u64, (a + n - b) % n);
            assert_eq!(value16(&x.mul(&y).value()) as u64, (a * b) % n);
            // subtraction undoes addition
            assert_eq!(value16(&x.add(&y).sub(&y).value()) as u64, a);
        }
        let x = MontgomeryWord::new(&word16(a), &m);
        assert_eq!(value16(&x.neg().value()) as u64, (n - a as u64) % n);
        assert_eq!(value16(&x.add(&x.neg()).value()), 0);
        assert_eq!(x.is_zero(), a == 0);
        assert_eq!(x.is_nonzero(), a != 0);
    }
}

#[test]
fn montgomery_word_accessors() {
    let m = mont16(N);
    let x = MontgomeryWord::new(&word16(7), &m);
    let r = 1u64 << 16;
    assert_eq!(value16(x.inner()) as u64, 7 * r % N as u64);
    assert_eq!(x.modulus(), &m);
    let inner = x.duplicate().into_inner();
    let y = MontgomeryWord::from_inner(inner, &m);
    assert_eq!(value16(&y.value()), 7);
    let (inner, modulus) = y.destructure();
    assert_eq!(value16(&inner) as u64, 7 * r % N as u64);
    assert_eq!(modulus, &m);
    assert_eq!(x.into_modulus(), &m);
}

#[test]
fn montgomery_inverse() {
    let m = mont16(N);
    for a in [1u16, 2, 3, 777, 65520] {
        let x = MontgomeryWord::new(&word16(a), &m);
        let inv = x.inv();
        assert_eq!(value16(&inv.value()) as u64, pow_mod(a as u64, N as u64 - 2, N as u64));
        assert_eq!(value16(&x.mul(&inv).value()), 1);
    }
}

#[test]
fn field_rep_constants() {
    let m = mont16(N);
    assert_eq!(value16(&zero_word(&m).value()), 0);
    assert_eq!(value16(&one_word(&m).value()), 1);
    assert_eq!(value16(&const_word(&m, &word16(65535)).value()), 65535 % N);
    assert_eq!(value16(&FieldRep::modulus(&m)), N);
    let enc = m.encode_const(&word16(9));
    assert_eq!(value16(&m.decode_const(&enc)), 9);
    // the native inverse in the internal representation
    let inv_internal = invert_const(&m, &enc);
    assert_eq!(value16(&m.decode_const(&inv_internal)) as u64, pow_mod(9, N as u64 - 2, N as u64));
    assert_eq!((9 * value16(&m.decode_const(&inv_internal)) as u64) % N as u64, 1);
}

#[test]
fn zeroize_erases_the_value_and_keeps_the_modulus() {
    let m = mont16(N);
    let mut x = MontgomeryWord::new(&word16(1234), &m);
    x.zeroize();
    assert!(x.is_zero());
    assert_eq!(value16(&x.value()), 0);
    assert_eq!(x.modulus(), &m);
    let mut w = word16(0xbeef);
    w.zeroize();
    assert_eq!(w.to_le_bytes(), vec![0, 0]);
}

#[test]
fn redc_of_a_zero_high_half_matches_redc_wide() {
    let m = mont16(N);
    for v in [0u16, 1, 999, 65535] {
        assert_eq!(m.redc_const(&word16(v)), m.redc_wide_const(&word16(v), &word16(0)));
    }
}

#[test]
fn one_and_zero_are_identities() {
    let m = mont16(N);
    let one = one_word(&m);
    let zero = zero_word(&m);
    for a in [0u16, 5, 65520] {
        let x = MontgomeryWord::new(&word16(a), &m);
        assert_eq!(value16(&x.mul(&one).value()), a);
        assert_eq!(value16(&x.add(&zero).value()), a);
        assert_eq!(value16(&x.sub(&zero).value()), a);
    }
}

#[test]
fn montgomery_word_constant_operations() {
    let m = mont16(N);
    let n = N as u64;
    let a = MontgomeryWord::new(&word16(12345), &m);
    // constants at or above the modulus are reduced too
    for c in [0u16, 1, 2, 777, N - 1, N, 65535] {
        let want_add = ((12345 + c as u64) % n) as u16;
        let want_mul = ((12345 * c as u64) % n) as u16;
        assert_eq!(value16(&a.add_const(&word16(c)).value()), want_add, "add_const {c}");
        assert_eq!(value16(&a.mul_const(&word16(c)).value()), want_mul, "mul_const {c}");
        let b = MontgomeryWord::new(&word16(9), &m);
        assert_eq!(value16(&b.into_const(&word16(c)).value()), (c as u64 % n) as u16, "into_const {c}");
    }
    let z = MontgomeryWord::new(&word16(4321), &m).into_zero();
    assert_eq!(value16(&z.value()), 0);
    assert_eq!(value16(&z.modulus().n()), N);
}

#[test]
fn montgomery_word_safegcd_inverse() {
    let m = mont16(N);
    for x in [1u16, 2, 3, 100, 4660, N - 2, N - 1] {
        let a = MontgomeryWord::new(&word16(x), &m);
        let inv = a.safegcd_inv();
        assert_eq!(value16(&a.mul(&inv).value()), 1, "safegcd inverse of {x}");
        // agrees with the inverse by the exponent n - 2
        assert_eq!(value16(&inv.value()), value16(&a.inv().value()), "inverses differ for {x}");
    }
    let zero = MontgomeryWord::new(&word16(0), &m);
    assert_eq!(value16(&zero.safegcd_inv().value()), 0);
    // a composite modulus: a * a^-1 is the gcd, e.g. 3 * r ≡ 3 (mod 9)
    let m9 = mont16(9);
    let three = MontgomeryWord::new(&word16(3), &m9);
    let r = three.safegcd_inv();
    assert_eq!(value16(&three.mul(&r).value()), 3);
}
