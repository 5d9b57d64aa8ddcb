//! Validates pseudo-Mersenne (Solinas) reduction and field multiplication against a simple
//! double-and-add reference, for the secp256k1 modulus p = 2^256 - (2^32 + 977).

use zkboo_modular::montgomery::{MontgomeryMod, MontgomeryWord};
use zkboo_modular::pseudo_mersenne::PseudoMersenneMod;
use zkboo_modular::word::CompositeWord;

type Limbs = [u64; 4];

const P: Limbs = [0xfffffffefffffc2f, 0xffffffffffffffff, 0xffffffffffffffff, 0xffffffffffffffff];
const C: Limbs = [0x00000001_000003d1, 0, 0, 0];

fn to_word(x: Limbs) -> CompositeWord {
    let mut bytes = Vec::new();
    for limb in x.iter() {
        bytes.extend_from_slice(&limb.to_le_bytes());
    }
    CompositeWord::from_le_bytes(bytes)
}

fn from_word(w: &CompositeWord) -> Limbs {
    let b = w.to_le_bytes();
    let mut out = [0u64; 4];
    for i in 0..4 {
        let mut chunk = [0u8; 8];
        chunk.copy_from_slice(&b[8 * i..8 * i + 8]);
        out[i] = u64::from_le_bytes(chunk);
    }
    out
}

fn ge(a: &Limbs, b: &Limbs) -> bool {
    for i in (0..4).rev() {
        if a[i] != b[i] {
            return a[i] > b[i];
        }
    }
    true
}

fn add(a: &Limbs, b: &Limbs) -> (Limbs, bool) {
    let mut out = [0u64; 4];
    let mut carry = 0u128;
    for i in 0..4 {
        let t = a[i] as u128 + b[i] as u128 + carry;
        out[i] = t as u64;
        carry = t >> 64;
    }
    (out, carry == 1)
}

fn sub(a: &Limbs, b: &Limbs) -> Limbs {
    let mut out = [0u64; 4];
    let mut borrow = 0i128;
    for i in 0..4 {
        let t = a[i] as i128 - b[i] as i128 - borrow;
        if t < 0 {
            out[i] = (t + (1i128 << 64)) as u64;
            borrow = 1;
        } else {
            out[i] = t as u64;
            borrow = 0;
        }
    }
    out
}

fn add_mod(a: &Limbs, b: &Limbs, p: &Limbs) -> Limbs {
    let (s, carry) = add(a, b);
    if carry || ge(&s, p) {
        sub(&s, p)
    } else {
        s
    }
}

fn reduce(a: &Limbs, p: &Limbs) -> Limbs {
    let mut x = *a;
    while ge(&x, p) {
        x = sub(&x, p);
    }
    x
}

/// `a * b mod p` by double-and-add over the bits of `a`.
fn mul_mod_ref(a: &Limbs, b: &Limbs, p: &Limbs) -> Limbs {
    let a = reduce(a, p);
    let b = reduce(b, p);
    let mut res = [0u64; 4];
    for i in (0..256).rev() {
        res = add_mod(&res, &res, p);
        if (a[i / 64] >> (i % 64)) & 1 == 1 {
            res = add_mod(&res, &b, p);
        }
    }
    res
}

fn modulus() -> PseudoMersenneMod {
    PseudoMersenneMod::new(to_word(P), to_word(C)).unwrap()
}

fn check_mul(a: Limbs, b: Limbs) {
    let m = modulus();
    let x = MontgomeryWord::new(&to_word(a), &m);
    let y = MontgomeryWord::new(&to_word(b), &m);
    let got = from_word(&x.mul(&y).value());
    let want = mul_mod_ref(&a, &b, &P);
    assert_eq!(got, want, "pseudo-Mersenne mul wrong for a={a:?} b={b:?}");
    // The wide reduction on its own, of the plain product.
    let (lo, hi) = to_word(a).wide_mul(&to_word(b));
    let red = from_word(&m.reduce_wide_const(&lo, &hi));
    assert_eq!(red, want, "pseudo-Mersenne reduction wrong for a={a:?} b={b:?}");
    // Multiplication in canonical form, on the operands as given (reduced or not).
    let prod = from_word(&m.mul(&to_word(a), &to_word(b)));
    assert_eq!(prod, want, "pseudo-Mersenne canonical mul wrong for a={a:?} b={b:?}");
}

#[test]
fn pseudo_mersenne_mul_edges() {
    let one: Limbs = [1, 0, 0, 0];
    let zero: Limbs = [0, 0, 0, 0];
    let pm1 = sub(&P, &one);
    check_mul(zero, pm1);
    check_mul(one, pm1);
    check_mul(pm1, pm1); // (p-1)^2 — stresses the high half of the product
    check_mul(sub(&P, &[2, 0, 0, 0]), pm1);
    check_mul([0, 0, 0, 0xffffffffffffffff], pm1);
    check_mul([u64::MAX, u64::MAX, u64::MAX, u64::MAX], one);
}

#[test]
fn pseudo_mersenne_mul_random() {
    // deterministic pseudo-random pairs reduced below p
    let mut lo: u64 = 0x9e3779b97f4a7c15;
    let mut hi: u64 = 0xc2b2ae3d27d4eb4f;
    let mut next = || {
        lo = lo.wrapping_mul(6364136223846793005).wrapping_add(1442695040888963407);
        hi = hi.wrapping_mul(6364136223846793005).wrapping_add(lo);
        let w: Limbs = [lo, hi, lo ^ hi, hi.wrapping_add(lo)];
        reduce(&w, &P)
    };
    for _ in 0..64 {
        let a = next();
        let b = next();
        check_mul(a, b);
    }
}

#[test]
fn pseudo_mersenne_reduce_of_the_largest_wide_value() {
    // (2^256 - 1) * 2^256 + (2^256 - 1) = 2^512 - 1
    let m = modulus();
    let max = to_word([u64::MAX; 4]);
    let got = from_word(&m.reduce_wide_const(&max, &max));
    // 2^512 - 1 = (2^256 - 1)(2^256 + 1); mod p, 2^256 ≡ c, so ≡ (c - 1)(c + 1) = c^2 - 1.
    let c = C[0] as u128;
    let c2m1 = c * c - 1;
    let want: Limbs = [c2m1 as u64, (c2m1 >> 64) as u64, 0, 0];
    assert_eq!(got, want);
}

#[test]
fn pseudo_mersenne_encode_reduces_values_above_p() {
    let m = modulus();
    // p + 5 encodes to 5
    let (v, _) = add(&P, &[5, 0, 0, 0]);
    let x = MontgomeryWord::new(&to_word(v), &m);
    assert_eq!(from_word(&x.value()), [5, 0, 0, 0]);
    assert_eq!(from_word(x.inner()), [5, 0, 0, 0]);
}

#[test]
fn pseudo_mersenne_rejects_inconsistent_constants() {
    // c not 2^256 - p
    assert!(PseudoMersenneMod::new(to_word(P), to_word([0x3d0, 0, 0, 0])).is_none());
    // even p
    let even = sub(&P, &[1, 0, 0, 0]);
    let c_even = add(&C, &[1, 0, 0, 0]).0;
    assert!(PseudoMersenneMod::new(to_word(even), to_word(c_even)).is_none());
    // c too large: c * c >= 2^256
    let big_c: Limbs = [0, 0, 1, 0];
    let p_small = sub(&[0, 0, 0, 0], &big_c);
    assert!(PseudoMersenneMod::new(to_word(p_small), to_word(big_c)).is_none());
    // widths differ
    let short = CompositeWord::from_le_bytes(vec![0xd1, 0x03, 0, 0, 1, 0, 0, 0]);
    assert!(PseudoMersenneMod::new(to_word(P), short).is_none());
    let m = modulus();
    assert_eq!(from_word(&m.p()), P);
    assert_eq!(from_word(&m.c()), C);
}

#[test]
fn montgomery_and_pseudo_mersenne_agree() {
    let mont = MontgomeryMod::new(
        to_word(P),
        to_word([0x000007a2000e90a1, 1, 0, 0]),
        to_word([0xd838091dd2253531, 0xbcb223fedc24a059, 0x9c46c2c295f2b761, 0xc9bd190515538399]),
    )
    .unwrap();
    let pm = modulus();
    let samples: [Limbs; 3] = [[3, 0, 0, 0], [0x1234, 0x5678, 0x9abc, 0xdef0], sub(&P, &[1, 0, 0, 0])];
    for a in samples.iter() {
        for b in samples.iter() {
            let x = MontgomeryWord::new(&to_word(*a), &mont).mul(&MontgomeryWord::new(&to_word(*b), &mont));
            let y = MontgomeryWord::new(&to_word(*a), &pm).mul(&MontgomeryWord::new(&to_word(*b), &pm));
            assert_eq!(x.value(), y.value());
            let x = MontgomeryWord::new(&to_word(*a), &mont).sub(&MontgomeryWord::new(&to_word(*b), &mont));
            let y = MontgomeryWord::new(&to_word(*a), &pm).sub(&MontgomeryWord::new(&to_word(*b), &pm));
            assert_eq!(x.value(), y.value());
        }
    }
}
