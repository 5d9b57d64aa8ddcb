//! Edge-case validation for the constant-time safegcd modular inverse, at the 256-bit secp256k1
//! width: `1`, `2`, `p-1` (≡ -1), `p-2`, a tiny value, and `0` (non-invertible), checked by the
//! defining property `a · a⁻¹ ≡ 1 (mod p)` (and `a⁻¹ = 0` for `a = 0`).

use zkboo_modular::montgomery::{MontgomeryMod, MontgomeryWord};
use zkboo_modular::safegcd::{divstep_count, safegcd_invert};
use zkboo_modular::word::CompositeWord;

/// A 256-bit word from two u128 limbs, most significant first.
fn from_be_words(w: [u128; 2]) -> CompositeWord {
    let mut bytes = w[1].to_le_bytes().to_vec();
    bytes.extend_from_slice(&w[0].to_le_bytes());
    CompositeWord::from_le_bytes(bytes)
}

fn from_le_words(w: [u128; 2]) -> CompositeWord {
    from_be_words([w[1], w[0]])
}

/// secp256k1 base field modulus, as two u128 limbs.
fn secp256k1() -> MontgomeryMod {
    MontgomeryMod::new(
        from_be_words([0xffffffffffffffffffffffffffffffff, 0xfffffffffffffffffffffffefffffc2f]),
        from_be_words([0x0, 0x1000007a2000e90a1]),
        from_be_words([0xc9bd1905155383999c46c2c295f2b761, 0xbcb223fedc24a059d838091dd2253531]),
    )
    .unwrap()
}

/// `a · a⁻¹` in canonical form, with the inverse from safegcd.
fn check(a: CompositeWord, expect_one: bool) {
    let m = secp256k1();
    let p = m.n();
    let inv = safegcd_invert(&a, &p);
    let aw = MontgomeryWord::new(&a, &m);
    let iw = MontgomeryWord::new(&inv, &m);
    let prod = aw.mul(&iw).value();
    let want = if expect_one { from_le_words([1, 0]) } else { from_le_words([0, 0]) };
    assert_eq!(prod, want, "a·a⁻¹ wrong for a={a:?}");
}

#[test]
fn safegcd_edges_secp256k1() {
    let p = secp256k1().n();
    let one = from_le_words([1, 0]);
    let two = from_le_words([2, 0]);
    // invertible edges: a · a⁻¹ == 1
    check(one.clone(), true);
    check(two.clone(), true);
    check(p.wrapping_sub(&one), true); // p - 1 ≡ -1
    check(p.wrapping_sub(&two), true); // p - 2
    check(from_le_words([0xdeadbeef, 0]), true);
    check(from_le_words([3, 0]), true);
    check(from_le_words([0, 1]), true); // 2^128
    // non-invertible: 0⁻¹ defined as 0, so 0·0⁻¹ == 0
    check(from_le_words([0, 0]), false);
}

#[test]
fn safegcd_random_secp256k1() {
    // Deterministic 256-bit pseudo-random spread, reduced below p, checked via a·a⁻¹ ≡ 1.
    let p = secp256k1().n();
    let mut lo: u128 = 0x9e3779b97f4a7c15f39cc0605cedc834;
    let mut hi: u128 = 0xc2b2ae3d27d4eb4f165667b19e3779b9;
    for _ in 0..32 {
        // xorshift-ish mixing
        lo = lo.wrapping_mul(6364136223846793005).wrapping_add(1442695040888963407);
        hi = hi.wrapping_mul(6364136223846793005).wrapping_add(lo);
        let mut a = from_le_words([lo, hi]);
        // ensure a < p and a != 0
        if a.ge(&p) {
            a = a.wrapping_sub(&p);
        }
        if a.is_zero() {
            a = from_le_words([1, 0]);
        }
        check(a, true);
    }
}

#[test]
fn safegcd_agrees_with_the_fermat_inverse() {
    let m = secp256k1();
    let p = m.n();
    for a in [from_le_words([5, 0]), from_le_words([0x1234_5678_9abc_def0, 77])] {
        let by_gcd = safegcd_invert(&a, &p);
        let by_fermat = MontgomeryWord::new(&a, &m).inv().value();
        assert_eq!(by_gcd, by_fermat);
    }
}

#[test]
fn safegcd_small_modulus() {
    // mod 7: 3 · 5 = 15 ≡ 1
    let p = CompositeWord::from_le_bytes(vec![7]);
    let a = CompositeWord::from_le_bytes(vec![3]);
    assert_eq!(safegcd_invert(&a, &p).to_le_bytes(), vec![5]);
    // mod 9, a = 3 is not invertible: 3·r ≡ |gcd| == 3 (mod 9) for the result r
    let p = CompositeWord::from_le_bytes(vec![9]);
    let r = safegcd_invert(&a, &CompositeWord::from_le_bytes(vec![9])).to_le_bytes()[0] as u32;
    assert_eq!((3 * r) % 9, 3);
    let _ = p;
}

#[test]
fn divstep_count_values() {
    // widths below 46 use 46
    assert_eq!(divstep_count(0), (49 * 46 + 80) / 17 + 2);
    assert_eq!(divstep_count(8), 139);
    assert_eq!(divstep_count(46), 139);
    assert_eq!(divstep_count(64), 191);
    assert_eq!(divstep_count(256), 744);
}

