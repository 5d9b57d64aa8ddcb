//! Facts of modular arithmetic that the reductions rest on.
use vstd::arithmetic::div_mod::*;
use vstd::arithmetic::mul::*;
use vstd::arithmetic::power::*;
use vstd::prelude::*;
use crate::word::pow256;

verus! {

/// The inverse of `2^bits` modulo an odd `n`: the `bits`-th power of `(n + 1) / 2`, reduced.
pub open spec fn pow2_inv(n: nat, bits: nat) -> nat {
    (pow(((n + 1) / 2) as int, bits) % (n as int)) as nat
}

/// `256^w` is `2^(8w)`.
pub proof fn lemma_pow256_is_pow2(w: nat)
    ensures
        pow256(w) == pow(2, 8 * w),
    decreases w,
{
    if w == 0 {
        reveal(pow);
    } else {
        lemma_pow256_is_pow2((w - 1) as nat);
        lemma_pow_adds(2, 8, (8 * (w - 1)) as nat);
        assert(8 * w == 8 + 8 * (w - 1));
        assert(pow(2, 8) == 256) by {
            reveal_with_fuel(pow, 9);
        }
    }
}

/// `pow2_inv(n, bits)` is the inverse of `2^bits` modulo an odd `n`.
pub proof fn lemma_pow2_inv(n: nat, bits: nat)
    requires
        n % 2 == 1,
    ensures
        (pow(2, bits) * pow2_inv(n, bits)) % (n as int) == 1int % (n as int),
        pow2_inv(n, bits) < n,
{
    if n == 1 {
        lemma_mod_bound(pow(((n + 1) / 2) as int, bits), 1);
        assert(pow2_inv(n, bits) == 0);
        assert(pow(2, bits) * 0 == 0);
        return;
    }
    let h = ((n + 1) / 2) as int;
    let ni = n as int;
    assert(2 * h == ni + 1);
    lemma_pow_distributes(2, h, bits);
    lemma_pow_mod_noop(ni + 1, bits, ni);
    assert((ni + 1) % ni == 1) by {
        lemma_mod_add_multiples_vanish(1, ni);
        lemma_small_mod(1, n);
    }
    lemma1_pow(bits);
    lemma_small_mod(1, n);
    // pow(2, bits) * (pow(h, bits) % n) ≡ pow(2, bits) * pow(h, bits) == pow(n + 1, bits) ≡ 1
    lemma_mul_mod_noop_right(pow(2, bits), pow(h, bits), ni);
    lemma_pow_positive(h, bits);
    lemma_mod_bound(pow(h, bits), ni);
}

/// Multiplying both sides of a congruence by the same factor keeps it.
pub proof fn lemma_mul_congruent(a: int, b: int, c: int, m: int)
    requires
        m > 0,
        a % m == b % m,
    ensures
        (a * c) % m == (b * c) % m,
{
    lemma_mul_mod_noop_left(a, c, m);
    lemma_mul_mod_noop_left(b, c, m);
}

/// If `x * f ≡ t (mod m)` and `f * k ≡ 1 (mod m)`, then `x ≡ t * k (mod m)`.
pub proof fn lemma_cancel_factor(x: int, f: int, k: int, t: int, m: int)
    requires
        m > 0,
        (x * f) % m == t % m,
        (f * k) % m == 1int % m,
    ensures
        x % m == (t * k) % m,
{
    lemma_mul_congruent(x * f, t, k, m);
    lemma_mul_is_associative(x, f, k);
    lemma_mul_congruent(f * k, 1, x, m);
    lemma_mul_is_commutative(f * k, x);
}

/// The arithmetic of Montgomery's reduction. With `n * n' ≡ -1 (mod R)` and
/// `m = lo * n' mod R`, the sum `T + m * n` (where `T = lo + hi * R`) is a multiple of `R`, its
/// quotient `q` is below `2n` when `T < n * R`, and `q * R ≡ T (mod n)`.
pub proof fn lemma_redc(n: int, r: int, nni: int, lo: int, hi: int, m: int)
    requires
        n > 0,
        r > 0,
        0 <= lo < r,
        0 <= hi,
        lo + hi * r < n * r,
        0 <= nni,
        (n * nni) % r == r - 1,
        m == (lo * nni) % r,
    ensures
        (lo + m * n) % r == 0,
        ({
            let q = (lo + hi * r + m * n) / r;
            &&& q * r == lo + hi * r + m * n
            &&& 0 <= q < 2 * n
            &&& (q * r) % n == (lo + hi * r) % n
        }),
{
    // m * n ≡ lo * nni * n == lo * (n * nni) ≡ lo * (r - 1) ≡ -lo (mod r)
    assert((m * n) % r == ((lo * nni) * n) % r) by {
        lemma_mul_mod_noop_left(lo * nni, n, r);
        lemma_mod_twice(lo * nni, r);
    }
    assert((lo * nni) * n == lo * (n * nni)) by {
        lemma_mul_is_associative(lo, nni, n);
        lemma_mul_is_commutative(nni, n);
    }
    assert((lo * (n * nni)) % r == (lo * (r - 1)) % r) by {
        lemma_mul_mod_noop_right(lo, n * nni, r);
        lemma_mul_mod_noop_right(lo, r - 1, r);
        lemma_small_mod((r - 1) as nat, r as nat);
    }
    assert((lo * (r - 1)) % r == (-lo) % r) by {
        assert(lo * (r - 1) == lo * r + (-lo)) by (nonlinear_arith);
        lemma_mod_multiples_vanish(lo, -lo, r);
        lemma_mul_is_commutative(lo, r);
    }
    assert((lo + m * n) % r == 0) by {
        lemma_add_mod_noop(lo, m * n, r);
        lemma_add_mod_noop(lo, -lo, r);
        lemma_mod_self_0(r);
        assert(lo + -lo == 0);
        lemma_small_mod(0, r as nat);
    }
    let s = lo + hi * r + m * n;
    assert(s % r == 0) by {
        lemma_mul_is_commutative(hi, r);
        assert(s == r * hi + (lo + m * n));
        lemma_mod_multiples_vanish(hi, lo + m * n, r);
    }
    lemma_fundamental_div_mod(s, r);
    let q = s / r;
    lemma_mul_is_commutative(r, q);
    assert(q * r == s);
    // bound: m < r, so m * n < n * r and s < 2 * n * r
    lemma_mod_bound(lo * nni, r);
    assert(m * n < n * r) by (nonlinear_arith)
        requires
            0 <= m < r,
            n > 0,
    ;
    assert(s < 2 * n * r) by (nonlinear_arith)
        requires
            s == lo + hi * r + m * n,
            lo + hi * r < n * r,
            m * n < n * r,
    ;
    assert(q < 2 * n) by (nonlinear_arith)
        requires
            q * r == s,
            s < 2 * n * r,
            r > 0,
    ;
    assert(0 <= q) by (nonlinear_arith)
        requires
            q * r == s,
            s >= 0,
            r > 0,
    ;
    // congruence mod n
    assert(s % n == (lo + hi * r) % n) by {
        lemma_mod_multiples_vanish(m, lo + hi * r, n);
        lemma_mul_is_commutative(m, n);
        assert(s == n * m + (lo + hi * r));
    }
}

/// Multiplying by `f` and then by its inverse `k` leaves a residue unchanged.
pub proof fn lemma_times_unit(a: int, f: int, k: int, m: int)
    requires
        m > 0,
        (f * k) % m == 1int % m,
    ensures
        (a * f * k) % m == a % m,
{
    lemma_mul_is_associative(a, f, k);
    lemma_mul_mod_noop_right(a, f * k, m);
    lemma_mul_mod_noop_right(a, 1, m);
}

/// Decoding `(a + b) mod p` gives the sum of the decodings.
pub proof fn lemma_decode_add(a: int, b: int, k: int, p: int)
    requires
        p > 0,
    ensures
        (((a + b) % p) * k) % p == ((a * k) % p + (b * k) % p) % p,
{
    lemma_mul_mod_noop_left(a + b, k, p);
    lemma_mul_is_distributive_add_other_way(k, a, b);
    lemma_add_mod_noop(a * k, b * k, p);
}

/// Decoding `(a - b) mod p` gives the difference of the decodings.
pub proof fn lemma_decode_sub(a: int, b: int, k: int, p: int)
    requires
        p > 0,
    ensures
        (((a - b) % p) * k) % p == ((a * k) % p - (b * k) % p) % p,
{
    lemma_mul_mod_noop_left(a - b, k, p);
    lemma_mul_is_distributive_sub_other_way(k, a, b);
    lemma_sub_mod_noop(a * k, b * k, p);
}

/// Decoding `a * b * k mod p` gives the product of the decodings.
pub proof fn lemma_decode_mul(a: int, b: int, k: int, p: int)
    requires
        p > 0,
    ensures
        (((a * b * k) % p) * k) % p == (((a * k) % p) * ((b * k) % p)) % p,
{
    lemma_mul_mod_noop_left(a * b * k, k, p);
    lemma_mul_mod_noop(a * k, b * k, p);
    assert(a * b * k * k == (a * k) * (b * k)) by (nonlinear_arith);
}

/// One step of square-and-multiply: `res * base^e ≡ res' * (base^2)^(e / 2) (mod p)`, where
/// `res' = res * base` for odd `e` and `res` otherwise.
pub proof fn lemma_square_step(res: int, base: int, e: nat, p: int)
    requires
        p > 0,
    ensures
        (res * pow(base, e)) % p == ((if e % 2 == 1 { (res * base) % p } else { res }) * pow(
            (base * base) % p,
            e / 2,
        )) % p,
{
    let h = e / 2;
    let sq = (base * base) % p;
    lemma_pow_mod_noop(base * base, h, p);
    lemma_pow_multiplies(base, 2, h);
    assert(pow(base, 2) == base * base) by {
        reveal_with_fuel(pow, 3);
    }
    let ph = pow(base * base, h);
    assert(pow(base, 2 * h) == ph);
    if e % 2 == 1 {
        assert(e == 1 + 2 * h);
        lemma_pow_adds(base, 1, 2 * h);
        assert(pow(base, 1) == base) by {
            reveal_with_fuel(pow, 2);
        }
        // res * pow(base, e) == (res * base) * ph
        lemma_mul_is_associative(res, base, ph);
        lemma_mul_mod_noop_left(res * base, ph, p);
        lemma_mul_mod_noop_left(res * base, pow(sq, h), p);
        lemma_mul_mod_noop_right(res * base, ph, p);
        lemma_mul_mod_noop_right(res * base, pow(sq, h), p);
        lemma_mod_twice(res * base, p);
    } else {
        assert(e == 2 * h);
        lemma_mul_mod_noop_right(res, ph, p);
        lemma_mul_mod_noop_right(res, pow(sq, h), p);
    }
}

} // verus!
