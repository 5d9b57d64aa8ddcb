//! Fermat's little theorem, on which inversion by the exponent `p - 2` rests: for a prime `p` and
//! `a` not a multiple of `p`, `a^(p-1) ≡ 1 (mod p)`. Proved through the binomial expansion of
//! `(x + 1)^p` and the divisibility of the inner binomial coefficients by `p`.
use vstd::arithmetic::div_mod::*;
use vstd::arithmetic::mul::*;
use vstd::arithmetic::power::*;
use vstd::prelude::*;

verus! {

/// `p` is a prime.
pub open spec fn is_prime(p: nat) -> bool {
    &&& p > 1
    &&& forall|d: nat| 1 < d < p ==> #[trigger] (p % d) != 0
}

/// Euclid's lemma for a factor reduced below the prime: `p | a·b` with `0 < a < p` gives `p | b`.
proof fn lemma_euclid_reduced(a: nat, b: nat, p: nat)
    requires
        is_prime(p),
        0 < a < p,
        (a * b) % p == 0,
    ensures
        b % p == 0,
    decreases a,
{
    if a > 1 {
        let q = p / a;
        let r = p % a;
        lemma_fundamental_div_mod(p as int, a as int);
        assert(r != 0) by {
            assert(p % a != 0);
        }
        lemma_mod_bound(p as int, a as int);
        let t = (a * b) / p;
        lemma_fundamental_div_mod((a * b) as int, p as int);
        // r·b == (p − q·a)·b == p·(b − q·t)
        assert(r * b == p * (b - q * t)) by (nonlinear_arith)
            requires
                p == a * q + r,
                a * b == p * t + 0,
        ;
        assert((r * b) % p == 0) by {
            lemma_mod_multiples_basic(b - q * t, p as int);
            lemma_mul_is_commutative(b - q * t, p as int);
        }
        lemma_euclid_reduced(r as nat, b, p);
    } else {
        assert(a * b == b) by (nonlinear_arith)
            requires
                a == 1,
        ;
    }
}

/// Euclid's lemma: a prime dividing a product divides one of its factors.
pub proof fn lemma_euclid(a: nat, b: nat, p: nat)
    requires
        is_prime(p),
        (a * b) % p == 0,
    ensures
        a % p == 0 || b % p == 0,
{
    if a % p != 0 {
        lemma_mul_mod_noop_left(a as int, b as int, p as int);
        lemma_mod_bound(a as int, p as int);
        lemma_euclid_reduced(a % p, b, p);
    }
}

/// The binomial coefficient `n choose k`, by Pascal's rule.
pub open spec fn binom(n: nat, k: nat) -> nat
    decreases n,
{
    if k == 0 {
        1
    } else if n == 0 {
        0
    } else {
        binom((n - 1) as nat, (k - 1) as nat) + binom((n - 1) as nat, k)
    }
}

proof fn lemma_binom_above(n: nat, k: nat)
    requires
        k > n,
    ensures
        binom(n, k) == 0,
    decreases n,
{
    if n > 0 {
        lemma_binom_above((n - 1) as nat, (k - 1) as nat);
        lemma_binom_above((n - 1) as nat, k);
    }
}

/// Absorption: `k·C(n, k) == n·C(n − 1, k − 1)`.
proof fn lemma_binom_absorb(n: nat, k: nat)
    requires
        n >= 1,
        k >= 1,
    ensures
        k * binom(n, k) == n * binom((n - 1) as nat, (k - 1) as nat),
    decreases n,
{
    let n1 = (n - 1) as nat;
    let k1 = (k - 1) as nat;
    if n == 1 {
        if k == 1 {
            assert(binom(1, 1) == binom(0, 0) + binom(0, 1));
            assert(binom(1, 1) == 1);
            assert(k * binom(n, k) == 1);
            assert(n * binom(n1, k1) == 1);
        } else {
            lemma_binom_above(0, k1);
            lemma_binom_above(0, k);
            assert(binom(1, k) == 0);
            assert(k * binom(n, k) == 0) by (nonlinear_arith)
                requires
                    binom(n, k) == 0,
            ;
            assert(n * binom(n1, k1) == 0) by (nonlinear_arith)
                requires
                    binom(n1, k1) == 0,
            ;
        }
    } else {
        let n2 = (n - 2) as nat;
        assert(binom(n, k) == binom(n1, k1) + binom(n1, k));
        lemma_binom_absorb(n1, k);
        // k·C(n−1, k) == (n−1)·C(n−2, k−1)
        if k == 1 {
            assert(binom(n1, 0) == 1);
            assert(binom(n2, 0) == 1);
            assert(k * binom(n, k) == binom(n1, k1) + k * binom(n1, k)) by (nonlinear_arith)
                requires
                    k == 1,
                    binom(n, k) == binom(n1, k1) + binom(n1, k),
            ;
            assert(n * binom(n1, k1) == n) by (nonlinear_arith)
                requires
                    binom(n1, k1) == 1,
            ;
            assert(n1 * binom(n2, k1) == n1) by (nonlinear_arith)
                requires
                    binom(n2, k1) == 1,
            ;
            assert(k * binom(n1, k) == n1);
            assert(k * binom(n, k) == n);
        } else {
            let k2 = (k - 2) as nat;
            lemma_binom_absorb(n1, k1);
            // (k−1)·C(n−1, k−1) == (n−1)·C(n−2, k−2)
            assert(binom(n1, k1) == binom(n2, k2) + binom(n2, k1));
            let a = binom(n1, k1) as int;
            let b = binom(n1, k) as int;
            let c = binom(n2, k2) as int;
            let d = binom(n2, k1) as int;
            assert(k * binom(n, k) == n * binom(n1, k1)) by (nonlinear_arith)
                requires
                    binom(n, k) == a + b,
                    k * b == n1 * d,
                    k1 * a == n1 * c,
                    a == c + d,
                    k == k1 + 1,
                    n == n1 + 1,
                    binom(n1, k1) == a,
            ;
        }
    }
}

/// A prime divides every inner binomial coefficient of its row.
proof fn lemma_prime_divides_binom(p: nat, k: nat)
    requires
        is_prime(p),
        0 < k < p,
    ensures
        binom(p, k) % p == 0,
{
    lemma_binom_absorb(p, k);
    let b = binom((p - 1) as nat, (k - 1) as nat);
    assert((k * binom(p, k)) % p == 0) by {
        lemma_mod_multiples_basic(b as int, p as int);
        lemma_mul_is_commutative(b as int, p as int);
    }
    lemma_euclid(k, binom(p, k), p);
    lemma_small_mod(k, p);
}

/// The value of a polynomial with coefficients `c` (constant term first) at `x`.
pub open spec fn poly_eval(c: Seq<int>, x: int) -> int
    decreases c.len(),
{
    if c.len() == 0 {
        0
    } else {
        c[0] + x * poly_eval(c.drop_first(), x)
    }
}

/// The coefficients of `(x + 1)·b(x)`.
spec fn shift_add(b: Seq<int>) -> Seq<int> {
    Seq::new(
        b.len() + 1,
        |k: int| (if k < b.len() { b[k] } else { 0 }) + (if k >= 1 { b[k - 1] } else { 0 }),
    )
}

proof fn lemma_eval_bump(c: Seq<int>, t: int, x: int)
    requires
        c.len() > 0,
    ensures
        poly_eval(c.update(0, c[0] + t), x) == poly_eval(c, x) + t,
{
    assert(c.update(0, c[0] + t).drop_first() =~= c.drop_first());
}

proof fn lemma_eval_shift_add(b: Seq<int>, x: int)
    ensures
        poly_eval(shift_add(b), x) == (x + 1) * poly_eval(b, x),
    decreases b.len(),
{
    if b.len() == 0 {
        let s = shift_add(b);
        assert(s.drop_first().len() == 0);
        assert(poly_eval(s.drop_first(), x) == 0);
        assert(s[0] == 0);
        assert(x * 0 == 0);
        assert((x + 1) * 0 == 0);
    } else {
        let b1 = b.drop_first();
        lemma_eval_shift_add(b1, x);
        let s = shift_add(b);
        let s1 = shift_add(b1);
        assert(s.drop_first() =~= s1.update(0, s1[0] + b[0]));
        lemma_eval_bump(s1, b[0], x);
        let e1 = poly_eval(b1, x);
        assert(poly_eval(s, x) == b[0] + x * ((x + 1) * e1 + b[0]));
        assert(b[0] + x * ((x + 1) * e1 + b[0]) == (x + 1) * (b[0] + x * e1)) by (nonlinear_arith);
    }
}

/// The coefficients of `(x + 1)^n`.
spec fn binom_row(n: nat) -> Seq<int> {
    Seq::new(n + 1, |k: int| binom(n, k as nat) as int)
}

/// The binomial theorem: `(x + 1)^n == Σ C(n, k)·x^k`.
proof fn lemma_binomial_theorem(n: nat, x: int)
    ensures
        poly_eval(binom_row(n), x) == pow(x + 1, n),
    decreases n,
{
    reveal(pow);
    if n == 0 {
        let r = binom_row(0);
        assert(r.drop_first().len() == 0);
        assert(poly_eval(r.drop_first(), x) == 0);
        assert(x * 0 == 0);
    } else {
        let n1 = (n - 1) as nat;
        lemma_binomial_theorem(n1, x);
        assert forall|k: int| 0 <= k < n + 1 implies binom_row(n)[k] == shift_add(binom_row(n1))[k] by {
            if k == n {
                lemma_binom_above(n1, k as nat);
            }
        }
        assert(binom_row(n) =~= shift_add(binom_row(n1)));
        lemma_eval_shift_add(binom_row(n1), x);
    }
}

/// Coefficients that agree modulo `p` give values that agree modulo `p`.
proof fn lemma_eval_congruent(c: Seq<int>, d: Seq<int>, x: int, p: int)
    requires
        p > 0,
        c.len() == d.len(),
        forall|k: int| 0 <= k < c.len() ==> #[trigger] (c[k] % p) == d[k] % p,
    ensures
        poly_eval(c, x) % p == poly_eval(d, x) % p,
    decreases c.len(),
{
    if c.len() > 0 {
        let c1 = c.drop_first();
        let d1 = d.drop_first();
        assert forall|k: int| 0 <= k < c1.len() implies #[trigger] (c1[k] % p) == d1[k] % p by {
            assert(c1[k] == c[k + 1]);
            assert(d1[k] == d[k + 1]);
        }
        lemma_eval_congruent(c1, d1, x, p);
        let ec = poly_eval(c1, x);
        let ed = poly_eval(d1, x);
        lemma_mul_mod_noop_right(x, ec, p);
        lemma_mul_mod_noop_right(x, ed, p);
        lemma_add_mod_noop(c[0], x * ec, p);
        lemma_add_mod_noop(d[0], x * ed, p);
        assert(c[0] % p == d[0] % p);
    }
}

/// The monomial `x^m` as coefficients.
spec fn monomial(m: nat) -> Seq<int> {
    Seq::new(m + 1, |k: int| if k == m { 1int } else { 0int })
}

proof fn lemma_eval_monomial(m: nat, x: int)
    ensures
        poly_eval(monomial(m), x) == pow(x, m),
    decreases m,
{
    reveal(pow);
    if m == 0 {
        let r = monomial(0);
        assert(r.drop_first().len() == 0);
        assert(poly_eval(r.drop_first(), x) == 0);
        assert(x * 0 == 0);
    } else {
        lemma_eval_monomial((m - 1) as nat, x);
        assert(monomial(m).drop_first() =~= monomial((m - 1) as nat));
    }
}

/// `x^p ≡ x (mod p)` for a prime `p`.
pub proof fn lemma_pow_prime(x: nat, p: nat)
    requires
        is_prime(p),
    ensures
        pow(x as int, p) % (p as int) == (x as int) % (p as int),
    decreases x,
{
    let pi = p as int;
    if x == 0 {
        lemma0_pow(p);
    } else {
        let y = (x - 1) as nat;
        lemma_pow_prime(y, p);
        lemma_binomial_theorem(p, y as int);
        // (y + 1)^p == Σ C(p, k)·y^k ≡ 1 + y^p (mod p)
        let ends = Seq::new(p + 1, |k: int| if k == 0 || k == p { 1int } else { 0int });
        assert forall|k: int| 0 <= k < binom_row(p).len() implies #[trigger] (binom_row(p)[k]
            % pi) == ends[k] % pi by {
            if 0 < k < p {
                lemma_prime_divides_binom(p, k as nat);
                lemma_small_mod(0, p);
            } else if k == p {
                assert(binom(p, p) == binom((p - 1) as nat, (p - 1) as nat) + binom((p - 1) as nat, p));
                lemma_binom_above((p - 1) as nat, p);
                lemma_binom_diagonal((p - 1) as nat);
            }
        }
        lemma_eval_congruent(binom_row(p), ends, y as int, pi);
        assert(ends.drop_first() =~= monomial((p - 1) as nat));
        lemma_eval_monomial((p - 1) as nat, y as int);
        reveal(pow);
        assert(pow(y as int, p) == y * pow(y as int, (p - 1) as nat));
        assert(poly_eval(ends, y as int) == 1 + pow(y as int, p));
        lemma_add_mod_noop(1, pow(y as int, p), pi);
        lemma_add_mod_noop(1, y as int, pi);
    }
}

proof fn lemma_binom_diagonal(n: nat)
    ensures
        binom(n, n) == 1,
    decreases n,
{
    if n > 0 {
        lemma_binom_diagonal((n - 1) as nat);
        lemma_binom_above((n - 1) as nat, n);
    }
}

/// Fermat's little theorem: `a^(p−1) ≡ 1 (mod p)` for a prime `p` not dividing `a`.
pub proof fn lemma_fermat(a: nat, p: nat)
    requires
        is_prime(p),
        a % p != 0,
    ensures
        pow(a as int, (p - 1) as nat) % (p as int) == 1,
{
    let pi = p as int;
    let e = pow(a as int, (p - 1) as nat);
    lemma_pow_prime(a, p);
    reveal(pow);
    assert(pow(a as int, p) == a * e);
    assert(a > 0) by {
        if a == 0 {
            lemma_small_mod(0, p);
        }
    }
    lemma_pow_positive(a as int, (p - 1) as nat);
    // a·(e − 1) == a·e − a ≡ 0 (mod p)
    assert(a * (e - 1) == a * e - a) by (nonlinear_arith);
    lemma_sub_mod_noop(a * e, a as int, pi);
    lemma_small_mod(0, p);
    lemma_euclid(a, (e - 1) as nat, p);
    lemma_mod_adds(e - 1, 1, pi);
    lemma_small_mod(1, p);
}

} // verus!
