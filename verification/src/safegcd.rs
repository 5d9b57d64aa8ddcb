//! Constant-time modular inversion via the Bernstein–Yang "safegcd" algorithm.
use vstd::arithmetic::div_mod::*;
use vstd::arithmetic::mul::*;
use vstd::math::abs;
use vstd::prelude::*;
use crate::montgomery::add_mod;
use crate::word::{lemma_pow256_pos, lemma_val_bound, pow256, CompositeWord};

verus! {

/// The number of divsteps `divstep_count` prescribes for a `width`-bit modulus: the width,
/// raised to at least 46, scaled by `49/17` and padded.
pub open spec fn spec_divstep_count(width: nat) -> nat {
    let n = if width < 46 { 46 } else { width };
    (49 * n + 80) / 17 + 2
}

/// Number of divsteps that guarantees `gcd` completion for `width`-bit inputs, with a small margin.
pub fn divstep_count(width: usize) -> (count: usize)
    requires
        49 * width + 80 <= usize::MAX,
    ensures
        count == spec_divstep_count(width as nat),
        count >= (49 * width + 80) / 17 + 2,
        count >= (49 * 46 + 80) / 17 + 2,
{
    let n: usize = if width < 46 { 46 } else { width };
    (49 * n + 80) / 17 + 2
}

/// One divstep on `(δ, f, g)` with `f` odd: when `δ > 0` and `g` is odd, `(1 − δ, g, (g − f)/2)`;
/// otherwise `(1 + δ, f, (g + (g mod 2)·f)/2)`.
pub open spec fn divstep(delta: int, f: int, g: int) -> (int, int, int) {
    if delta > 0 && g % 2 == 1 {
        (1 - delta, g, (g - f) / 2)
    } else if g % 2 == 1 {
        (1 + delta, f, (g + f) / 2)
    } else {
        (1 + delta, f, g / 2)
    }
}

/// The state after `n` divsteps from `(δ, f, g)`.
pub open spec fn divsteps(n: nat, delta: int, f: int, g: int) -> (int, int, int)
    decreases n,
{
    if n == 0 {
        (delta, f, g)
    } else {
        let s = divsteps((n - 1) as nat, delta, f, g);
        divstep(s.0, s.1, s.2)
    }
}

/// `x / 2 mod p` for `x ∈ [0, p)` and odd `p`: `x / 2` for even `x`, else `(x + p) / 2`.
pub open spec fn half_mod(x: int, p: int) -> int {
    if x % 2 == 0 {
        x / 2
    } else {
        (x + p) / 2
    }
}

/// The coefficients `(d, e)` after one divstep on `(δ, f, g)`, as residues mod `p`: with
/// `s = −1` when `δ > 0` and `g` is odd, `s = g mod 2` otherwise, `d` becomes `e` in the first
/// case and stays otherwise, and `e` becomes `(e + s·d) / 2 mod p`.
pub open spec fn coeff_step(p: int, delta: int, g: int, d: int, e: int) -> (int, int) {
    let swap = delta > 0 && g % 2 == 1;
    let s: int = if swap { -1 } else if g % 2 == 1 { 1 } else { 0 };
    (if swap { e } else { d }, half_mod((e + s * d) % p, p))
}

/// The coefficients `(d, e)` after `n` divsteps from `(1, p, a)`, starting from `(0, 1)`: they keep
/// `f ≡ d·a` and `g ≡ e·a (mod p)`.
pub open spec fn safegcd_coeffs(n: nat, p: int, a: int) -> (int, int)
    decreases n,
{
    if n == 0 {
        (0, 1)
    } else {
        let s = divsteps((n - 1) as nat, 1, p, a);
        let c = safegcd_coeffs((n - 1) as nat, p, a);
        coeff_step(p, s.0, s.2, c.0, c.1)
    }
}

/// The value that `n` divsteps from `(1, p, a)` leave as the inverse candidate: the coefficient
/// `d` of the final `f ≡ d·a (mod p)`, negated mod `p` when that `f` is negative, so that
/// `a` times it is `|f| mod p`.
pub open spec fn safegcd_result(n: nat, p: int, a: int) -> int {
    let d = safegcd_coeffs(n, p, a).0;
    if divsteps(n, 1, p, a).1 < 0 {
        (0 - d) % p
    } else {
        d
    }
}

/// `q` divides `x`.
pub open spec fn divides(q: int, x: int) -> bool {
    x % q == 0
}

/// `x` and `y` have the same positive common divisors as `u` and `v`.
pub open spec fn same_common_divisors(x: int, y: int, u: int, v: int) -> bool {
    forall|q: int|
        #![trigger divides(q, x), divides(q, y)]
        #![trigger divides(q, u), divides(q, v)]
        q > 0 ==> ((divides(q, x) && divides(q, y)) <==> (divides(q, u) && divides(q, v)))
}

/// `q` is the greatest common divisor of `a` and `p`: a positive common divisor that every
/// positive common divisor divides.
pub open spec fn is_gcd(q: int, a: int, p: int) -> bool {
    &&& q > 0
    &&& divides(q, a)
    &&& divides(q, p)
    &&& forall|c: int| c > 0 && #[trigger] divides(c, a) && #[trigger] divides(c, p) ==> divides(c, q)
}

/// `a` and `p` have no common divisor but one.
pub open spec fn coprime(a: int, p: int) -> bool {
    forall|q: int| q > 0 && #[trigger] divides(q, a) && #[trigger] divides(q, p) ==> q == 1
}

proof fn lemma_divides_mul(q: int, y: int, k: int)
    requires
        q > 0,
        y % q == 0,
    ensures
        (k * y) % q == 0,
{
    lemma_mul_mod_noop_right(k, y, q);
    lemma_mul_basics(k);
    lemma_small_mod(0, q as nat);
}

proof fn lemma_divides_add(q: int, y: int, z: int)
    requires
        q > 0,
        y % q == 0,
        z % q == 0,
    ensures
        (y + z) % q == 0,
        (y - z) % q == 0,
{
    lemma_add_mod_noop(y, z, q);
    lemma_sub_mod_noop(y, z, q);
    lemma_small_mod(0, q as nat);
}

/// A divisor of an odd number is odd.
proof fn lemma_divisor_of_odd(q: int, f: int)
    requires
        q > 0,
        f % q == 0,
        f % 2 == 1,
    ensures
        q % 2 == 1,
{
    if q % 2 == 0 {
        lemma_fundamental_div_mod(f, q);
        lemma_fundamental_div_mod(q, 2);
        let k = f / q;
        let h = q / 2;
        assert(f == 2 * (h * k)) by (nonlinear_arith)
            requires
                f == q * k + 0,
                q == 2 * h + 0,
        ;
        lemma_mod_multiples_basic(h * k, 2);
        lemma_mul_is_commutative(h * k, 2);
    }
}

/// An odd divisor of `2y` divides `y`.
proof fn lemma_odd_divides_half(q: int, y: int)
    requires
        q > 0,
        q % 2 == 1,
        (2 * y) % q == 0,
    ensures
        y % q == 0,
{
    // y * (q + 1) == 2y * ((q + 1) / 2) ≡ 0, and y * (q + 1) == y * q + y ≡ y.
    let h = (q + 1) / 2;
    assert(y * (q + 1) == h * (2 * y)) by (nonlinear_arith)
        requires
            2 * h == q + 1,
    ;
    lemma_divides_mul(q, 2 * y, h);
    assert(y * (q + 1) == q * y + y) by (nonlinear_arith);
    lemma_mod_multiples_vanish(y, y, q);
}

/// One divstep keeps the common divisors of `(f, g)`, for odd `f`.
proof fn lemma_divstep_divisors(delta: int, f: int, g: int)
    requires
        f % 2 == 1,
    ensures
        ({
            let s = divstep(delta, f, g);
            &&& s.1 % 2 == 1
            &&& same_common_divisors(s.1, s.2, f, g)
        }),
{
    let s = divstep(delta, f, g);
    assert forall|q: int| q > 0 implies ((divides(q, s.1) && divides(q, s.2)) <==> (divides(q, f)
        && divides(q, g))) by {
        if g % 2 == 1 && delta > 0 {
            // (g, (g - f) / 2)
            assert(2 * s.2 == g - f);
            if g % q == 0 && s.2 % q == 0 {
                lemma_divides_mul(q, s.2, 2);
                lemma_divides_add(q, g, g - f);
                assert(g - (g - f) == f);
            }
            if f % q == 0 && g % q == 0 {
                lemma_divisor_of_odd(q, f);
                lemma_divides_add(q, g, f);
                lemma_odd_divides_half(q, s.2);
            }
        } else if g % 2 == 1 {
            // (f, (g + f) / 2)
            assert(2 * s.2 == g + f);
            if f % q == 0 && s.2 % q == 0 {
                lemma_divides_mul(q, s.2, 2);
                lemma_divides_add(q, g + f, f);
                assert(g + f - f == g);
            }
            if f % q == 0 && g % q == 0 {
                lemma_divisor_of_odd(q, f);
                lemma_divides_add(q, g, f);
                lemma_odd_divides_half(q, s.2);
            }
        } else {
            // (f, g / 2)
            assert(2 * s.2 == g);
            if f % q == 0 && s.2 % q == 0 {
                lemma_divides_mul(q, s.2, 2);
            }
            if f % q == 0 && g % q == 0 {
                lemma_divisor_of_odd(q, f);
                lemma_odd_divides_half(q, s.2);
            }
        }
    }
}

/// Divsteps from `(1, p, a)` with `p` odd keep `f` odd and keep the common divisors of `p` and
/// `a`.
pub proof fn lemma_divsteps_divisors(n: nat, p: int, a: int)
    requires
        p % 2 == 1,
    ensures
        divsteps(n, 1, p, a).1 % 2 == 1,
        same_common_divisors(divsteps(n, 1, p, a).1, divsteps(n, 1, p, a).2, p, a),
    decreases n,
{
    if n > 0 {
        lemma_divsteps_divisors((n - 1) as nat, p, a);
        let s = divsteps((n - 1) as nat, 1, p, a);
        lemma_divstep_divisors(s.0, s.1, s.2);
    }
}

/// Once the divsteps from `(1, p, a)` have brought `g` to zero, `|f|` is the greatest common
/// divisor of `a` and `p`.
pub proof fn lemma_converged_f_is_gcd(n: nat, p: int, a: int)
    requires
        p % 2 == 1,
        divsteps(n, 1, p, a).2 == 0,
    ensures
        is_gcd(abs(divsteps(n, 1, p, a).1) as int, a, p),
{
    lemma_divsteps_divisors(n, p, a);
    let f = divsteps(n, 1, p, a).1;
    let q = abs(f) as int;
    let sgn: int = if f < 0 { -1 } else { 1 };
    assert(f == q * sgn && q == f * sgn) by (nonlinear_arith)
        requires
            q == (if f < 0 { -f } else { f }),
            sgn == (if f < 0 { -1int } else { 1int }),
    ;
    assert(q > 0);
    assert(f % q == 0) by {
        lemma_mod_multiples_basic(sgn, q);
        lemma_mul_is_commutative(q, sgn);
    }
    lemma_small_mod(0, q as nat);
    assert(divides(q, f) && divides(q, 0));
    assert(divides(q, a) && divides(q, p));
    assert forall|c: int| c > 0 && #[trigger] divides(c, a) && #[trigger] divides(c, p) implies divides(
        c,
        q,
    ) by {
        lemma_small_mod(0, c as nat);
        assert(divides(c, 0));
        assert(divides(c, f) && divides(c, 0));
        lemma_divides_mul(c, f, sgn);
        lemma_mul_is_commutative(f, sgn);
    }
}

/// Once the divsteps from `(1, p, a)` have brought `g` to zero, `f` is `±1` when `a` and `p`
/// are coprime.
pub proof fn lemma_converged_f_is_unit(n: nat, p: int, a: int)
    requires
        p % 2 == 1,
        coprime(a, p),
        divsteps(n, 1, p, a).2 == 0,
    ensures
        abs(divsteps(n, 1, p, a).1) == 1,
{
    lemma_divsteps_divisors(n, p, a);
    let f = divsteps(n, 1, p, a).1;
    let q = abs(f) as int;
    assert(q > 0);
    assert(f % q == 0) by {
        if f < 0 {
            assert(f == q * -1);
        } else {
            assert(f == q * 1);
        }
        lemma_mod_multiples_basic(if f < 0 { -1 } else { 1 }, q);
        lemma_mul_is_commutative(q, if f < 0 { -1 } else { 1 });
    }
    lemma_small_mod(0, q as nat);
    assert(divides(q, f) && divides(q, 0));
    assert(divides(q, a) && divides(q, p));
}

/// A two's-complement integer one byte wider than the field, held as `lo + ext·2^(8·width)`.
struct Wide {
    lo: CompositeWord,
    ext: i8,
}

impl Wide {
    spec fn val(&self) -> int {
        self.lo.val() + self.ext * self.lo.radix()
    }

    spec fn fits(x: int, r: int) -> bool {
        -128 * r <= x < 128 * r
    }

    /// Zero-extends a non-negative value.
    fn from_unsigned(lo: CompositeWord) -> (w: Self)
        ensures
            w.lo.wid() == lo.wid(),
            w.val() == lo.val(),
    {
        Wide { lo, ext: 0 }
    }

    fn zero(width: usize) -> (w: Self)
        ensures
            w.lo.wid() == width,
            w.val() == 0,
    {
        Wide { lo: CompositeWord::zero(width), ext: 0 }
    }

    fn clone_of(&self) -> (w: Self)
        ensures
            w.lo.wid() == self.lo.wid(),
            w.val() == self.val(),
    {
        Wide { lo: self.lo.duplicate(), ext: self.ext }
    }

    /// Two's-complement addition across both limbs.
    fn add(self, rhs: Self) -> (w: Self)
        requires
            self.lo.wid() == rhs.lo.wid(),
            Self::fits(self.val() + rhs.val(), self.lo.radix() as int),
        ensures
            w.lo.wid() == self.lo.wid(),
            w.val() == self.val() + rhs.val(),
    {
        let (lo, carry) = self.lo.overflowing_add(&rhs.lo);
        let e: i16 = self.ext as i16 + rhs.ext as i16 + if carry { 1i16 } else { 0i16 };
        proof {
            let r = self.lo.radix() as int;
            lemma_val_bound(lo@);
            lemma_pow256_pos(self.lo.wid());
            let s = self.val() + rhs.val();
            assert(s == lo.val() + e * r) by (nonlinear_arith)
                requires
                    s == self.lo.val() + self.ext * r + rhs.lo.val() + rhs.ext * r,
                    lo.val() + (if carry { r } else { 0 }) == self.lo.val() + rhs.lo.val(),
                    e == self.ext + rhs.ext + (if carry { 1int } else { 0int }),
            ;
            assert(-128 <= e < 128) by (nonlinear_arith)
                requires
                    s == lo.val() + e * r,
                    0 <= lo.val() < r,
                    -128 * r <= s < 128 * r,
            ;
        }
        Wide { lo, ext: e as i8 }
    }

    /// Two's-complement negation: complement then add one.
    fn neg(self) -> (w: Self)
        requires
            self.lo.wid() >= 1,
            -128 * self.lo.radix() < self.val() < 128 * self.lo.radix(),
        ensures
            w.lo.wid() == self.lo.wid(),
            w.val() == -self.val(),
    {
        let width = self.lo.width();
        let one = Wide { lo: CompositeWord::one(width), ext: 0 };
        let not = Wide { lo: self.lo.not(), ext: -1 - self.ext };
        proof {
            let r = self.lo.radix() as int;
            assert(not.val() == -self.val() - 1) by (nonlinear_arith)
                requires
                    not.val() == (r - 1 - self.lo.val()) + (-1 - self.ext) * r,
                    self.val() == self.lo.val() + self.ext * r,
            ;
            assert(one.val() == 1) by {
                lemma_mul_by_zero_is_zero(r);
            }
            assert(Self::fits(not.val() + one.val(), r));
        }
        not.add(one)
    }

    /// Arithmetic shift right by one: `floor(self / 2)`.
    fn ashr1(self) -> (w: Self)
        requires
            self.lo.wid() >= 1,
        ensures
            w.lo.wid() == self.lo.wid(),
            w.val() == self.val() / 2,
    {
        // The extension byte, offset to be non-negative; bit 0 of `ext` goes into the top of `lo`.
        let u: u16 = (self.ext as i16 + 256) as u16;
        let ext_odd = u % 2 == 1;
        let lo = self.lo.shr1_in(ext_odd);
        let ext: i8 = ((u / 2) as i16 - 128) as i8;
        proof {
            let r = self.lo.radix() as int;
            let x = self.lo.val() as int;
            let e = self.ext as int;
            let b = if ext_odd { 1int } else { 0int };
            crate::word::lemma_pow256_pos((self.lo.wid() - 1) as nat);
            assert(r == 256 * pow256((self.lo.wid() - 1) as nat));
            let r2 = 128 * pow256((self.lo.wid() - 1) as nat);
            assert(e == 2 * ext + b);
            assert(lo.val() == (x + b * r) / 2);
            assert(self.val() == x + b * r + ext * (2 * r)) by (nonlinear_arith)
                requires
                    self.val() == x + e * r,
                    e == 2 * ext + b,
            ;
            assert(ext * (2 * r) == 2 * (ext * r)) by (nonlinear_arith);
            assert((x + b * r + 2 * (ext * r)) / 2 == (x + b * r) / 2 + ext * r);
        }
        Wide { lo, ext }
    }

    /// `cond ? a : b`, selecting both limbs.
    fn select(cond: bool, a: Self, b: Self) -> (w: Self)
        ensures
            w == (if cond { a } else { b }),
    {
        if cond {
            a
        } else {
            b
        }
    }

    /// True iff the value is negative (its sign bit, the top bit of `ext`).
    fn is_neg(&self) -> (neg: bool)
        ensures
            neg == (self.val() < 0),
    {
        proof {
            lemma_val_bound(self.lo@);
            let r = self.lo.radix() as int;
            let x = self.lo.val() as int;
            let e = self.ext as int;
            if e >= 0 {
                assert(e * r >= 0) by (nonlinear_arith)
                    requires
                        e >= 0,
                        r >= 0,
                ;
            } else {
                assert(e * r <= -r) by (nonlinear_arith)
                    requires
                        e <= -1,
                        r >= 0,
                ;
            }
        }
        self.ext < 0
    }
}

/// `(-x) mod p` for `x ∈ [0, p)`: `0` if `x == 0`, else `p − x`.
fn neg_mod_p(x: &CompositeWord, p: &CompositeWord) -> (r: CompositeWord)
    requires
        x.wid() == p.wid(),
        x.val() < p.val(),
    ensures
        r.wid() == p.wid(),
        r.val() < p.val(),
        r.val() == (0 - x.val()) % (p.val() as int),
{
    let is_zero = x.is_zero();
    let (p_minus_x, _) = p.overflowing_sub(x);
    proof {
        let pi = p.val() as int;
        if is_zero {
            lemma_small_mod(0, p.val());
        } else {
            lemma_mod_add_multiples_vanish(0 - x.val(), pi);
            lemma_small_mod((pi - x.val()) as nat, pi as nat);
        }
    }
    if is_zero {
        CompositeWord::zero(p.width())
    } else {
        p_minus_x
    }
}

/// `(x / 2) mod p` for `x ∈ [0, p)`, with `p` odd: `x/2` if even, else `(x + p)/2`.
fn halve_mod_p(x: &CompositeWord, p: &CompositeWord) -> (r: CompositeWord)
    requires
        x.wid() == p.wid(),
        p.wid() >= 1,
        p.val() % 2 == 1,
        x.val() < p.val(),
    ensures
        r.wid() == p.wid(),
        r.val() < p.val(),
        2 * r.val() == x.val() + (if x.val() % 2 == 1 { p.val() } else { 0 }),
{
    let odd = x.lsb();
    // t = x + (odd ? p : 0); this can carry out of the top (x + p < 2p < 2^{WIDTH+1}).
    let addend = if odd {
        p.duplicate()
    } else {
        CompositeWord::zero(p.width())
    };
    let (t, carry) = x.overflowing_add(&addend);
    // (carry·2^WIDTH + t) is even; divide by two, shifting the carry bit into the top.
    t.shr1_in(carry)
}

/// Residues of `f` and `d * a` agree modulo `p`.
spec fn congruent(x: int, y: int, p: int) -> bool {
    x % p == y % p
}

/// The coefficient bookkeeping of one divstep: with `f ≡ d·a` and `g ≡ e·a (mod p)`, the new
/// `g = (g + s·f)/2` and `e` with `2e ≡ e_old + s·d` stay congruent as `g ≡ e·a`.
proof fn lemma_coefficient_step(g: int, f: int, e: int, d: int, a: int, s: int, p: int, ng: int, ne: int)
    requires
        p > 0,
        p % 2 == 1,
        congruent(g, e * a, p),
        congruent(f, d * a, p),
        2 * ng == g + s * f,
        congruent(2 * ne, e + s * d, p),
    ensures
        congruent(ng, ne * a, p),
{
    // 2·ng == g + s·f ≡ e·a + s·d·a == (e + s·d)·a ≡ 2·ne·a
    lemma_mul_congruent_int(f, d * a, s, p);
    lemma_add_mod_noop(g, s * f, p);
    lemma_add_mod_noop(e * a, s * (d * a), p);
    assert(e * a + s * (d * a) == (e + s * d) * a) by (nonlinear_arith);
    lemma_mul_congruent_int(e + s * d, 2 * ne, a, p);
    assert(congruent(2 * ng, 2 * ne * a, p)) by {
        assert((2 * ne) * a == 2 * ne * a);
    }
    // multiply by h = (p + 1) / 2, the inverse of 2
    let h = (p + 1) / 2;
    lemma_mul_congruent_int(2 * ng, 2 * ne * a, h, p);
    assert(2 * ng * h == p * ng + ng) by (nonlinear_arith)
        requires
            2 * h == p + 1,
    ;
    assert(2 * ne * a * h == p * (ne * a) + ne * a) by (nonlinear_arith)
        requires
            2 * h == p + 1,
    ;
    lemma_mod_multiples_vanish(ng, ng, p);
    lemma_mod_multiples_vanish(ne * a, ne * a, p);
}

proof fn lemma_mul_congruent_int(x: int, y: int, c: int, p: int)
    requires
        p > 0,
        x % p == y % p,
    ensures
        (c * x) % p == (c * y) % p,
        (x * c) % p == (y * c) % p,
{
    lemma_mul_mod_noop_right(c, x, p);
    lemma_mul_mod_noop_right(c, y, p);
    lemma_mul_is_commutative(c, x);
    lemma_mul_is_commutative(c, y);
}

/// The `f`, `g` half of a divstep: `f' = cond ? g : f` and `g' = (g + s·f) / 2`, where
/// `s = cond ? −1 : (g odd ? 1 : 0)`.
fn update_fg(f: &Wide, g: &Wide, cond: bool, g_odd: bool, Ghost(p): Ghost<int>) -> (res: (Wide, Wide))
    requires
        f.lo.wid() >= 1,
        g.lo.wid() == f.lo.wid(),
        0 < p < f.lo.radix(),
        -p <= f.val() <= p,
        -p <= g.val() <= p,
        f.val() % 2 == 1,
        g_odd == (g.val() % 2 == 1),
        cond ==> g_odd,
    ensures
        res.0.lo.wid() == f.lo.wid(),
        res.1.lo.wid() == f.lo.wid(),
        res.0.val() == (if cond { g.val() } else { f.val() }),
        2 * res.1.val() == g.val() + (if cond { -1int } else if g_odd { 1int } else { 0int }) * f.val(),
{
    let w = f.lo.width();
    proof {
        lemma_val_bound(f.lo@);
        lemma_pow256_pos(f.lo.wid());
    }
    let ghost s: int = if cond { -1 } else if g_odd { 1 } else { 0 };
    // s·f for the g update: cond ? −f : (g odd ? f : 0).
    let sf = Wide::select(
        cond,
        f.clone_of().neg(),
        Wide::select(g_odd, f.clone_of(), Wide::zero(w)),
    );
    proof {
        let fv = f.val();
        let gv = g.val();
        if cond {
            assert(s * fv == -fv) by (nonlinear_arith)
                requires
                    s == -1,
            ;
        } else if g_odd {
            assert(s * fv == fv) by (nonlinear_arith)
                requires
                    s == 1,
            ;
        } else {
            assert(s * fv == 0) by (nonlinear_arith)
                requires
                    s == 0,
            ;
        }
        assert(sf.val() == s * fv);
        assert(-2 * p <= gv + s * fv <= 2 * p);
        if cond {
            assert((gv - fv) % 2 == 0);
        } else if g_odd {
            assert((gv + fv) % 2 == 0);
        }
    }
    let sum = g.clone_of().add(sf);
    let new_g = sum.ashr1();
    let new_f = Wide::select(cond, g.clone_of(), f.clone_of());
    (new_f, new_g)
}

/// The `d`, `e` half of a divstep, on residues mod `p`: `d' = cond ? e : d` and
/// `2·e' ≡ e + s·d (mod p)`, where `s = cond ? −1 : (g odd ? 1 : 0)`.
fn update_de(d: CompositeWord, e: CompositeWord, p: &CompositeWord, cond: bool, g_odd: bool) -> (res: (
    CompositeWord,
    CompositeWord,
))
    requires
        d.wid() == p.wid(),
        e.wid() == p.wid(),
        p.wid() >= 1,
        p.val() % 2 == 1,
        d.val() < p.val(),
        e.val() <= p.val(),
        cond ==> e.val() < p.val(),
    ensures
        res.0.wid() == p.wid(),
        res.1.wid() == p.wid(),
        res.0.val() < p.val(),
        res.1.val() < p.val(),
        res.0.val() == (if cond { e.val() } else { d.val() }),
        res.1.val() == half_mod(
            (e.val() + (if cond { -1int } else if g_odd { 1int } else { 0int }) * d.val()) % (
            p.val() as int),
            p.val() as int,
        ),
        congruent(
            (2 * res.1.val()) as int,
            e.val() + (if cond { -1int } else if g_odd { 1int } else { 0int }) * d.val(),
            p.val() as int,
        ),
{
    let w = p.width();
    let ghost pi = p.val() as int;
    let ghost dv = d.val() as int;
    let ghost ev = e.val() as int;
    let ghost s: int = if cond { -1 } else if g_odd { 1 } else { 0 };
    // Coefficient update: s·d as a residue mod p (cond ? −d : (g odd ? d : 0)).
    let neg_d = neg_mod_p(&d, p);
    let sd = if cond {
        neg_d
    } else if g_odd {
        d.duplicate()
    } else {
        CompositeWord::zero(w)
    };
    // e + s·d, reduced to [0, p), then halved mod p.
    let e_reduced = add_mod(&e, &sd, p);
    let new_e = halve_mod_p(&e_reduced, p);
    proof {
        let sdv = sd.val() as int;
        if cond {
            assert(s * dv == 0 - dv);
            lemma_mod_twice(0 - dv, pi);
        } else if g_odd {
            lemma_small_mod(dv as nat, pi as nat);
            assert(s * dv == dv);
        } else {
            assert(s * dv == 0);
            lemma_small_mod(0, pi as nat);
        }
        assert(congruent(sdv, s * dv, pi));
        let erv = e_reduced.val() as int;
        lemma_mod_twice(ev + sdv, pi);
        assert(congruent(erv, ev + sdv, pi));
        lemma_add_mod_noop(ev, sdv, pi);
        lemma_add_mod_noop(ev, s * dv, pi);
        assert(congruent(erv, ev + s * dv, pi));
        lemma_small_mod(erv as nat, pi as nat);
        assert(erv == (ev + s * dv) % pi);
        if erv % 2 == 1 {
            assert(2 * new_e.val() == erv + pi);
            lemma_mod_add_multiples_vanish(erv, pi);
        } else {
            assert(2 * new_e.val() == erv);
        }
    }
    let new_d = if cond {
        e
    } else {
        d
    };
    (new_d, new_e)
}

/// Computes `a^{-1} mod p` for a value `a ∈ [0, p)` and odd modulus `p`, with the fixed number
/// of divsteps that `divstep_count` gives for the width. The result `r` satisfies
/// `a·r ≡ |f| (mod p)`, where `f` is the final `f` of the divsteps from `(1, p, a)`. Once `g` has
/// reached zero, `|f|` is `gcd(a, p)`, so `r` is the inverse for a coprime `a`. For `a == 0`
/// (and for `p == 1`) the result is zero.
pub fn safegcd_invert(a: &CompositeWord, p: &CompositeWord) -> (inv: CompositeWord)
    requires
        p.wid() == a.wid(),
        1 <= p.wid(),
        49 * (8 * p.wid()) + 80 <= usize::MAX,
        p.val() % 2 == 1,
        a.val() < p.val(),
    ensures
        inv.wid() == p.wid(),
        inv.val() < p.val(),
        (a.val() * inv.val()) % p.val() == abs(
            divsteps(spec_divstep_count(8 * p.wid()), 1, p.val() as int, a.val() as int).1,
        ) % p.val(),
        a.val() == 0 ==> inv.val() == 0,
        divsteps(spec_divstep_count(8 * p.wid()), 1, p.val() as int, a.val() as int).2 == 0
            ==> is_gcd(
            abs(
                divsteps(spec_divstep_count(8 * p.wid()), 1, p.val() as int, a.val() as int).1,
            ) as int,
            a.val() as int,
            p.val() as int,
        ),
        coprime(a.val() as int, p.val() as int) && divsteps(
            spec_divstep_count(8 * p.wid()),
            1,
            p.val() as int,
            a.val() as int,
        ).2 == 0 ==> (a.val() * inv.val()) % p.val() == 1nat % p.val(),
        inv.val() == safegcd_result(
            spec_divstep_count(8 * p.wid()),
            p.val() as int,
            a.val() as int,
        ),
{
    let w = p.width();
    let iters = divstep_count(8 * w);
    let ghost pi = p.val() as int;
    let ghost ai = a.val() as int;
    proof {
        lemma_val_bound(p@);
        lemma_pow256_pos(w as nat);
        crate::word::lemma_pow256_pos((w - 1) as nat);
        assert(p.radix() == 256 * pow256((w - 1) as nat));
    }
    // State.
    let mut delta: i64 = 1;
    let mut f = Wide::from_unsigned(p.duplicate());
    let mut g = Wide::from_unsigned(a.duplicate());
    let mut d = CompositeWord::zero(w);
    let mut e = CompositeWord::one(w);
    let mut i: usize = 0;
    proof {
        if pi > 1 {
            lemma_small_mod(1, p.val());
        }
        lemma_mul_basics(ai);
        lemma_small_mod(0, p.val());
        lemma_mod_self_0(pi);
    }
    while i < iters
        invariant
            iters == spec_divstep_count(8 * w as nat),
            49 * (8 * w) + 80 <= usize::MAX,
            w == p.wid(),
            w >= 1,
            pi == p.val(),
            ai == a.val(),
            pi % 2 == 1,
            ai < pi,
            p.radix() == 256 * pow256((w - 1) as nat),
            pi < p.radix(),
            i <= iters,
            f.lo.wid() == w,
            g.lo.wid() == w,
            d.wid() == w,
            e.wid() == w,
            (delta as int, f.val(), g.val()) == divsteps(i as nat, 1, pi, ai),
            (d.val() as int, e.val() as int) == safegcd_coeffs(i as nat, pi, ai),
            -(i as int) <= delta <= i + 1,
            f.val() % 2 == 1,
            -pi <= f.val() <= pi,
            -pi <= g.val() <= pi,
            d.val() < pi,
            e.val() < pi || (pi == 1 && ai == 0 && e.val() == 1),
            congruent(f.val(), d.val() * ai, pi),
            congruent(g.val(), e.val() * ai, pi),
            ai == 0 ==> (g.val() == 0 && d.val() == 0 && f.val() == pi),
        decreases iters - i,
    {
        let ghost fv = f.val();
        let ghost gv = g.val();
        let ghost dv = d.val() as int;
        let ghost ev = e.val() as int;
        let ghost dl = delta as int;
        proof {
            crate::word::lemma_val_parity(g.lo@);
            assert(g.lo.val() % 2 == g.lo@[0] % 2);
            assert(gv % 2 == g.lo.val() % 2) by {
                let r = g.lo.radix() as int;
                let half = 128 * pow256((w - 1) as nat);
                assert(gv == g.lo.val() + 2 * (g.ext * half)) by (nonlinear_arith)
                    requires
                        gv == g.lo.val() + g.ext * r,
                        r == 2 * half,
                ;
                lemma_mod_multiples_vanish(g.ext * half, g.lo.val() as int, 2);
            }
        }
        let g_odd = g.lo.lsb();
        // δ > 0  ⇔  δ is non-negative and nonzero.
        let delta_pos = delta > 0;
        let cond = delta_pos && g_odd;
        let ghost s: int = if cond { -1 } else if g_odd { 1 } else { 0 };
        let (new_f, new_g) = update_fg(&f, &g, cond, g_odd, Ghost(pi));
        let (new_d, new_e) = update_de(d, e, p, cond, g_odd);
        // δ update: cond ? 1 − δ : 1 + δ.
        delta = if cond {
            1 - delta
        } else {
            1 + delta
        };
        f = new_f;
        g = new_g;
        d = new_d;
        e = new_e;
        proof {
            let step = divstep(dl, fv, gv);
            assert((d.val() as int, e.val() as int) == coeff_step(pi, dl, gv, dv, ev));
            if cond {
                assert(s * fv == -fv) by (nonlinear_arith)
                    requires
                        s == -1,
                ;
                assert(g.val() == (gv - fv) / 2);
            } else if g_odd {
                assert(s * fv == fv) by (nonlinear_arith)
                    requires
                        s == 1,
                ;
                assert(g.val() == (gv + fv) / 2);
            } else {
                assert(s * fv == 0) by (nonlinear_arith)
                    requires
                        s == 0,
                ;
                assert(g.val() == gv / 2);
            }
            assert((delta as int, f.val(), g.val()) == step);
            lemma_coefficient_step(gv, fv, ev, dv, ai, s, pi, g.val(), e.val() as int);
            if cond {
                assert(congruent(f.val(), d.val() * ai, pi));
            }
            if ai == 0 {
                assert(gv == 0);
                assert(!g_odd);
            }
        }
        i += 1;
    }
    // f == ±1 now (for invertible a); a^{-1} = d if f > 0 else −d mod p.
    let f_neg = f.is_neg();
    let res = if f_neg {
        neg_mod_p(&d, p)
    } else {
        d
    };
    proof {
        let fv = f.val();
        let dv = d.val() as int;
        let rv = res.val() as int;
        // a·r ≡ ±d·a ≡ ±f == |f|
        if f_neg {
            lemma_small_mod(rv as nat, pi as nat);
            lemma_mod_twice(0 - dv, pi);
            lemma_mul_congruent_int(rv, 0 - dv, ai, pi);
            assert((0 - dv) * ai == 0 - dv * ai) by (nonlinear_arith);
            lemma_sub_mod_noop(0, dv * ai, pi);
            lemma_sub_mod_noop(0, fv, pi);
            assert(abs(fv) == 0 - fv);
        } else {
            assert(rv == dv);
        }
        lemma_mul_is_commutative(ai, rv);
        assert(abs(fv) == abs(divsteps(iters as nat, 1, pi, ai).1));
        if ai == 0 {
            assert(!f_neg);
        }
        if g.val() == 0 {
            lemma_converged_f_is_gcd(iters as nat, pi, ai);
            if coprime(ai, pi) {
                lemma_converged_f_is_unit(iters as nat, pi, ai);
            }
        }
    }
    res
}

} // verus!
