//! Montgomery modular arithmetic: the modulus with its precomputed constants, Montgomery
//! reduction, and the field element [MontgomeryWord].
use vstd::arithmetic::div_mod::*;
use vstd::arithmetic::mul::*;
use vstd::arithmetic::power::pow;
use vstd::prelude::*;
use crate::arith::{
    lemma_cancel_factor, lemma_decode_add, lemma_decode_mul, lemma_decode_sub, lemma_pow256_is_pow2,
    lemma_pow2_inv, lemma_redc, lemma_square_step, lemma_times_unit, pow2_inv,
};
use crate::field::{field_decode, field_encode, FieldRep};
use crate::safegcd::{
    coprime, divsteps, safegcd_invert, safegcd_result, spec_divstep_count,
};
use vstd::math::abs;
use crate::word::{lemma_pow256_monotone, lemma_pow256_pos, lemma_val_bound, pow256, CompositeWord};

verus! {

/// The conditions on a Montgomery modulus and its constants: an odd modulus `n` of width
/// `w` bytes, `rr_mod_n == R^2 mod n` and `n * n_neg_inv ≡ -1 (mod R)`, where `R = 2^(8w)` is the
/// Montgomery radix.
pub open spec fn montgomery_params_ok(n: CompositeWord, rr_mod_n: CompositeWord, n_neg_inv: CompositeWord) -> bool {
    let w = n.wid();
    let r = pow256(w);
    &&& 1 <= w <= usize::MAX / 16
    &&& n.val() % 2 == 1
    &&& rr_mod_n.wid() == w
    &&& rr_mod_n.val() == (r * r) % n.val()
    &&& n_neg_inv.wid() == w
    &&& (n.val() * n_neg_inv.val()) % r == r - 1
}

/// The Montgomery reduction of `t`: `t * R^-1 mod n`.
pub open spec fn redc_spec(n: nat, w: nat, t: nat) -> nat {
    ((t * pow2_inv(n, 8 * w)) % n) as nat
}

/// An odd modulus with the constants that Montgomery reduction needs.
#[derive(Clone, Debug, PartialEq, Eq)]
pub struct MontgomeryMod {
    n: CompositeWord,
    rr_mod_n: CompositeWord,
    n_neg_inv: CompositeWord,
    inv_exp: Option<CompositeWord>,
}

/// `(a + b) mod p` for `a <= p` and `b < p`: the sum, less `p` when it carries or reaches `p`.
pub(crate) fn add_mod(a: &CompositeWord, b: &CompositeWord, p: &CompositeWord) -> (r: CompositeWord)
    requires
        a.wid() == p.wid(),
        b.wid() == p.wid(),
        a.val() <= p.val(),
        b.val() < p.val(),
    ensures
        r.wid() == p.wid(),
        r.val() == (a.val() + b.val()) % p.val(),
{
    let (res, carry) = a.overflowing_add(b);
    proof {
        lemma_val_bound(p@);
        lemma_val_bound(res@);
    }
    if carry || res.ge(p) {
        let r = res.wrapping_sub(p);
        proof {
            let s = a.val() + b.val();
            let rad = p.radix() as int;
            assert(0 <= s - p.val() < p.val());
            assert(r.val() == (res.val() - p.val()) % rad);
            if carry {
                assert(res.val() - p.val() == s - p.val() - rad);
                lemma_mod_add_multiples_vanish(s - p.val() - rad, rad);
            }
            lemma_small_mod((s - p.val()) as nat, rad as nat);
            lemma_mod_sub_multiples_vanish(s as int, p.val() as int);
            lemma_small_mod((s - p.val()) as nat, p.val());
        }
        r
    } else {
        proof {
            lemma_small_mod(res.val(), p.val());
        }
        res
    }
}

/// The arithmetic behind the carry handling of Montgomery reduction: with the quotient `q` of
/// `(T + m * n) / R` below `2n`, the word sums yield `q` as `t2 + (c2 + c3) * R`, with at most one
/// of the two carries set.
proof fn lemma_redc_carries(
    n: int,
    r: int,
    lo: int,
    hi: int,
    m: int,
    mnlo: int,
    mnhi: int,
    s0: int,
    c1: int,
    t1: int,
    c2: int,
    t2: int,
    c3: int,
    q: int,
)
    requires
        0 < n < r,
        0 <= lo < r,
        0 <= hi < r,
        0 <= mnlo < r,
        0 <= mnhi < r,
        0 <= s0 < r,
        0 <= t1 < r,
        0 <= t2 < r,
        0 <= c1 <= 1,
        0 <= c2 <= 1,
        0 <= c3 <= 1,
        mnlo + mnhi * r == m * n,
        lo + mnlo == s0 + c1 * r,
        hi + mnhi == t1 + c2 * r,
        t1 + c1 == t2 + c3 * r,
        (lo + m * n) % r == 0,
        q * r == lo + hi * r + m * n,
        0 <= q < 2 * n,
    ensures
        q == t2 + (c2 + c3) * r,
        c2 + c3 <= 1,
{
    // s0 ≡ lo + mnlo ≡ lo + m * n ≡ 0 (mod r), so s0 == 0
    assert(lo + m * n == s0 + (c1 + mnhi) * r) by (nonlinear_arith)
        requires
            mnlo + mnhi * r == m * n,
            lo + mnlo == s0 + c1 * r,
    ;
    lemma_mod_multiples_vanish(c1 + mnhi, s0, r);
    lemma_mul_is_commutative(c1 + mnhi, r);
    lemma_small_mod(s0 as nat, r as nat);
    assert(s0 == 0);
    assert(q * r == (c1 + t1 + c2 * r) * r) by (nonlinear_arith)
        requires
            q * r == lo + hi * r + m * n,
            mnlo + mnhi * r == m * n,
            lo + mnlo == c1 * r,
            hi + mnhi == t1 + c2 * r,
    ;
    assert(q == c1 + t1 + c2 * r) by (nonlinear_arith)
        requires
            q * r == (c1 + t1 + c2 * r) * r,
            r > 0,
    ;
    assert(q == t2 + (c2 + c3) * r) by (nonlinear_arith)
        requires
            q == c1 + t1 + c2 * r,
            t1 + c1 == t2 + c3 * r,
    ;
    if c2 == 1 && c3 == 1 {
        assert(q == t2 + 2 * r);
    }
}

/// From the quotient `q < 2n` of Montgomery reduction, `q mod n` is the reduction `T * R^-1 mod n`.
proof fn lemma_redc_result(n: nat, w: nat, t: nat, q: nat)
    requires
        n % 2 == 1,
        (q * pow256(w)) % n == t % n,
    ensures
        q % n == redc_spec(n, w, t),
{
    lemma_pow256_is_pow2(w);
    lemma_pow2_inv(n, 8 * w);
    lemma_cancel_factor(q as int, pow256(w) as int, pow2_inv(n, 8 * w) as int, t as int, n as int);
}

/// The last step of Montgomery reduction: brings the quotient `q = t + carry * R`, known to be
/// below `2n`, into `[0, n)`.
fn redc_finish(n: &CompositeWord, t: CompositeWord, carry: bool) -> (res: CompositeWord)
    requires
        t.wid() == n.wid(),
        0 < n.val(),
        t.val() + (if carry { n.radix() } else { 0 }) < 2 * n.val(),
    ensures
        res.wid() == n.wid(),
        res.val() == (t.val() + (if carry { n.radix() } else { 0 })) % n.val(),
{
    let ghost r = n.radix() as int;
    let ghost ni = n.val() as int;
    let ghost q = t.val() + (if carry { r } else { 0 });
    proof {
        lemma_val_bound(n@);
        lemma_val_bound(t@);
    }
    let mut t = t;
    if carry {
        let neg_n = n.wrapping_neg();
        proof {
            lemma_mod_add_multiples_vanish(-ni, r);
            lemma_small_mod((r - ni) as nat, r as nat);
            assert(neg_n.val() == r - ni);
        }
        let t_old = t;
        t = t_old.wrapping_add(&neg_n);
        proof {
            assert(t_old.val() + (r - ni) == q - ni);
            lemma_small_mod((q - ni) as nat, r as nat);
            assert(t.val() == q - ni);
            lemma_mod_sub_multiples_vanish(q, ni);
            lemma_small_mod((q - ni) as nat, ni as nat);
        }
    }
    proof {
        lemma_val_bound(t@);
    }
    if t.ge(n) {
        let t_old = t;
        t = t_old.wrapping_sub(n);
        proof {
            lemma_small_mod((t_old.val() - ni) as nat, r as nat);
            if !carry {
                lemma_mod_sub_multiples_vanish(q, ni);
                lemma_small_mod((q - ni) as nat, ni as nat);
            }
        }
    } else {
        proof {
            if !carry {
                lemma_small_mod(q as nat, ni as nat);
            }
        }
    }
    t
}

impl MontgomeryMod {
    /// The modulus `n`.
    pub closed spec fn spec_n(&self) -> nat {
        self.n.val()
    }

    /// The width in bytes of the modulus and of every word reduced by it.
    pub closed spec fn spec_width(&self) -> nat {
        self.n.wid()
    }

    /// The Montgomery radix `R = 2^(8 * width)`.
    pub open spec fn spec_radix(&self) -> nat {
        pow256(self.spec_width())
    }

    /// `R^-1 mod n`, the factor that Montgomery reduction multiplies by.
    pub open spec fn spec_r_inv(&self) -> nat {
        pow2_inv(self.spec_n(), 8 * self.spec_width())
    }

    /// The exponent that inversion raises to, if any.
    pub closed spec fn spec_inv_exp(&self) -> Option<nat> {
        match self.inv_exp {
            Some(e) => Some(e.val()),
            None => None,
        }
    }

    /// The modulus and its constants are consistent.
    pub closed spec fn wf(&self) -> bool {
        &&& montgomery_params_ok(self.n, self.rr_mod_n, self.n_neg_inv)
        &&& self.inv_exp matches Some(e) ==> e.wid() == self.n.wid()
    }

    pub proof fn lemma_wf(&self)
        requires
            self.wf(),
        ensures
            self.spec_n() % 2 == 1,
            1 <= self.spec_width() <= usize::MAX / 16,
            self.spec_n() < self.spec_radix(),
            self.spec_r_inv() < self.spec_n(),
            (self.spec_radix() * self.spec_r_inv()) % self.spec_n() == 1nat % self.spec_n(),
    {
        lemma_val_bound(self.n@);
        lemma_pow256_is_pow2(self.spec_width());
        lemma_pow2_inv(self.spec_n(), 8 * self.spec_width());
    }

    /// `R^2 mod n` by doubling one `2 * 8 * width` times modulo `n`.
    fn radix_squared_mod(n: &CompositeWord) -> (rr: CompositeWord)
        requires
            1 <= n.wid() <= usize::MAX / 16,
            n.val() >= 1,
        ensures
            rr.wid() == n.wid(),
            rr.val() == (n.radix() * n.radix()) % n.val(),
    {
        let w = n.width();
        let bits: usize = 16 * w;
        let mut x = CompositeWord::one(w);
        if x.ge(n) {
            x = CompositeWord::zero(w);
        }
        let mut i: usize = 0;
        proof {
            if n.val() > 1 {
                lemma_small_mod(1, n.val());
            } else {
                lemma_mod_self_0(1);
            }
            reveal(pow);
        }
        while i < bits
            invariant
                bits == 16 * n.wid(),
                x.wid() == n.wid(),
                n.val() >= 1,
                i <= bits,
                x.val() == pow(2, i as nat) % (n.val() as int),
            decreases bits - i,
        {
            proof {
                lemma_mod_bound(pow(2, i as nat), n.val() as int);
            }
            let y = add_mod(&x, &x, n);
            proof {
                let ni = n.val() as int;
                let p = pow(2, i as nat);
                reveal(pow);
                assert(pow(2, (i + 1) as nat) == 2 * p);
                lemma_add_mod_noop(p, p, ni);
            }
            x = y;
            i += 1;
        }
        proof {
            let r = n.radix();
            lemma_pow256_is_pow2(n.wid());
            vstd::arithmetic::power::lemma_pow_adds(2, 8 * n.wid(), 8 * n.wid());
        }
        x
    }

    /// A Montgomery modulus from its value `n` and its constants `rr_mod_n == R^2 mod n` and
    /// `n_neg_inv` with `n * n_neg_inv ≡ -1 (mod R)`, inverting by the exponent `n - 2` (Fermat's
    /// little theorem, for a prime `n`; computed modulo `R`, so `R - 1` for `n == 1`); `None`
    /// unless all three are consistent.
    pub fn new(n: CompositeWord, rr_mod_n: CompositeWord, n_neg_inv: CompositeWord) -> (m: Option<
        Self,
    >)
        ensures
            m is Some <==> montgomery_params_ok(n, rr_mod_n, n_neg_inv),
            1 <= n.wid() <= usize::MAX / 16 && n.val() % 2 == 1 && rr_mod_n.wid() == n.wid()
                && rr_mod_n.val() == (pow256(n.wid()) * pow256(n.wid())) % n.val()
                && n_neg_inv.wid() == n.wid() && (n.val() * n_neg_inv.val()) % pow256(n.wid())
                == pow256(n.wid()) - 1 ==> m is Some,
            m matches Some(m) ==> {
                &&& m.wf()
                &&& m.spec_n() == n.val()
                &&& m.spec_width() == n.wid()
                &&& m.spec_inv_exp() == Some(((n.val() - 2) % (n.radix() as int)) as nat)
            },
    {
        let w = n.width();
        if w < 1 || w > usize::MAX / 16 || rr_mod_n.width() != w || n_neg_inv.width() != w {
            return None;
        }
        let one = CompositeWord::one(w);
        if !n.lsb() {
            return None;
        }
        let rr = Self::radix_squared_mod(&n);
        if !rr.equals(&rr_mod_n) {
            proof {
                if rr.val() == rr_mod_n.val() {
                    crate::word::lemma_val_injective(rr@, rr_mod_n@);
                }
            }
            return None;
        }
        let prod_plus_one = n.wrapping_mul(&n_neg_inv).wrapping_add(&one);
        if prod_plus_one.is_nonzero() {
            proof {
                let r = n.radix() as int;
                let x = ((n.val() * n_neg_inv.val()) as int) % r;
                lemma_pow256_pos(n.wid());
                lemma_mod_bound((n.val() * n_neg_inv.val()) as int, r);
                if x == r - 1 {
                    lemma_mod_self_0(r);
                }
            }
            return None;
        }
        proof {
            let r = n.radix() as int;
            let x = ((n.val() * n_neg_inv.val()) as int) % r;
            lemma_pow256_pos(n.wid());
            lemma_mod_bound((n.val() * n_neg_inv.val()) as int, r);
            if x + 1 < r {
                lemma_small_mod((x + 1) as nat, r as nat);
            }
        }
        let e1 = n.wrapping_sub(&one);
        let e = e1.wrapping_sub(&one);
        proof {
            lemma_pow256_pos(n.wid());
            lemma_pow256_monotone(1, n.wid());
            assert(pow256(0) == 1);
            assert(pow256(1) == 256);
            lemma_small_mod(1, n.radix());
            lemma_sub_mod_noop(n.val() as int - 1, 1, n.radix() as int);
        }
        Some(MontgomeryMod { n, rr_mod_n, n_neg_inv, inv_exp: Some(e) })
    }

    /// The same modulus, inverting by the exponent `inv_exp` instead (or not at all, for `None`).
    pub fn with_inv_exp(self, inv_exp: Option<CompositeWord>) -> (m: Self)
        requires
            inv_exp matches Some(e) ==> e.wid() == self.spec_width(),
        ensures
            self.wf() ==> m.wf(),
            m.spec_n() == self.spec_n(),
            m.spec_width() == self.spec_width(),
            m.spec_inv_exp() == (match inv_exp {
                Some(e) => Some(e.val()),
                None => None,
            }),
    {
        MontgomeryMod { inv_exp, ..self }
    }

    /// The value of the modulus.
    pub fn n(&self) -> (n: CompositeWord)
        ensures
            n.val() == self.spec_n(),
            n.wid() == self.spec_width(),
    {
        self.n.duplicate()
    }

    /// The exponent that inversion raises to: by default `n - 2`.
    pub fn inv_exp(&self) -> (e: Option<CompositeWord>)
        ensures
            match e {
                Some(e) => self.spec_inv_exp() == Some(e.val()) && (self.wf() ==> e.wid()
                    == self.spec_width()),
                None => self.spec_inv_exp() is None,
            },
    {
        match &self.inv_exp {
            Some(e) => Some(e.duplicate()),
            None => None,
        }
    }

    /// `R^2 mod n`.
    pub fn rr_mod_n(&self) -> (rr: CompositeWord)
        requires
            self.wf(),
        ensures
            rr.wid() == self.spec_width(),
            rr.val() == (self.spec_radix() * self.spec_radix()) % self.spec_n(),
    {
        self.rr_mod_n.duplicate()
    }

    /// `n_neg_inv`, with `n * n_neg_inv ≡ -1 (mod R)`.
    pub fn n_neg_inv(&self) -> (x: CompositeWord)
        requires
            self.wf(),
        ensures
            x.wid() == self.spec_width(),
            (self.spec_n() * x.val()) % self.spec_radix() == self.spec_radix() - 1,
    {
        self.n_neg_inv.duplicate()
    }

    /// Montgomery reduction of the double-width value `lo + hi * R`: `(lo + hi * R) * R^-1 mod n`.
    /// The value must be below `n * R`.
    pub fn redc_wide_const(&self, lo: &CompositeWord, hi: &CompositeWord) -> (t: CompositeWord)
        requires
            self.wf(),
            lo.wid() == self.spec_width(),
            hi.wid() == self.spec_width(),
            lo.val() + hi.val() * self.spec_radix() < self.spec_n() * self.spec_radix(),
        ensures
            t.wid() == self.spec_width(),
            t.val() == redc_spec(self.spec_n(), self.spec_width(), lo.val() + hi.val() * self.spec_radix()),
    {
        let n = &self.n;
        let w = n.width();
        proof {
            self.lemma_wf();
        }
        let m = lo.wrapping_mul(&self.n_neg_inv);
        let (mn_lo, mn_hi) = m.wide_mul(n);
        let (s0, t_lo_carry) = lo.overflowing_add(&mn_lo);
        let (t1, t_hi_carry) = hi.overflowing_add(&mn_hi);
        let (t2, t_hi_lo_carry) = t1.overflowing_add(&CompositeWord::from_bool(t_lo_carry, w));
        let ghost r = self.spec_radix() as int;
        let ghost ni = self.spec_n() as int;
        let ghost tv = lo.val() + hi.val() * r;
        proof {
            lemma_val_bound(lo@);
            lemma_val_bound(hi@);
            lemma_val_bound(mn_lo@);
            lemma_val_bound(mn_hi@);
            lemma_val_bound(s0@);
            lemma_val_bound(t1@);
            lemma_val_bound(t2@);
            lemma_pow256_pos(self.spec_width());
            lemma_redc(ni, r, self.n_neg_inv.val() as int, lo.val() as int, hi.val() as int, m.val() as int);
            let q = (tv + m.val() * ni) / r;
            lemma_redc_carries(
                ni,
                r,
                lo.val() as int,
                hi.val() as int,
                m.val() as int,
                mn_lo.val() as int,
                mn_hi.val() as int,
                s0.val() as int,
                if t_lo_carry { 1 } else { 0 },
                t1.val() as int,
                if t_hi_carry { 1 } else { 0 },
                t2.val() as int,
                if t_hi_lo_carry { 1 } else { 0 },
                q,
            );
        }
        // At most one of the two carries is set.
        let t = redc_finish(n, t2, t_hi_carry || t_hi_lo_carry);
        proof {
            let q = (tv + m.val() * ni) / r;
            lemma_redc_result(ni as nat, self.spec_width(), tv as nat, q as nat);
        }
        t
    }

    /// Montgomery reduction of a single-width value: `lo * R^-1 mod n`.
    pub fn redc_const(&self, lo: &CompositeWord) -> (t: CompositeWord)
        requires
            self.wf(),
            lo.wid() == self.spec_width(),
        ensures
            t.wid() == self.spec_width(),
            t.val() == redc_spec(self.spec_n(), self.spec_width(), lo.val()),
    {
        let n = &self.n;
        let w = n.width();
        proof {
            self.lemma_wf();
        }
        let m = lo.wrapping_mul(&self.n_neg_inv);
        let (mn_lo, mn_hi) = m.wide_mul(n);
        let (s0, t_lo_carry) = lo.overflowing_add(&mn_lo);
        let (t2, t_hi_lo_carry) = mn_hi.overflowing_add(&CompositeWord::from_bool(t_lo_carry, w));
        let ghost r = self.spec_radix() as int;
        let ghost ni = self.spec_n() as int;
        let ghost tv = lo.val() as int;
        proof {
            lemma_val_bound(lo@);
            lemma_val_bound(mn_lo@);
            lemma_val_bound(mn_hi@);
            lemma_val_bound(s0@);
            lemma_val_bound(t2@);
            lemma_pow256_pos(self.spec_width());
            assert(lo.val() + 0 * r < ni * r) by (nonlinear_arith)
                requires
                    lo.val() < r,
                    ni >= 1,
            ;
            lemma_redc(ni, r, self.n_neg_inv.val() as int, lo.val() as int, 0, m.val() as int);
            let q = (tv + 0 * r + m.val() * ni) / r;
            lemma_redc_carries(
                ni,
                r,
                lo.val() as int,
                0,
                m.val() as int,
                mn_lo.val() as int,
                mn_hi.val() as int,
                s0.val() as int,
                if t_lo_carry { 1 } else { 0 },
                mn_hi.val() as int,
                0,
                t2.val() as int,
                if t_hi_lo_carry { 1 } else { 0 },
                q,
            );
        }
        let t = redc_finish(n, t2, t_hi_lo_carry);
        proof {
            let q = (tv + 0 * r + m.val() * ni) / r;
            lemma_redc_result(ni as nat, self.spec_width(), tv as nat, q as nat);
        }
        t
    }

    /// Converts a value to Montgomery form: `value * R mod n`.
    pub fn to_montgomery_const(&self, value: &CompositeWord) -> (t: CompositeWord)
        requires
            self.wf(),
            value.wid() == self.spec_width(),
        ensures
            t.wid() == self.spec_width(),
            t.val() == (value.val() * self.spec_radix()) % self.spec_n(),
    {
        proof {
            self.lemma_wf();
        }
        let rr = self.rr_mod_n();
        let (lo, hi) = value.wide_mul(&rr);
        proof {
            let r = self.spec_radix() as int;
            let ni = self.spec_n() as int;
            let v = value.val() as int;
            lemma_val_bound(value@);
            lemma_mod_bound(r * r, ni);
            assert(v * rr.val() < ni * r) by (nonlinear_arith)
                requires
                    0 <= v < r,
                    0 <= rr.val() < ni,
            ;
        }
        let t = self.redc_wide_const(&lo, &hi);
        proof {
            let r = self.spec_radix() as int;
            let ni = self.spec_n() as int;
            let k = self.spec_r_inv() as int;
            let v = value.val() as int;
            let rrv = rr.val() as int;
            assert(lo.val() + hi.val() * r == v * rrv);
            lemma_mul_mod_noop_left(v * rrv, k, ni);
            lemma_mul_mod_noop_right(v, r * r, ni);
            lemma_mul_mod_noop_left(v * (r * r), k, ni);
            lemma_mul_is_associative(v, r, r);
            lemma_times_unit(v * r, r, k, ni);
        }
        t
    }

    /// Converts a value out of Montgomery form: `value * R^-1 mod n`.
    pub fn from_montgomery_const(&self, value: &CompositeWord) -> (t: CompositeWord)
        requires
            self.wf(),
            value.wid() == self.spec_width(),
        ensures
            t.wid() == self.spec_width(),
            t.val() == (value.val() * self.spec_r_inv()) % self.spec_n(),
    {
        self.redc_const(value)
    }

    /// Reduces a value modulo the modulus, through Montgomery form and back.
    pub fn reduce_const(&self, value: &CompositeWord) -> (t: CompositeWord)
        requires
            self.wf(),
            value.wid() == self.spec_width(),
        ensures
            t.wid() == self.spec_width(),
            t.val() == value.val() % self.spec_n(),
    {
        let m = self.to_montgomery_const(value);
        let t = self.from_montgomery_const(&m);
        proof {
            self.lemma_wf();
            let ni = self.spec_n() as int;
            let v = value.val() as int;
            let r = self.spec_radix() as int;
            let k = self.spec_r_inv() as int;
            lemma_mul_mod_noop_left(v * r, k, ni);
            lemma_times_unit(v, r, k, ni);
        }
        t
    }
}

impl FieldRep for MontgomeryMod {
    open spec fn spec_p(&self) -> nat {
        self.spec_n()
    }

    open spec fn spec_width(&self) -> nat {
        MontgomeryMod::spec_width(self)
    }

    open spec fn spec_encode_factor(&self) -> nat {
        self.spec_radix()
    }

    open spec fn spec_decode_factor(&self) -> nat {
        self.spec_r_inv()
    }

    open spec fn spec_wf(&self) -> bool {
        self.wf()
    }

    proof fn lemma_field_wf(&self) {
        self.lemma_wf();
    }

    fn modulus(&self) -> (p: CompositeWord) {
        self.n()
    }

    fn encode_const(&self, value: &CompositeWord) -> (internal: CompositeWord) {
        self.to_montgomery_const(value)
    }

    fn decode_const(&self, internal: &CompositeWord) -> (value: CompositeWord) {
        self.from_montgomery_const(internal)
    }

    fn mul_reduce_const(&self, lo: &CompositeWord, hi: &CompositeWord) -> (internal: CompositeWord) {
        self.redc_wide_const(lo, hi)
    }
}

/// A field element, held in the internal representation of its field: for a
/// [MontgomeryMod], the Montgomery form `v * R mod n` of its residue `v`.
pub struct MontgomeryWord<'a, M: FieldRep> {
    montgomery_val: CompositeWord,
    modulus: &'a M,
}

impl<'a, M: FieldRep> View for MontgomeryWord<'a, M> {
    /// The canonical residue, in `[0, p)`.
    type V = nat;

    open spec fn view(&self) -> nat {
        field_decode(&self.spec_modulus(), self.spec_inner())
    }
}

impl<'a, M: FieldRep> MontgomeryWord<'a, M> {
    /// The field the element belongs to.
    pub closed spec fn spec_modulus(&self) -> M {
        *self.modulus
    }

    /// The internal value.
    pub closed spec fn spec_inner(&self) -> nat {
        self.montgomery_val.val()
    }

    /// The width in bytes of the internal value.
    pub closed spec fn spec_inner_width(&self) -> nat {
        self.montgomery_val.wid()
    }

    /// The internal value is a reduced word of the field's width.
    pub open spec fn wf(&self) -> bool {
        &&& self.spec_modulus().spec_wf()
        &&& self.spec_inner_width() == self.spec_modulus().spec_width()
        &&& self.spec_inner() < self.spec_modulus().spec_p()
    }

    proof fn lemma_view(&self)
        requires
            self.wf(),
        ensures
            self@ < self.spec_modulus().spec_p(),
            self.spec_modulus().spec_p() >= 1,
    {
        self.spec_modulus().lemma_field_wf();
        let p = self.spec_modulus().spec_p() as int;
        lemma_mod_bound((self.spec_inner() * self.spec_modulus().spec_decode_factor()) as int, p);
    }

    /// Converts the given value to the field's internal representation.
    pub fn new(value: &CompositeWord, modulus: &'a M) -> (w: Self)
        requires
            modulus.spec_wf(),
            value.wid() == modulus.spec_width(),
        ensures
            w.wf(),
            w.spec_modulus() == *modulus,
            w.spec_inner() == field_encode(modulus, value.val()),
            w@ == value.val() % modulus.spec_p(),
    {
        let montgomery_val = modulus.encode_const(value);
        proof {
            modulus.lemma_field_wf();
            let p = modulus.spec_p() as int;
            let f = modulus.spec_encode_factor() as int;
            let k = modulus.spec_decode_factor() as int;
            let v = value.val() as int;
            lemma_mod_bound(v * f, p);
            lemma_mul_mod_noop_left(v * f, k, p);
            lemma_times_unit(v, f, k, p);
        }
        MontgomeryWord { montgomery_val, modulus }
    }

    /// Wraps a value already in the internal representation, without converting it. The value
    /// must be below the modulus.
    pub fn from_inner(montgomery_val: CompositeWord, modulus: &'a M) -> (w: Self)
        requires
            modulus.spec_wf(),
            montgomery_val.wid() == modulus.spec_width(),
            montgomery_val.val() < modulus.spec_p(),
        ensures
            w.wf(),
            w.spec_modulus() == *modulus,
            w.spec_inner() == montgomery_val.val(),
    {
        MontgomeryWord { montgomery_val, modulus }
    }

    /// Returns the modulus associated with this word.
    pub fn modulus(&self) -> (m: &'a M)
        ensures
            *m == self.spec_modulus(),
    {
        self.modulus
    }

    /// Consumes this word and returns its modulus.
    pub fn into_modulus(self) -> (m: &'a M)
        ensures
            *m == self.spec_modulus(),
    {
        self.modulus
    }

    /// Converts this value out of the internal representation: its canonical residue.
    pub fn value(&self) -> (v: CompositeWord)
        requires
            self.wf(),
        ensures
            v.wid() == self.spec_modulus().spec_width(),
            v.val() == self@,
    {
        self.modulus.decode_const(&self.montgomery_val)
    }

    /// Returns the internal value.
    pub fn inner(&self) -> (x: &CompositeWord)
        ensures
            x.val() == self.spec_inner(),
            x.wid() == self.spec_inner_width(),
    {
        &self.montgomery_val
    }

    /// Consumes this word and returns the internal value.
    pub fn into_inner(self) -> (x: CompositeWord)
        ensures
            x.val() == self.spec_inner(),
            x.wid() == self.spec_inner_width(),
    {
        self.montgomery_val
    }

    /// Consumes this word and returns its internal value and modulus.
    pub fn destructure(self) -> (parts: (CompositeWord, &'a M))
        ensures
            parts.0.val() == self.spec_inner(),
            parts.0.wid() == self.spec_inner_width(),
            *parts.1 == self.spec_modulus(),
    {
        (self.montgomery_val, self.modulus)
    }

    /// Erases the value, leaving the modulus alone: the word becomes zero.
    pub fn zeroize(&mut self)
        requires
            old(self).wf(),
        ensures
            final(self).wf(),
            final(self).spec_modulus() == old(self).spec_modulus(),
            final(self).spec_inner() == 0,
            final(self)@ == 0,
    {
        self.montgomery_val.zeroize();
        proof {
            self.spec_modulus().lemma_field_wf();
            lemma_small_mod(0, self.spec_modulus().spec_p());
        }
    }

    /// A second word with the same value and modulus.
    pub fn duplicate(&self) -> (w: Self)
        ensures
            w.spec_modulus() == self.spec_modulus(),
            w.spec_inner() == self.spec_inner(),
            w.spec_inner_width() == self.spec_inner_width(),
    {
        MontgomeryWord { montgomery_val: self.montgomery_val.duplicate(), modulus: self.modulus }
    }

    /// Whether this word is zero (its internal value, and so its residue).
    pub fn is_zero(&self) -> (z: bool)
        requires
            self.wf(),
        ensures
            z == (self.spec_inner() == 0),
            z == (self@ == 0),
    {
        proof {
            self.lemma_zero_iff();
        }
        self.montgomery_val.is_zero()
    }

    /// Whether this word is nonzero.
    pub fn is_nonzero(&self) -> (nz: bool)
        requires
            self.wf(),
        ensures
            nz == (self.spec_inner() != 0),
            nz == (self@ != 0),
    {
        proof {
            self.lemma_zero_iff();
        }
        self.montgomery_val.is_nonzero()
    }

    proof fn lemma_zero_iff(&self)
        requires
            self.wf(),
        ensures
            (self.spec_inner() == 0) == (self@ == 0),
    {
        let m = self.spec_modulus();
        m.lemma_field_wf();
        let p = m.spec_p() as int;
        let x = self.spec_inner() as int;
        let k = m.spec_decode_factor() as int;
        let f = m.spec_encode_factor() as int;
        if self@ == 0 {
            // x ≡ x * k * f ≡ 0 (mod p)
            lemma_mul_is_commutative(f, k);
            lemma_times_unit(x, k, f, p);
            lemma_mul_mod_noop_left(x * k, f, p);
            lemma_small_mod(x as nat, p as nat);
        }
        if x == 0 {
            lemma_small_mod(0, p as nat);
        }
    }

    /// Modular negation: `-self mod p`.
    pub fn neg(&self) -> (r: Self)
        requires
            self.wf(),
        ensures
            r.wf(),
            r.spec_modulus() == self.spec_modulus(),
            r@ == (0 - self@) % (self.spec_modulus().spec_p() as int),
    {
        let p = self.modulus.modulus();
        proof {
            self.lemma_view();
        }
        if self.montgomery_val.is_zero() {
            proof {
                self.lemma_zero_iff();
                lemma_small_mod(0, self.spec_modulus().spec_p());
            }
            return self.duplicate();
        }
        let v = p.wrapping_sub(&self.montgomery_val);
        proof {
            let pi = p.val() as int;
            let x = self.spec_inner() as int;
            let k = self.spec_modulus().spec_decode_factor() as int;
            lemma_val_bound(p@);
            lemma_small_mod((pi - x) as nat, p.radix());
            lemma_mod_add_multiples_vanish(0 - x, pi);
            lemma_small_mod((pi - x) as nat, pi as nat);
            lemma_decode_sub(0, x, k, pi);
            lemma_small_mod(0, pi as nat);
        }
        MontgomeryWord { montgomery_val: v, modulus: self.modulus }
    }

    /// Modular addition: `self + rhs mod p`. Both words must belong to one field.
    pub fn add(&self, rhs: &Self) -> (r: Self)
        requires
            self.wf(),
            rhs.wf(),
            self.spec_modulus() == rhs.spec_modulus(),
        ensures
            r.wf(),
            r.spec_modulus() == self.spec_modulus(),
            r@ == (self@ + rhs@) % self.spec_modulus().spec_p(),
    {
        let p = self.modulus.modulus();
        let v = add_mod(&self.montgomery_val, &rhs.montgomery_val, &p);
        proof {
            lemma_decode_add(
                self.spec_inner() as int,
                rhs.spec_inner() as int,
                self.spec_modulus().spec_decode_factor() as int,
                p.val() as int,
            );
            lemma_mod_bound((self.spec_inner() + rhs.spec_inner()) as int, p.val() as int);
        }
        MontgomeryWord { montgomery_val: v, modulus: self.modulus }
    }

    /// Modular subtraction: `self - rhs mod p`. Both words must belong to one field.
    pub fn sub(&self, rhs: &Self) -> (r: Self)
        requires
            self.wf(),
            rhs.wf(),
            self.spec_modulus() == rhs.spec_modulus(),
        ensures
            r.wf(),
            r.spec_modulus() == self.spec_modulus(),
            r@ == (self@ - rhs@) % (self.spec_modulus().spec_p() as int),
    {
        let p = self.modulus.modulus();
        let (res, borrow) = self.montgomery_val.overflowing_sub(&rhs.montgomery_val);
        let ghost pi = p.val() as int;
        let ghost d = self.spec_inner() - rhs.spec_inner();
        proof {
            lemma_val_bound(p@);
            lemma_val_bound(res@);
        }
        let v = if borrow {
            let v = res.wrapping_add(&p);
            proof {
                let rad = p.radix() as int;
                assert(res.val() + pi == d + pi + rad);
                lemma_mod_add_multiples_vanish(d + pi, rad);
                lemma_small_mod((d + pi) as nat, rad as nat);
                lemma_mod_add_multiples_vanish(d, pi);
                lemma_small_mod((d + pi) as nat, pi as nat);
            }
            v
        } else {
            proof {
                lemma_small_mod(d as nat, pi as nat);
            }
            res
        };
        proof {
            lemma_decode_sub(
                self.spec_inner() as int,
                rhs.spec_inner() as int,
                self.spec_modulus().spec_decode_factor() as int,
                pi,
            );
        }
        MontgomeryWord { montgomery_val: v, modulus: self.modulus }
    }

    /// Modular multiplication: `self * rhs mod p`. Both words must belong to one field.
    pub fn mul(&self, rhs: &Self) -> (r: Self)
        requires
            self.wf(),
            rhs.wf(),
            self.spec_modulus() == rhs.spec_modulus(),
        ensures
            r.wf(),
            r.spec_modulus() == self.spec_modulus(),
            r@ == (self@ * rhs@) % self.spec_modulus().spec_p(),
    {
        proof {
            self.spec_modulus().lemma_field_wf();
        }
        let (res_lo, res_hi) = self.montgomery_val.wide_mul(&rhs.montgomery_val);
        proof {
            let p = self.spec_modulus().spec_p() as int;
            let r = pow256(self.spec_modulus().spec_width()) as int;
            let a = self.spec_inner() as int;
            let b = rhs.spec_inner() as int;
            assert(a * b < p * r) by (nonlinear_arith)
                requires
                    0 <= a < p,
                    0 <= b < p,
                    p < r,
            ;
        }
        let v = self.modulus.mul_reduce_const(&res_lo, &res_hi);
        proof {
            let p = self.spec_modulus().spec_p() as int;
            let k = self.spec_modulus().spec_decode_factor() as int;
            let a = self.spec_inner() as int;
            let b = rhs.spec_inner() as int;
            lemma_decode_mul(a, b, k, p);
            lemma_mod_bound(a * b * k, p);
        }
        MontgomeryWord { montgomery_val: v, modulus: self.modulus }
    }

    /// Modular addition of a constant: `self + rhs mod p`, the constant being taken into the
    /// field's representation first.
    pub fn add_const(&self, rhs: &CompositeWord) -> (r: Self)
        requires
            self.wf(),
            rhs.wid() == self.spec_modulus().spec_width(),
        ensures
            r.wf(),
            r.spec_modulus() == self.spec_modulus(),
            r@ == (self@ + rhs.val()) % self.spec_modulus().spec_p(),
    {
        let c = MontgomeryWord::new(rhs, self.modulus);
        let r = self.add(&c);
        proof {
            let p = self.spec_modulus().spec_p() as int;
            self.spec_modulus().lemma_field_wf();
            lemma_add_mod_noop(self@ as int, rhs.val() as int, p);
            lemma_small_mod(self@, p as nat);
            lemma_mod_twice(rhs.val() as int, p);
        }
        r
    }

    /// Modular multiplication by a constant: `self * rhs mod p`, the constant being taken into
    /// the field's representation first.
    pub fn mul_const(&self, rhs: &CompositeWord) -> (r: Self)
        requires
            self.wf(),
            rhs.wid() == self.spec_modulus().spec_width(),
        ensures
            r.wf(),
            r.spec_modulus() == self.spec_modulus(),
            r@ == (self@ * rhs.val()) % self.spec_modulus().spec_p(),
    {
        let c = MontgomeryWord::new(rhs, self.modulus);
        let r = self.mul(&c);
        proof {
            let p = self.spec_modulus().spec_p() as int;
            self.spec_modulus().lemma_field_wf();
            lemma_mul_mod_noop_right(self@ as int, rhs.val() as int, p);
        }
        r
    }

    /// Replaces the value by zero, keeping the field.
    pub fn into_zero(self) -> (r: Self)
        requires
            self.wf(),
        ensures
            r.wf(),
            r.spec_modulus() == self.spec_modulus(),
            r@ == 0,
    {
        let mut r = self;
        r.zeroize();
        r
    }

    /// Replaces the value by the constant `word` (reduced mod `p`), keeping the field.
    pub fn into_const(self, word: &CompositeWord) -> (r: Self)
        requires
            self.wf(),
            word.wid() == self.spec_modulus().spec_width(),
        ensures
            r.wf(),
            r.spec_modulus() == self.spec_modulus(),
            r@ == word.val() % self.spec_modulus().spec_p(),
    {
        MontgomeryWord::new(word, self.modulus)
    }

    /// Modular inverse by safegcd: the canonical residue `a` is taken out of the field's
    /// representation, inverted modulo `p` by `safegcd_invert`, and the result put back. As
    /// there, `a * r ≡ |f| (mod p)` for the final `f` of the divsteps, which is one for an
    /// `a` coprime to `p` once `g` has reached zero; zero goes to zero.
    pub fn safegcd_inv(&self) -> (r: Self)
        requires
            self.wf(),
            49 * (8 * self.spec_modulus().spec_width()) + 80 <= usize::MAX,
        ensures
            r.wf(),
            r.spec_modulus() == self.spec_modulus(),
            r@ == safegcd_result(
                spec_divstep_count(8 * self.spec_modulus().spec_width()),
                self.spec_modulus().spec_p() as int,
                self@ as int,
            ),
            (self@ * r@) % self.spec_modulus().spec_p() == abs(
                divsteps(
                    spec_divstep_count(8 * self.spec_modulus().spec_width()),
                    1,
                    self.spec_modulus().spec_p() as int,
                    self@ as int,
                ).1,
            ) % self.spec_modulus().spec_p(),
            self@ == 0 ==> r@ == 0,
            coprime(self@ as int, self.spec_modulus().spec_p() as int) && divsteps(
                spec_divstep_count(8 * self.spec_modulus().spec_width()),
                1,
                self.spec_modulus().spec_p() as int,
                self@ as int,
            ).2 == 0 ==> (self@ * r@) % self.spec_modulus().spec_p() == 1nat
                % self.spec_modulus().spec_p(),
    {
        proof {
            self.spec_modulus().lemma_field_wf();
            self.lemma_view();
        }
        let a = self.value();
        let p = self.modulus.modulus();
        let inv = safegcd_invert(&a, &p);
        let r = MontgomeryWord::new(&inv, self.modulus);
        proof {
            lemma_small_mod(inv.val(), p.val());
        }
        r
    }

    /// Raises this word to the power `e` by repeated squaring: `self^e mod p`.
    pub(crate) fn inv_by_rep_squaring(&self, e: &CompositeWord) -> (r: Self)
        requires
            self.wf(),
        ensures
            r.wf(),
            r.spec_modulus() == self.spec_modulus(),
            r@ == pow(self@ as int, e.val()) % (self.spec_modulus().spec_p() as int),
    {
        let modulus = self.modulus;
        proof {
            modulus.lemma_field_wf();
            self.lemma_view();
        }
        let p = modulus.modulus();
        let mut res = MontgomeryWord::new(&CompositeWord::one(p.width()), modulus);
        let mut base = self.duplicate();
        let mut e = e.duplicate();
        let ghost p_int = modulus.spec_p() as int;
        let ghost want = pow(self@ as int, e.val()) % p_int;
        proof {
            lemma_mul_mod_noop_left(1, pow(self@ as int, e.val()), p_int);
            lemma_mul_is_commutative(1, pow(self@ as int, e.val()));
        }
        while e.is_nonzero()
            invariant
                res.wf(),
                base.wf(),
                res.spec_modulus() == *modulus,
                base.spec_modulus() == *modulus,
                p_int == modulus.spec_p(),
                p_int >= 1,
                (res@ * pow(base@ as int, e.val())) % p_int == want,
            decreases e.val(),
        {
            let ghost e_old = e.val();
            let ghost res_old = res@;
            let ghost base_old = base@;
            if e.lsb() {
                res = res.mul(&base);
            }
            base = base.mul(&base);
            e = e.shr1();
            proof {
                lemma_square_step(res_old as int, base_old as int, e_old, p_int);
            }
        }
        proof {
            vstd::arithmetic::power::lemma_pow0(base@ as int);
            res.lemma_view();
            lemma_small_mod(res@, modulus.spec_p());
        }
        res
    }

    /// Inverse by Fermat's little theorem: `self^(p - 2) mod p`.
    pub(crate) fn fermat_inv(&self) -> (r: Self)
        requires
            self.wf(),
        ensures
            r.wf(),
            r.spec_modulus() == self.spec_modulus(),
            r@ == pow(self@ as int, (self.spec_modulus().spec_p() - 2) as nat) % (
            self.spec_modulus().spec_p() as int),
    {
        proof {
            self.spec_modulus().lemma_field_wf();
        }
        let p = self.modulus.modulus();
        let one = CompositeWord::one(p.width());
        let e = p.wrapping_sub(&one).wrapping_sub(&one);
        proof {
            lemma_val_bound(p@);
            if p.val() >= 2 {
                lemma_small_mod((p.val() - 1) as nat, p.radix());
                lemma_small_mod((p.val() - 2) as nat, p.radix());
            }
        }
        let r = self.inv_by_rep_squaring(&e);
        proof {
            r.lemma_view();
            if p.val() < 2 {
                let x = pow(self@ as int, (self.spec_modulus().spec_p() - 2) as nat);
                lemma_small_mod(r@, 1);
                lemma_mod_bound(x, 1);
            }
        }
        r
    }
}

impl<'a> MontgomeryWord<'a, MontgomeryMod> {
    /// Modular inverse of this word: the word raised to the modulus's inversion exponent (by
    /// default `n - 2`, the inverse by Fermat's little theorem when `n` is prime). The modulus
    /// must have an inversion exponent.
    pub fn inv(&self) -> (r: Self)
        requires
            self.wf(),
            self.spec_modulus().spec_inv_exp() is Some,
        ensures
            r.wf(),
            r.spec_modulus() == self.spec_modulus(),
            r@ == pow(self@ as int, self.spec_modulus().spec_inv_exp().unwrap()) % (
            self.spec_modulus().spec_n() as int),
    {
        match self.modulus.inv_exp() {
            Some(e) => self.inv_by_rep_squaring(&e),
            None => {
                proof {
                    assert(false);
                }
                self.duplicate()
            },
        }
    }
}

} // verus!
