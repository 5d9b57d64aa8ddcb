//! Pseudo-Mersenne (Solinas) reduction for moduli of the form `p = 2^WIDTH - c` with a small
//! `c`, as an alternative to Montgomery reduction.
use vstd::arithmetic::div_mod::*;
use vstd::arithmetic::mul::*;
use vstd::prelude::*;
use crate::field::FieldRep;
use crate::word::{lemma_pow256_monotone, lemma_pow256_pos, lemma_val_bound, pow256, CompositeWord};

verus! {

/// The conditions on a pseudo-Mersenne modulus: an odd `p > 1` of width `w` bytes, with
/// `p + c == 2^(8w)` and `c * c < 2^(8w)`.
pub open spec fn pseudo_mersenne_params_ok(p: CompositeWord, c: CompositeWord) -> bool {
    let w = p.wid();
    let r = pow256(w);
    &&& 1 <= w <= usize::MAX / 16
    &&& p.val() > 1
    &&& p.val() % 2 == 1
    &&& c.wid() == w
    &&& p.val() + c.val() == r
    &&& c.val() * c.val() < r
}

/// An odd modulus of pseudo-Mersenne form `p = 2^(8 * width) - c`, with `c` small.
#[derive(Clone, Debug, PartialEq, Eq)]
pub struct PseudoMersenneMod {
    p: CompositeWord,
    c: CompositeWord,
}

/// With `R = p + c`, a multiple of `R` folds to the same multiple of `c`, modulo `p`.
proof fn lemma_fold(x: int, y: int, p: int, c: int, r: int)
    requires
        p > 0,
        r == p + c,
    ensures
        (x + y * r) % p == (x + y * c) % p,
{
    assert(x + y * r == p * y + (x + y * c)) by (nonlinear_arith)
        requires
            r == p + c,
    ;
    lemma_mod_multiples_vanish(y, x + y * c, p);
}

impl PseudoMersenneMod {
    /// The folding constant `c = 2^(8 * width) - p`.
    pub closed spec fn spec_c(&self) -> nat {
        self.c.val()
    }

    /// The modulus and its folding constant are consistent.
    pub closed spec fn wf(&self) -> bool {
        pseudo_mersenne_params_ok(self.p, self.c)
    }

    pub proof fn lemma_wf(&self)
        requires
            self.wf(),
        ensures
            self.spec_p() > 1,
            self.spec_p() % 2 == 1,
            1 <= self.spec_width() <= usize::MAX / 16,
            self.spec_p() + self.spec_c() == pow256(self.spec_width()),
            self.spec_c() * self.spec_c() < pow256(self.spec_width()),
            0 < self.spec_c() < self.spec_p(),
            2 * self.spec_c() < pow256(self.spec_width()),
    {
        let p = self.spec_p() as int;
        let c = self.spec_c() as int;
        let r = pow256(self.spec_width()) as int;
        lemma_val_bound(self.p@);
        assert(c < p && 2 * c < r) by (nonlinear_arith)
            requires
                p + c == r,
                c * c < r,
                p >= 3,
                c > 0,
        ;
    }

    /// A pseudo-Mersenne modulus from `p` and its folding constant `c = 2^(8 * width) - p`;
    /// `None` unless `p` is odd and above one, `p + c` is `2^(8 * width)` and `c * c` is below it.
    pub fn new(p: CompositeWord, c: CompositeWord) -> (m: Option<Self>)
        ensures
            m is Some <==> pseudo_mersenne_params_ok(p, c),
            1 <= p.wid() <= usize::MAX / 16 && c.wid() == p.wid() && p.val() % 2 == 1 && p.val()
                > 1 && p.val() + c.val() == pow256(p.wid()) && c.val() * c.val() < pow256(p.wid())
                ==> m is Some,
            m matches Some(m) ==> {
                &&& m.wf()
                &&& m.spec_p() == p.val()
                &&& m.spec_c() == c.val()
                &&& m.spec_width() == p.wid()
            },
    {
        let w = p.width();
        if w < 1 || w > usize::MAX / 16 || c.width() != w {
            return None;
        }
        let one = CompositeWord::one(w);
        let two = one.wrapping_add(&one);
        proof {
            lemma_pow256_monotone(1, w as nat);
            assert(pow256(0) == 1);
            assert(pow256(1) == 256);
            lemma_small_mod(2, p.radix());
            lemma_val_bound(p@);
            lemma_val_bound(c@);
        }
        if !p.lsb() || !p.ge(&two) {
            proof {
                assert(two.val() == 2);
                assert(!pseudo_mersenne_params_ok(p, c));
            }
            return None;
        }
        let (sum, carry) = p.overflowing_add(&c);
        proof {
            lemma_val_bound(sum@);
        }
        if !carry || sum.is_nonzero() {
            proof {
                assert(!pseudo_mersenne_params_ok(p, c));
            }
            return None;
        }
        assert(p.val() + c.val() == p.radix());
        let (c2_lo, c2_hi) = c.wide_mul(&c);
        proof {
            lemma_val_bound(c2_lo@);
            lemma_val_bound(c@);
            lemma_pow256_pos(w as nat);
        }
        if c2_hi.is_nonzero() {
            proof {
                let r = p.radix() as int;
                let h = c2_hi.val() as int;
                assert(h * r >= r) by (nonlinear_arith)
                    requires
                        h >= 1,
                        r > 0,
                ;
            }
            assert(!pseudo_mersenne_params_ok(p, c));
            return None;
        }
        proof {
            assert(c2_hi.val() == 0);
            lemma_mul_by_zero_is_zero(p.radix() as int);
            assert(c2_hi.val() * p.radix() == 0);
            assert(c.val() * c.val() < p.radix());
            assert(p.val() > 1);
            assert(p.val() % 2 == 1);
        }
        assert(pseudo_mersenne_params_ok(p, c));
        Some(PseudoMersenneMod { p, c })
    }

    /// The modulus `p`.
    pub fn p(&self) -> (p: CompositeWord)
        ensures
            p.val() == self.spec_p(),
            p.wid() == self.spec_width(),
    {
        self.p.duplicate()
    }

    /// The folding constant `c = 2^(8 * width) - p`.
    pub fn c(&self) -> (c: CompositeWord)
        requires
            self.wf(),
        ensures
            c.val() == self.spec_c(),
            c.wid() == self.spec_width(),
    {
        self.c.duplicate()
    }

    /// Field multiplication in canonical form: `a * b mod p`, for any `a` and `b` of the
    /// modulus's width (reduced or not), by the full product and [Self::reduce_wide_const].
    pub fn mul(&self, a: &CompositeWord, b: &CompositeWord) -> (res: CompositeWord)
        requires
            self.wf(),
            a.wid() == self.spec_width(),
            b.wid() == self.spec_width(),
        ensures
            res.wid() == self.spec_width(),
            res.val() == (a.val() * b.val()) % self.spec_p(),
    {
        proof {
            self.lemma_wf();
        }
        let (lo, hi) = a.wide_mul(b);
        self.reduce_wide_const(&lo, &hi)
    }

    /// Reduces a double-width value `lo + hi * 2^(8 * width)` modulo `p = 2^(8 * width) - c`,
    /// returning the canonical residue in `[0, p)`.
    pub fn reduce_wide_const(&self, lo: &CompositeWord, hi: &CompositeWord) -> (res: CompositeWord)
        requires
            self.wf(),
            lo.wid() == self.spec_width(),
            hi.wid() == self.spec_width(),
        ensures
            res.wid() == self.spec_width(),
            res.val() == (lo.val() + hi.val() * pow256(self.spec_width())) % self.spec_p(),
    {
        proof {
            self.lemma_wf();
        }
        let w = self.p.width();
        let c = &self.c;
        let p = &self.p;
        let ghost r = pow256(w as nat) as int;
        let ghost pi = p.val() as int;
        let ghost ci = c.val() as int;
        let ghost t = lo.val() + hi.val() * r;
        proof {
            lemma_val_bound(lo@);
            lemma_val_bound(hi@);
        }
        // Fold 1: value ≡ lo + hi·c. `hi·c` has a low word `h1_lo` and a high word `h1_hi < c`.
        let (h1_lo, h1_hi) = hi.wide_mul(c);
        let (s1, carry1) = lo.overflowing_add(&h1_lo);
        proof {
            lemma_val_bound(h1_lo@);
            lemma_val_bound(s1@);
            let h = hi.val() as int;
            assert(h * ci < r * ci) by (nonlinear_arith)
                requires
                    h < r,
                    ci > 0,
            ;
            assert(h1_hi.val() * r < ci * r) by (nonlinear_arith)
                requires
                    h1_lo.val() + h1_hi.val() * r == h * ci,
                    h * ci < r * ci,
                    h1_lo.val() >= 0,
            ;
            lemma_mul_strict_inequality_converse(h1_hi.val() as int, ci, r);
        }
        // The bits above the width are `h1_hi + carry1`; fold them in too (still ≡ ·c).
        let top1 = h1_hi.wrapping_add(&CompositeWord::from_bool(carry1, w));
        proof {
            lemma_small_mod((h1_hi.val() + (if carry1 { 1nat } else { 0nat })) as nat, r as nat);
            let c1 = if carry1 { 1int } else { 0int };
            lemma_fold(lo.val() as int, hi.val() as int, pi, ci, r);
            assert(lo.val() + hi.val() * ci == s1.val() + top1.val() * r) by (nonlinear_arith)
                requires
                    h1_lo.val() + h1_hi.val() * r == hi.val() * ci,
                    s1.val() + c1 * r == lo.val() + h1_lo.val(),
                    top1.val() == h1_hi.val() + c1,
            ;
            lemma_fold(s1.val() as int, top1.val() as int, pi, ci, r);
            assert(top1.val() * ci <= ci * ci) by (nonlinear_arith)
                requires
                    top1.val() <= ci,
                    ci >= 0,
            ;
            lemma_small_mod(top1.val() * c.val(), r as nat);
        }
        // Fold 2: value ≡ s1 + top1·c. `top1 <= c`, so `top1·c` fits in the width.
        let t2 = top1.wrapping_mul(c);
        let (s2, carry2) = s1.overflowing_add(&t2);
        // Fold 3: at most one extra multiple of `2^WIDTH ≡ c` remains.
        let add_c = if carry2 { c.duplicate() } else { CompositeWord::zero(w) };
        let (s3, carry3) = s2.overflowing_add(&add_c);
        proof {
            lemma_val_bound(s2@);
            lemma_val_bound(s3@);
            let c2 = if carry2 { 1int } else { 0int };
            let c3 = if carry3 { 1int } else { 0int };
            lemma_fold(s2.val() as int, c2, pi, ci, r);
            lemma_fold(s3.val() as int, c3, pi, ci, r);
            if carry3 {
                // carry3 needs carry2, and then s2 < c·c, so s3 + c stays below the radix.
                assert(carry2);
                assert(s2.val() < ci * ci);
                assert(s3.val() + ci < r);
            }
        }
        let s4 = if carry3 {
            s3.wrapping_add(c)
        } else {
            s3
        };
        proof {
            lemma_val_bound(s4@);
            if carry3 {
                lemma_small_mod((s3.val() + c.val()) as nat, r as nat);
            }
            assert((s4.val() as int) % pi == t % pi);
        }
        // s4 < 2^WIDTH = p + c < 2p; bring it into [0, p) with up to two conditional subtractions.
        let s5 = if s4.ge(p) {
            s4.wrapping_sub(p)
        } else {
            s4
        };
        proof {
            if s4.val() >= pi {
                lemma_small_mod((s4.val() - pi) as nat, r as nat);
                lemma_mod_sub_multiples_vanish(s4.val() as int, pi);
            }
            assert(s5.val() < pi);
            assert((s5.val() as int) % pi == t % pi);
            lemma_small_mod(s5.val(), pi as nat);
        }
        if s5.ge(p) {
            s5.wrapping_sub(p)
        } else {
            s5
        }
    }
}

impl FieldRep for PseudoMersenneMod {
    closed spec fn spec_p(&self) -> nat {
        self.p.val()
    }

    closed spec fn spec_width(&self) -> nat {
        self.p.wid()
    }

    open spec fn spec_encode_factor(&self) -> nat {
        1
    }

    open spec fn spec_decode_factor(&self) -> nat {
        1
    }

    open spec fn spec_wf(&self) -> bool {
        self.wf()
    }

    proof fn lemma_field_wf(&self) {
        self.lemma_wf();
        lemma_small_mod(1, self.spec_p());
    }

    fn modulus(&self) -> (p: CompositeWord) {
        self.p()
    }

    fn encode_const(&self, value: &CompositeWord) -> (internal: CompositeWord) {
        proof {
            self.lemma_wf();
            lemma_val_bound(value@);
        }
        let p = &self.p;
        if value.ge(p) {
            proof {
                let pi = p.val() as int;
                lemma_small_mod((value.val() - pi) as nat, value.radix());
                lemma_mod_sub_multiples_vanish(value.val() as int, pi);
                lemma_small_mod((value.val() - pi) as nat, pi as nat);
                assert(value.val() * 1 == value.val());
                assert(self.spec_encode_factor() == 1);
            }
            value.wrapping_sub(p)
        } else {
            proof {
                lemma_small_mod(value.val(), p.val());
            }
            value.duplicate()
        }
    }

    fn decode_const(&self, internal: &CompositeWord) -> (value: CompositeWord) {
        proof {
            lemma_small_mod(internal.val(), self.p.val());
        }
        internal.duplicate()
    }

    fn mul_reduce_const(&self, lo: &CompositeWord, hi: &CompositeWord) -> (internal: CompositeWord) {
        self.reduce_wide_const(lo, hi)
    }
}

} // verus!
