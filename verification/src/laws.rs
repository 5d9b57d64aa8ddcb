//! Properties that relate several operations of the library.
use vstd::arithmetic::div_mod::*;
use vstd::arithmetic::mul::*;
use vstd::arithmetic::power::{lemma0_pow, pow};
use vstd::math::abs;
use vstd::prelude::*;
use crate::arith::lemma_times_unit;
use crate::fermat::{is_prime, lemma_fermat};
use crate::field::{field_decode, field_encode, FieldRep};
use crate::montgomery::{montgomery_params_ok, redc_spec, MontgomeryMod};
use crate::pseudo_mersenne::{pseudo_mersenne_params_ok, PseudoMersenneMod};
use crate::word::{pow256, CompositeWord};
use crate::safegcd::{coprime, divsteps, lemma_converged_f_is_unit, spec_divstep_count};

verus! {

/// Decoding undoes encoding: the internal representation of `v` stands for `v mod p`.
pub proof fn law_decode_encode<M: FieldRep>(m: &M, v: nat)
    requires
        m.spec_wf(),
    ensures
        field_decode(m, field_encode(m, v)) == v % m.spec_p(),
{
    m.lemma_field_wf();
    let p = m.spec_p() as int;
    let f = m.spec_encode_factor() as int;
    let k = m.spec_decode_factor() as int;
    lemma_mul_mod_noop_left(v * f, k, p);
    lemma_times_unit(v as int, f, k, p);
}

/// Encoding undoes decoding: every internal value below `p` is the representation of the
/// residue it decodes to.
pub proof fn law_encode_decode<M: FieldRep>(m: &M, x: nat)
    requires
        m.spec_wf(),
        x < m.spec_p(),
    ensures
        field_encode(m, field_decode(m, x)) == x,
{
    m.lemma_field_wf();
    let p = m.spec_p() as int;
    let f = m.spec_encode_factor() as int;
    let k = m.spec_decode_factor() as int;
    lemma_mul_mod_noop_left(x * k, f, p);
    lemma_mul_is_commutative(f, k);
    lemma_times_unit(x as int, k, f, p);
    lemma_small_mod(x, p as nat);
}

/// The two representations of one field agree: a value encoded in Montgomery form and the same
/// value encoded in the canonical form of a pseudo-Mersenne modulus stand for the same residue.
pub proof fn law_representations_agree(m1: &MontgomeryMod, m2: &PseudoMersenneMod, v: nat)
    requires
        m1.spec_wf(),
        m2.spec_wf(),
        m1.spec_p() == m2.spec_p(),
    ensures
        field_decode(m1, field_encode(m1, v)) == field_decode(m2, field_encode(m2, v)),
{
    law_decode_encode(m1, v);
    law_decode_encode(m2, v);
}

/// Converting out of Montgomery form undoes converting into it: `(v·R mod n)·R⁻¹ mod n` is
/// `v mod n`, which is what `reduce_const` computes.
pub proof fn law_montgomery_round_trip(m: &MontgomeryMod, v: nat)
    requires
        m.wf(),
    ensures
        (((v * m.spec_radix()) % m.spec_n()) * m.spec_r_inv()) % m.spec_n() == v % m.spec_n(),
{
    law_decode_encode(m, v);
}

/// Single-width Montgomery reduction is the double-width one with a zero high half:
/// `redc_const(lo)` and `redc_wide_const(lo, 0)` reduce the same value.
pub proof fn law_redc_is_redc_wide_with_zero_high(n: nat, w: nat, lo: nat)
    ensures
        redc_spec(n, w, lo) == redc_spec(n, w, lo + 0 * pow256(w)),
{
    assert(0 * pow256(w) == 0);
}

/// Subtracting `b` undoes adding it, for residues `a, b < p`.
pub proof fn law_sub_undoes_add(p: nat, a: nat, b: nat)
    requires
        a < p,
        b < p,
    ensures
        ((((a + b) % p) as int) - b) % (p as int) == a,
{
    let pi = p as int;
    lemma_sub_mod_noop((a + b) as int, b as int, pi);
    lemma_mod_twice((a + b) as int, pi);
    lemma_sub_mod_noop(((a + b) % p) as int, b as int, pi);
    lemma_small_mod(a, p);
}

/// Adding the negation of a residue gives zero.
pub proof fn law_add_neg_is_zero(p: nat, a: nat)
    requires
        a < p,
    ensures
        (a + (0 - a) % (p as int)) % (p as int) == 0,
{
    let pi = p as int;
    lemma_add_mod_noop(a as int, 0 - a, pi);
    lemma_mod_twice(0 - a, pi);
    lemma_add_mod_noop(a as int, (0 - a) % pi, pi);
    lemma_small_mod(0, p);
}

/// Multiplying a residue by one and adding zero to it leave it unchanged.
pub proof fn law_identities(p: nat, a: nat)
    requires
        a < p,
    ensures
        (a * 1) % p == a,
        (a + 0) % p == a,
{
    lemma_small_mod(a, p);
}

/// The safegcd result is an inverse once its divsteps have brought `g` to zero: for `a` coprime
/// to the odd modulus `p`, a result `r` with `a·r ≡ |f| (mod p)` (which `safegcd_invert`
/// guarantees) has `a·r ≡ 1 (mod p)`.
pub proof fn law_safegcd_converged_is_inverse(a: nat, p: nat, width: nat, r: nat)
    requires
        p % 2 == 1,
        coprime(a as int, p as int),
        divsteps(spec_divstep_count(8 * width), 1, p as int, a as int).2 == 0,
        (a * r) % p == abs(divsteps(spec_divstep_count(8 * width), 1, p as int, a as int).1) % p,
    ensures
        (a * r) % p == 1nat % p,
{
    lemma_converged_f_is_unit(spec_divstep_count(8 * width), p as int, a as int);
}

/// Inversion by the exponent `p − 2` (the default of `MontgomeryMod`, and `invert_const`) gives
/// the inverse modulo a prime `p`: `x · (x^(p−2) mod p) ≡ 1` for every `x` not divisible by `p`;
/// and zero goes to zero.
pub proof fn law_fermat_inverse(p: nat, x: nat)
    requires
        is_prime(p),
    ensures
        x % p != 0 ==> (x * (pow(x as int, (p - 2) as nat) % (p as int))) % (p as int) == 1,
        p > 2 && x == 0 ==> pow(x as int, (p - 2) as nat) % (p as int) == 0,
{
    let pi = p as int;
    if x % p != 0 {
        lemma_fermat(x, p);
        vstd::arithmetic::power::lemma_pow_adds(x as int, 1, (p - 2) as nat);
        vstd::arithmetic::power::lemma_pow1(x as int);
        assert(1 + (p - 2) == p - 1);
        lemma_mul_mod_noop_right(x as int, pow(x as int, (p - 2) as nat), pi);
    }
    if p > 2 && x == 0 {
        lemma0_pow((p - 2) as nat);
        lemma_small_mod(0, p);
    }
}

/// The divstep count covers the Bernstein–Yang bound for every width: at least
/// `⌊(49·w + 80) / 17⌋ + 2` divsteps for a `w`-bit modulus, never fewer than for 46 bits, and
/// never fewer for a wider modulus than for a narrower one.
pub proof fn law_divstep_count_covers_width(width: nat, wider: nat)
    ensures
        spec_divstep_count(width) >= (49 * width + 80) / 17 + 2,
        spec_divstep_count(width) >= (49 * 46 + 80) / 17 + 2,
        width <= wider ==> spec_divstep_count(width) <= spec_divstep_count(wider),
{
    let n = if width < 46 { 46 } else { width };
    lemma_div_is_ordered((49 * width + 80) as int, (49 * n + 80) as int, 17);
    lemma_div_is_ordered(49 * 46 + 80int, (49 * n + 80) as int, 17);
    if width <= wider {
        let m = if wider < 46 { 46 } else { wider };
        lemma_div_is_ordered((49 * n + 80) as int, (49 * m + 80) as int, 17);
    }
}

/// Every consistent Montgomery modulus is accepted, at every width the arithmetic supports: an
/// odd `n` of `w` bytes (`1 <= w <= usize::MAX / 16`) with `rr_mod_n == R² mod n` and
/// `n · n_neg_inv ≡ −1 (mod R)`, `R = 2^(8w)`, satisfies the constructor's condition; and
/// every modulus it accepts is of that kind.
pub proof fn law_montgomery_constants_accepted(
    n: CompositeWord,
    rr_mod_n: CompositeWord,
    n_neg_inv: CompositeWord,
)
    ensures
        (1 <= n.wid() <= usize::MAX / 16 && n.val() % 2 == 1 && rr_mod_n.wid() == n.wid()
            && rr_mod_n.val() == (pow256(n.wid()) * pow256(n.wid())) % n.val()
            && n_neg_inv.wid() == n.wid() && (n.val() * n_neg_inv.val()) % pow256(n.wid())
            == pow256(n.wid()) - 1) <==> montgomery_params_ok(n, rr_mod_n, n_neg_inv),
{
}

/// Every valid pseudo-Mersenne modulus is accepted, at every width the arithmetic supports: an
/// odd `p > 1` of `w` bytes (`1 <= w <= usize::MAX / 16`) with `p + c == 2^(8w)` and
/// `c² < 2^(8w)` satisfies the constructor's condition; and every modulus it accepts is of
/// that kind.
pub proof fn law_pseudo_mersenne_accepted(p: CompositeWord, c: CompositeWord)
    ensures
        (1 <= p.wid() <= usize::MAX / 16 && c.wid() == p.wid() && p.val() % 2 == 1 && p.val() > 1
            && p.val() + c.val() == pow256(p.wid()) && c.val() * c.val() < pow256(p.wid()))
            <==> pseudo_mersenne_params_ok(p, c),
{
}

} // verus!
