//! The [FieldRep] trait abstracts a prime field's *internal representation* and reduction strategy,
//! so that a single field-element type ([crate::montgomery::MontgomeryWord]) can be backed by
//! either Montgomery reduction ([crate::montgomery::MontgomeryMod]) or pseudo-Mersenne reduction
//! ([crate::pseudo_mersenne::PseudoMersenneMod]).
//!
//! A representation holds the canonical residue `v` of the field as the internal value
//! `v * f mod p` for a fixed factor `f` invertible modulo `p` (the Montgomery radix for Montgomery
//! form, one for the canonical form), and decodes an internal value `x` as `x * k mod p`, where
//! `k` is the inverse of `f`.
use vstd::arithmetic::power::pow;
use vstd::prelude::*;
use crate::montgomery::MontgomeryWord;
use crate::word::{pow256, CompositeWord};

verus! {

/// The canonical residue that the internal value `x` stands for.
pub open spec fn field_decode<M: FieldRep>(m: &M, x: nat) -> nat {
    (x * m.spec_decode_factor()) % m.spec_p()
}

/// The internal value that stands for the canonical residue of `v`.
pub open spec fn field_encode<M: FieldRep>(m: &M, v: nat) -> nat {
    (v * m.spec_encode_factor()) % m.spec_p()
}

/// Reduction strategy / internal representation for a prime field.
pub trait FieldRep: Sized {
    /// The field modulus `p`.
    spec fn spec_p(&self) -> nat;

    /// The width in bytes of the field's words.
    spec fn spec_width(&self) -> nat;

    /// The factor `f` by which a canonical residue is held internally.
    spec fn spec_encode_factor(&self) -> nat;

    /// The inverse `k` of the encoding factor, by which an internal value is decoded.
    spec fn spec_decode_factor(&self) -> nat;

    /// The representation's parameters are consistent.
    spec fn spec_wf(&self) -> bool;

    proof fn lemma_field_wf(&self)
        requires
            self.spec_wf(),
        ensures
            self.spec_p() % 2 == 1,
            1 <= self.spec_width() <= usize::MAX / 16,
            self.spec_p() < pow256(self.spec_width()),
            (self.spec_encode_factor() * self.spec_decode_factor()) % self.spec_p() == 1nat
                % self.spec_p(),
    ;

    /// The field modulus `p`.
    fn modulus(&self) -> (p: CompositeWord)
        requires
            self.spec_wf(),
        ensures
            p.val() == self.spec_p(),
            p.wid() == self.spec_width(),
    ;

    /// Encodes a value into the internal representation of its residue (build-time).
    fn encode_const(&self, value: &CompositeWord) -> (internal: CompositeWord)
        requires
            self.spec_wf(),
            value.wid() == self.spec_width(),
        ensures
            internal.wid() == self.spec_width(),
            internal.val() == (value.val() * self.spec_encode_factor()) % self.spec_p(),
    ;

    /// Decodes an internal value back to its canonical residue `[0, p)` (build-time).
    fn decode_const(&self, internal: &CompositeWord) -> (value: CompositeWord)
        requires
            self.spec_wf(),
            internal.wid() == self.spec_width(),
            internal.val() < self.spec_p(),
        ensures
            value.wid() == self.spec_width(),
            value.val() == (internal.val() * self.spec_decode_factor()) % self.spec_p(),
    ;

    /// Reduces a double-width internal product `lo + hi * 2^(8 * width)`, below
    /// `p * 2^(8 * width)`, to a single internal value (build-time): the internal value whose
    /// residue is the product's value times `k`.
    fn mul_reduce_const(&self, lo: &CompositeWord, hi: &CompositeWord) -> (internal: CompositeWord)
        requires
            self.spec_wf(),
            lo.wid() == self.spec_width(),
            hi.wid() == self.spec_width(),
            lo.val() + hi.val() * pow256(self.spec_width()) < self.spec_p() * pow256(
                self.spec_width(),
            ),
        ensures
            internal.wid() == self.spec_width(),
            internal.val() == ((lo.val() + hi.val() * pow256(self.spec_width())) * self.spec_decode_factor()) % self.spec_p(),
    ;
}

/// Native modular inverse of an internal value, in the internal representation: the residue
/// raised to `p - 2`, which is the inverse by Fermat's little theorem when `p` is prime.
pub fn invert_const<M: FieldRep>(field: &M, internal: &CompositeWord) -> (inverse: CompositeWord)
    requires
        field.spec_wf(),
        internal.wid() == field.spec_width(),
        internal.val() < field.spec_p(),
    ensures
        inverse.wid() == field.spec_width(),
        inverse.val() < field.spec_p(),
        (inverse.val() * field.spec_decode_factor()) % field.spec_p() == pow(
            ((internal.val() * field.spec_decode_factor()) % field.spec_p()) as int,
            (field.spec_p() - 2) as nat,
        ) % (field.spec_p() as int),
{
    let w = MontgomeryWord::from_inner(internal.duplicate(), field);
    w.fermat_inv().into_inner()
}

/// Creates a constant field element representing the given value's residue.
pub fn const_word<'a, M: FieldRep>(field: &'a M, value: &CompositeWord) -> (w: MontgomeryWord<'a, M>)
    requires
        field.spec_wf(),
        value.wid() == field.spec_width(),
    ensures
        w.wf(),
        w.spec_modulus() == *field,
        w@ == value.val() % field.spec_p(),
{
    MontgomeryWord::new(value, field)
}

/// Creates the constant field element zero.
pub fn zero_word<'a, M: FieldRep>(field: &'a M) -> (w: MontgomeryWord<'a, M>)
    requires
        field.spec_wf(),
    ensures
        w.wf(),
        w.spec_modulus() == *field,
        w@ == 0,
{
    proof {
        field.lemma_field_wf();
        vstd::arithmetic::div_mod::lemma_small_mod(0, field.spec_p());
    }
    let p = field.modulus();
    MontgomeryWord::from_inner(CompositeWord::zero(p.width()), field)
}

/// Creates the constant field element one.
pub fn one_word<'a, M: FieldRep>(field: &'a M) -> (w: MontgomeryWord<'a, M>)
    requires
        field.spec_wf(),
    ensures
        w.wf(),
        w.spec_modulus() == *field,
        w@ == 1nat % field.spec_p(),
{
    proof {
        field.lemma_field_wf();
    }
    let p = field.modulus();
    MontgomeryWord::new(&CompositeWord::one(p.width()), field)
}

} // verus!
