# zkboo_modular

Modular arithmetic for prime fields over fixed-width words, verified with Verus.

- `src/word.rs`: fixed-width unsigned words (little-endian bytes) with overflowing, wrapping and
  widening arithmetic, each specified over the word's value.
- `src/montgomery.rs`: the Montgomery modulus (`n`, `R² mod n`, `-n⁻¹ mod R`, checked on
  construction), Montgomery reduction, conversion in and out of Montgomery form, and
  `MontgomeryWord`, a field element generic over the field representation.
- `src/pseudo_mersenne.rs`: moduli `p = 2^w − c` with small `c`, and Solinas reduction.
- `src/field.rs`: `FieldRep`, the representation a field element is held in (Montgomery form or
  canonical form), with the encoding and decoding factors its contracts are stated in.
- `src/safegcd.rs`: the Bernstein–Yang divstep inversion, specified by the divstep recurrence;
  its result is proved to be the inverse of a coprime input whenever the fixed number of divsteps
  has brought `g` to zero. That this number always suffices (the Bernstein–Yang bound) is not
  proved here.
- `src/fermat.rs`: Fermat's little theorem, behind inversion by the exponent `p − 2`.
- `src/laws.rs`: properties relating several operations.
- `app/lib.rs`: the in-circuit layer, which emits zkboo gates following the verified build-time
  functions step for step; it is ordinary Rust, and nothing checks it against them.
