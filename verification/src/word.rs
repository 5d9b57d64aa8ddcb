//! Fixed-width unsigned words, held as little-endian bytes, and the wrapping, overflowing and
//! widening arithmetic that the modular layers are built on.
use vstd::prelude::*;

verus! {

/// `256^n`, the weight of byte `n` in a little-endian word.
pub open spec fn pow256(n: nat) -> nat
    decreases n,
{
    if n == 0 {
        1
    } else {
        256 * pow256((n - 1) as nat)
    }
}

/// The unsigned value of a little-endian byte sequence.
pub open spec fn seq_val(s: Seq<u8>) -> nat
    decreases s.len(),
{
    if s.len() == 0 {
        0
    } else {
        s[0] as nat + 256 * seq_val(s.drop_first())
    }
}

pub proof fn lemma_pow256_pos(n: nat)
    ensures
        pow256(n) >= 1,
    decreases n,
{
    if n > 0 {
        lemma_pow256_pos((n - 1) as nat);
    }
}

pub proof fn lemma_pow256_adds(a: nat, b: nat)
    ensures
        pow256(a + b) == pow256(a) * pow256(b),
    decreases a,
{
    if a > 0 {
        let a1 = (a - 1) as nat;
        lemma_pow256_adds(a1, b);
        assert(a + b == (a1 + b) + 1);
        assert(pow256(a + b) == 256 * pow256(a1 + b));
        assert(pow256(a) == 256 * pow256(a1));
        let x = pow256(a1);
        let y = pow256(b);
        assert(256 * (x * y) == (256 * x) * y) by (nonlinear_arith);
        assert(pow256(a + b) == pow256(a) * pow256(b));
    } else {
        assert(pow256(a) == 1);
        assert(a + b == b);
    }
}

pub proof fn lemma_pow256_monotone(a: nat, b: nat)
    requires
        a <= b,
    ensures
        pow256(a) <= pow256(b),
    decreases b,
{
    if a < b {
        lemma_pow256_monotone(a, (b - 1) as nat);
        lemma_pow256_pos((b - 1) as nat);
    }
}

pub proof fn lemma_val_bound(s: Seq<u8>)
    ensures
        seq_val(s) < pow256(s.len()),
    decreases s.len(),
{
    if s.len() > 0 {
        let r = s.drop_first();
        lemma_val_bound(r);
        let v = seq_val(r);
        let p = pow256(r.len());
        assert(s[0] as nat + 256 * v < 256 * p) by (nonlinear_arith)
            requires
                v < p,
                s[0] < 256,
        ;
    }
}

pub proof fn lemma_val_split(s: Seq<u8>, i: nat)
    requires
        i <= s.len(),
    ensures
        seq_val(s) == seq_val(s.take(i as int)) + pow256(i) * seq_val(s.skip(i as int)),
    decreases i,
{
    if i == 0 {
        assert(s.skip(0) =~= s);
        assert(s.take(0).len() == 0);
        assert(seq_val(s.take(0)) == 0);
        assert(pow256(0) == 1);
        assert(pow256(i) * seq_val(s.skip(i as int)) == seq_val(s));
    } else {
        let r = s.drop_first();
        lemma_val_split(r, (i - 1) as nat);
        assert(s.take(i as int).drop_first() =~= r.take(i - 1));
        assert(s.skip(i as int) =~= r.skip(i - 1));
        let a = seq_val(r.take(i - 1));
        let b = seq_val(r.skip(i - 1));
        let p = pow256((i - 1) as nat);
        assert(256 * (a + p * b) == 256 * a + (256 * p) * b) by (nonlinear_arith);
        assert(pow256(i) == 256 * p);
        assert(s.take(i as int)[0] == s[0]);
        assert(seq_val(s.take(i as int)) == s[0] + 256 * a);
        assert(seq_val(s) == s[0] + 256 * seq_val(r));
    }
}

pub proof fn lemma_val_single(x: u8)
    ensures
        seq_val(seq![x]) == x,
{
    assert(seq![x].drop_first() =~= Seq::<u8>::empty());
    assert(seq_val(Seq::<u8>::empty()) == 0);
}

pub proof fn lemma_val_push(s: Seq<u8>, x: u8)
    ensures
        seq_val(s.push(x)) == seq_val(s) + x * pow256(s.len()),
{
    let t = s.push(x);
    lemma_val_split(t, s.len());
    assert(t.take(s.len() as int) =~= s);
    assert(t.skip(s.len() as int) =~= seq![x]);
    lemma_val_single(x);
    let p = pow256(s.len());
    assert(p * x == x * p) by (nonlinear_arith);
}

/// A byte sequence is worth zero exactly when every byte is zero.
pub proof fn lemma_val_zero_iff(s: Seq<u8>)
    ensures
        (seq_val(s) == 0) <==> (forall|j: int| 0 <= j < s.len() ==> s[j] == 0),
    decreases s.len(),
{
    if s.len() > 0 {
        lemma_val_zero_iff(s.drop_first());
        if seq_val(s) == 0 {
            assert forall|j: int| 0 <= j < s.len() implies s[j] == 0 by {
                if j > 0 {
                    assert(s[j] == s.drop_first()[j - 1]);
                }
            }
        }
        if forall|j: int| 0 <= j < s.len() ==> s[j] == 0 {
            assert forall|j: int| 0 <= j < s.drop_first().len() implies s.drop_first()[j] == 0 by {
                assert(s.drop_first()[j] == s[j + 1]);
            }
        }
    }
}

/// Two byte sequences of one length with one value are the same sequence.
pub proof fn lemma_val_injective(s: Seq<u8>, t: Seq<u8>)
    requires
        s.len() == t.len(),
        seq_val(s) == seq_val(t),
    ensures
        s == t,
    decreases s.len(),
{
    if s.len() > 0 {
        let a = seq_val(s.drop_first()) as int;
        let b = seq_val(t.drop_first()) as int;
        let x = s[0] as int;
        let y = t[0] as int;
        assert(x == y && a == b) by (nonlinear_arith)
            requires
                x + 256 * a == y + 256 * b,
                0 <= x < 256,
                0 <= y < 256,
        ;
        lemma_val_injective(s.drop_first(), t.drop_first());
        assert(s =~= t) by {
            assert forall|j: int| 0 <= j < s.len() implies s[j] == t[j] by {
                if j > 0 {
                    assert(s[j] == s.drop_first()[j - 1]);
                    assert(t[j] == t.drop_first()[j - 1]);
                }
            }
        }
    } else {
        assert(s =~= t);
    }
}

pub proof fn lemma_val_parity(s: Seq<u8>)
    requires
        s.len() > 0,
    ensures
        seq_val(s) % 2 == s[0] % 2,
{
    let r = seq_val(s.drop_first());
    let a = s[0] as nat;
    assert((a + 256 * r) % 2 == a % 2) by (nonlinear_arith);
}

/// The top byte of a word whose value is below `256^(len-1)` is zero.
pub proof fn lemma_val_top_zero(s: Seq<u8>)
    requires
        s.len() > 0,
        seq_val(s) < pow256((s.len() - 1) as nat),
    ensures
        s[s.len() - 1] == 0,
{
    let k = (s.len() - 1) as nat;
    lemma_val_split(s, k);
    assert(s.skip(k as int) =~= seq![s[s.len() - 1]]);
    lemma_val_single(s[s.len() - 1]);
    let p = pow256(k);
    let t = s[s.len() - 1] as nat;
    let a = seq_val(s.take(k as int));
    assert(t == 0) by (nonlinear_arith)
        requires
            a + p * t < p,
    ;
}

/// One step of a carry chain: folding byte `i` into a running sum keeps the sum exact.
proof fn lemma_carry_step(
    acc: int,
    lo: int,
    hi: int,
    carry: int,
    x: int,
    y: int,
    p: int,
    want: int,
)
    by (nonlinear_arith)
    requires
        acc + carry * p == want,
        lo + 256 * hi == x + y + carry,
    ensures
        acc + lo * p + hi * (256 * p) == want + x * p + y * p,
{
}

proof fn lemma_take_push(s: Seq<u8>, i: int)
    requires
        0 <= i < s.len(),
    ensures
        s.take(i + 1) == s.take(i).push(s[i]),
{
    assert(s.take(i + 1) =~= s.take(i).push(s[i]));
}

/// Adds two byte vectors of one length; returns the low bytes and the carry out.
fn add_bytes(a: &Vec<u8>, b: &Vec<u8>) -> (res: (Vec<u8>, bool))
    requires
        a@.len() == b@.len(),
    ensures
        res.0@.len() == a@.len(),
        seq_val(res.0@) + (if res.1 { pow256(a@.len()) } else { 0 }) == seq_val(a@) + seq_val(b@),
{
    let n = a.len();
    let mut out: Vec<u8> = Vec::new();
    let mut carry: u16 = 0;
    let mut i: usize = 0;
    while i < n
        invariant
            n == a@.len(),
            n == b@.len(),
            i <= n,
            out@.len() == i,
            carry <= 1,
            seq_val(out@) + carry * pow256(i as nat) == seq_val(a@.take(i as int)) + seq_val(
                b@.take(i as int),
            ),
        decreases n - i,
    {
        let t: u16 = a[i] as u16 + b[i] as u16 + carry;
        let lo: u8 = (t % 256) as u8;
        let hi: u16 = t / 256;
        proof {
            lemma_val_push(out@, lo);
            lemma_take_push(a@, i as int);
            lemma_take_push(b@, i as int);
            lemma_val_push(a@.take(i as int), a@[i as int]);
            lemma_val_push(b@.take(i as int), b@[i as int]);
            lemma_carry_step(
                seq_val(out@) as int,
                lo as int,
                hi as int,
                carry as int,
                a@[i as int] as int,
                b@[i as int] as int,
                pow256(i as nat) as int,
                (seq_val(a@.take(i as int)) + seq_val(b@.take(i as int))) as int,
            );
            assert(pow256((i + 1) as nat) == 256 * pow256(i as nat));
        }
        out.push(lo);
        carry = hi;
        i += 1;
    }
    proof {
        assert(a@.take(n as int) =~= a@);
        assert(b@.take(n as int) =~= b@);
    }
    (out, carry == 1)
}

/// Subtracts two byte vectors of one length; returns the low bytes and the borrow out.
fn sub_bytes(a: &Vec<u8>, b: &Vec<u8>) -> (res: (Vec<u8>, bool))
    requires
        a@.len() == b@.len(),
    ensures
        res.0@.len() == a@.len(),
        seq_val(res.0@) == seq_val(a@) - seq_val(b@) + (if res.1 { pow256(a@.len()) } else { 0 }),
        res.1 == (seq_val(a@) < seq_val(b@)),
{
    let n = a.len();
    let mut out: Vec<u8> = Vec::new();
    let mut borrow: u8 = 0;
    let mut i: usize = 0;
    while i < n
        invariant
            n == a@.len(),
            n == b@.len(),
            i <= n,
            out@.len() == i,
            borrow <= 1,
            seq_val(out@) == seq_val(a@.take(i as int)) - seq_val(b@.take(i as int)) + borrow
                * pow256(i as nat),
        decreases n - i,
    {
        let x: u8 = a[i];
        let y: u8 = b[i];
        let lo: u8;
        let nb: u8;
        if x as u16 >= y as u16 + borrow as u16 {
            lo = x - y - borrow;
            nb = 0;
        } else {
            lo = (x as u16 + 256 - y as u16 - borrow as u16) as u8;
            nb = 1;
        }
        proof {
            lemma_val_push(out@, lo);
            lemma_take_push(a@, i as int);
            lemma_take_push(b@, i as int);
            lemma_val_push(a@.take(i as int), x);
            lemma_val_push(b@.take(i as int), y);
            let p = pow256(i as nat);
            let o = seq_val(out@) as int;
            let va = seq_val(a@.take(i as int)) as int;
            let vb = seq_val(b@.take(i as int)) as int;
            assert(o + lo * p == va + x * p - (vb + y * p) + nb * (256 * p)) by (nonlinear_arith)
                requires
                    o == va - vb + borrow * p,
                    lo == x - y - borrow + 256 * nb,
            ;
            assert(pow256((i + 1) as nat) == 256 * pow256(i as nat));
        }
        out.push(lo);
        borrow = nb;
        i += 1;
    }
    proof {
        assert(a@.take(n as int) =~= a@);
        assert(b@.take(n as int) =~= b@);
        lemma_val_bound(out@);
        lemma_val_bound(a@);
        lemma_val_bound(b@);
    }
    (out, borrow == 1)
}

/// Multiplies a byte vector by one byte; the result is one byte longer.
fn mul_byte(a: &Vec<u8>, x: u8) -> (res: Vec<u8>)
    ensures
        res@.len() == a@.len() + 1,
        seq_val(res@) == seq_val(a@) * x,
{
    let n = a.len();
    let mut out: Vec<u8> = Vec::new();
    let mut carry: u16 = 0;
    let mut i: usize = 0;
    proof {
        assert(seq_val(a@.take(0)) == 0);
        assert(seq_val(out@) == 0);
    }
    while i < n
        invariant
            n == a@.len(),
            i <= n,
            out@.len() == i,
            carry <= 255,
            seq_val(out@) + carry * pow256(i as nat) == seq_val(a@.take(i as int)) * x,
        decreases n - i,
    {
        let ai: u8 = a[i];
        assert(ai * x <= 255 * 255) by (nonlinear_arith)
            requires
                ai <= 255,
                x <= 255,
        ;
        let t: u16 = ai as u16 * x as u16 + carry;
        let lo: u8 = (t % 256) as u8;
        let hi: u16 = t / 256;
        proof {
            lemma_val_push(out@, lo);
            lemma_take_push(a@, i as int);
            lemma_val_push(a@.take(i as int), ai);
            let p = pow256(i as nat);
            let va = seq_val(a@.take(i as int)) as int;
            assert((va + ai * p) * x == va * x + (ai * x) * p) by (nonlinear_arith);
            lemma_carry_step(
                seq_val(out@) as int,
                lo as int,
                hi as int,
                carry as int,
                (ai * x) as int,
                0,
                p as int,
                va * x,
            );
            assert(pow256((i + 1) as nat) == 256 * pow256(i as nat));
        }
        out.push(lo);
        carry = hi;
        i += 1;
    }
    proof {
        assert(a@.take(n as int) =~= a@);
        lemma_val_push(out@, carry as u8);
    }
    out.push(carry as u8);
    out
}

/// Extends a byte vector with zero bytes up to `len`; the value is unchanged.
fn zero_extend(a: Vec<u8>, len: usize) -> (res: Vec<u8>)
    requires
        a@.len() <= len,
    ensures
        res@.len() == len,
        seq_val(res@) == seq_val(a@),
{
    let mut out = a;
    while out.len() < len
        invariant
            out@.len() <= len,
            seq_val(out@) == seq_val(a@),
        decreases len - out@.len(),
    {
        proof {
            lemma_val_push(out@, 0);
        }
        out.push(0);
    }
    out
}

/// Shifts a byte vector up by one byte, dropping its (zero) top byte: multiplies by 256.
fn shift_up(a: &Vec<u8>) -> (res: Vec<u8>)
    requires
        a@.len() > 0,
        seq_val(a@) < pow256((a@.len() - 1) as nat),
    ensures
        res@.len() == a@.len(),
        seq_val(res@) == 256 * seq_val(a@),
{
    let n = a.len();
    let mut out: Vec<u8> = Vec::new();
    out.push(0);
    let mut i: usize = 0;
    while i + 1 < n
        invariant
            n == a@.len(),
            n > 0,
            i + 1 <= n,
            out@.len() == i + 1,
            out@[0] == 0,
            forall|j: int| 0 <= j < i ==> out@[j + 1] == a@[j],
        decreases n - i,
    {
        out.push(a[i]);
        i += 1;
    }
    proof {
        let k = (n - 1) as nat;
        assert(out@.drop_first() =~= a@.take(k as int));
        lemma_val_top_zero(a@);
        lemma_val_split(a@, k);
        assert(a@.skip(k as int) =~= seq![0u8]);
        lemma_val_single(0);
    }
    out
}

/// The bytes `a[lo..hi]`.
fn sub_bytes_range(a: &Vec<u8>, lo: usize, hi: usize) -> (res: Vec<u8>)
    requires
        lo <= hi <= a@.len(),
    ensures
        res@ == a@.subrange(lo as int, hi as int),
{
    let mut out: Vec<u8> = Vec::new();
    let mut i: usize = lo;
    while i < hi
        invariant
            lo <= i <= hi,
            hi <= a@.len(),
            out@ == a@.subrange(lo as int, i as int),
        decreases hi - i,
    {
        out.push(a[i]);
        i += 1;
        assert(out@ =~= a@.subrange(lo as int, i as int));
    }
    out
}

/// The full product of two byte vectors of one length `n`, as `2n` bytes.
fn mul_bytes(a: &Vec<u8>, b: &Vec<u8>) -> (res: Vec<u8>)
    requires
        a@.len() == b@.len(),
        a@.len() <= usize::MAX / 2,
    ensures
        res@.len() == 2 * a@.len(),
        seq_val(res@) == seq_val(a@) * seq_val(b@),
{
    let n = a.len();
    let mut acc: Vec<u8> = zero_extend(Vec::new(), 2 * n);
    proof {
        assert(Seq::<u8>::empty().len() == 0);
        assert(seq_val(Seq::<u8>::empty()) == 0);
        assert(a@.skip(n as int).len() == 0);
        assert(seq_val(a@.skip(n as int)) == 0);
    }
    let mut i: usize = n;
    while i > 0
        invariant
            n == a@.len(),
            n == b@.len(),
            i <= n,
            acc@.len() == 2 * n,
            seq_val(acc@) == seq_val(a@.skip(i as int)) * seq_val(b@),
        decreases i,
    {
        let ai = a[i - 1];
        proof {
            let s = a@.skip(i as int);
            lemma_val_bound(s);
            lemma_val_bound(b@);
            lemma_pow256_adds((n - i) as nat, n as nat);
            lemma_pow256_monotone((n - i + n) as nat, (2 * n - 1) as nat);
            let x = seq_val(s);
            let y = seq_val(b@);
            assert(x * y < pow256((n - i) as nat) * pow256(n as nat)) by (nonlinear_arith)
                requires
                    x < pow256((n - i) as nat),
                    y < pow256(n as nat),
            ;
        }
        let shifted = shift_up(&acc);
        let row = zero_extend(mul_byte(b, ai), 2 * n);
        let (sum, _carry) = add_bytes(&shifted, &row);
        proof {
            let s = a@.skip(i - 1);
            assert(s.drop_first() =~= a@.skip(i as int));
            assert(s[0] == ai);
            let x = seq_val(a@.skip(i as int));
            let y = seq_val(b@);
            assert(seq_val(s) == ai + 256 * x);
            assert((ai + 256 * x) * y == 256 * (x * y) + y * ai) by (nonlinear_arith);
            lemma_val_bound(s);
            lemma_val_bound(b@);
            lemma_pow256_adds((n - i + 1) as nat, n as nat);
            lemma_pow256_monotone((n - i + 1 + n) as nat, (2 * n) as nat);
            let sv = seq_val(s);
            assert(sv * y < pow256((n - i + 1) as nat) * pow256(n as nat)) by (nonlinear_arith)
                requires
                    sv < pow256((n - i + 1) as nat),
                    y < pow256(n as nat),
            ;
            assert(s.len() == n - i + 1);
        }
        acc = sum;
        i -= 1;
    }
    proof {
        assert(a@.skip(0) =~= a@);
    }
    acc
}

/// A fixed-width unsigned word: its bytes, least significant first. Its width is the number of
/// bytes; all arithmetic between two words asks for equal widths.
#[derive(Clone, Debug, PartialEq, Eq)]
pub struct CompositeWord {
    pub limbs: Vec<u8>,
}

impl View for CompositeWord {
    type V = Seq<u8>;

    open spec fn view(&self) -> Seq<u8> {
        self.limbs@
    }
}

impl CompositeWord {
    /// The word's value.
    pub open spec fn val(&self) -> nat {
        seq_val(self@)
    }

    /// The word's width in bytes.
    pub open spec fn wid(&self) -> nat {
        self@.len()
    }

    /// `2^(8 * width)`: one more than the largest value of the word's width.
    pub open spec fn radix(&self) -> nat {
        pow256(self.wid())
    }

    /// Wraps little-endian bytes as a word of that width.
    pub fn from_le_bytes(bytes: Vec<u8>) -> (w: Self)
        ensures
            w@ == bytes@,
    {
        CompositeWord { limbs: bytes }
    }

    /// The word's bytes, least significant first.
    pub fn to_le_bytes(&self) -> (bytes: Vec<u8>)
        ensures
            bytes@ == self@,
    {
        self.limbs.clone()
    }

    /// A second word with the same bytes.
    pub fn duplicate(&self) -> (w: Self)
        ensures
            w@ == self@,
    {
        CompositeWord { limbs: self.limbs.clone() }
    }

    /// The word's width in bytes.
    pub fn width(&self) -> (n: usize)
        ensures
            n == self.wid(),
    {
        self.limbs.len()
    }

    /// The word `0` of the given width.
    pub fn zero(width: usize) -> (w: Self)
        ensures
            w.wid() == width,
            w.val() == 0,
    {
        let bytes = zero_extend(Vec::new(), width);
        proof {
            assert(seq_val(Seq::<u8>::empty()) == 0);
        }
        CompositeWord { limbs: bytes }
    }

    /// The word `b as 0/1` of the given (nonzero) width.
    pub fn from_bool(b: bool, width: usize) -> (w: Self)
        requires
            width >= 1,
        ensures
            w.wid() == width,
            w.val() == (if b { 1nat } else { 0nat }),
    {
        let mut v: Vec<u8> = Vec::new();
        v.push(if b { 1u8 } else { 0u8 });
        proof {
            lemma_val_single(v@[0]);
            assert(v@ =~= seq![v@[0]]);
        }
        CompositeWord { limbs: zero_extend(v, width) }
    }

    /// The word `1` of the given (nonzero) width.
    pub fn one(width: usize) -> (w: Self)
        requires
            width >= 1,
        ensures
            w.wid() == width,
            w.val() == 1,
    {
        Self::from_bool(true, width)
    }

    /// Overwrites every byte of the word with zero, in place.
    pub fn zeroize(&mut self)
        ensures
            final(self).wid() == old(self).wid(),
            final(self).val() == 0,
    {
        let n = self.limbs.len();
        let mut i: usize = 0;
        while i < n
            invariant
                n == self@.len(),
                n == old(self)@.len(),
                i <= n,
                forall|j: int| 0 <= j < i ==> self@[j] == 0,
            decreases n - i,
        {
            self.limbs.set(i, 0);
            i += 1;
        }
        proof {
            lemma_val_zero_iff(self@);
        }
    }

    /// Whether the word is zero.
    pub fn is_zero(&self) -> (r: bool)
        ensures
            r == (self.val() == 0),
    {
        let n = self.limbs.len();
        let mut i: usize = 0;
        while i < n
            invariant
                n == self@.len(),
                i <= n,
                forall|j: int| 0 <= j < i ==> self@[j] == 0,
            decreases n - i,
        {
            if self.limbs[i] != 0 {
                proof {
                    lemma_val_zero_iff(self@);
                }
                return false;
            }
            i += 1;
        }
        proof {
            lemma_val_zero_iff(self@);
        }
        true
    }

    /// Whether the word is nonzero.
    pub fn is_nonzero(&self) -> (r: bool)
        ensures
            r == (self.val() != 0),
    {
        !self.is_zero()
    }

    /// Whether the word is odd (its least significant bit).
    pub fn lsb(&self) -> (r: bool)
        requires
            self.wid() >= 1,
        ensures
            r == (self.val() % 2 == 1),
    {
        proof {
            lemma_val_parity(self@);
        }
        self.limbs[0] % 2 == 1
    }

    /// Whether two words have the same bytes.
    pub fn equals(&self, other: &Self) -> (r: bool)
        ensures
            r == (self@ == other@),
    {
        let n = self.limbs.len();
        if n != other.limbs.len() {
            return false;
        }
        let mut i: usize = 0;
        while i < n
            invariant
                n == self@.len(),
                n == other@.len(),
                i <= n,
                forall|j: int| 0 <= j < i ==> self@[j] == other@[j],
            decreases n - i,
        {
            if self.limbs[i] != other.limbs[i] {
                return false;
            }
            i += 1;
        }
        proof {
            assert(self@ =~= other@);
        }
        true
    }

    /// `self >= other` as unsigned values.
    pub fn ge(&self, other: &Self) -> (r: bool)
        requires
            self.wid() == other.wid(),
        ensures
            r == (self.val() >= other.val()),
    {
        let (_, borrow) = sub_bytes(&self.limbs, &other.limbs);
        !borrow
    }

    /// Sum and carry out: `self + rhs == sum + carry * 2^(8 * width)`.
    pub fn overflowing_add(&self, rhs: &Self) -> (res: (Self, bool))
        requires
            self.wid() == rhs.wid(),
        ensures
            res.0.wid() == self.wid(),
            res.0.val() + (if res.1 { self.radix() } else { 0 }) == self.val() + rhs.val(),
    {
        let (bytes, carry) = add_bytes(&self.limbs, &rhs.limbs);
        (CompositeWord { limbs: bytes }, carry)
    }

    /// Difference and borrow out: `self - rhs == diff - borrow * 2^(8 * width)`, and the borrow is
    /// set exactly when `self < rhs`.
    pub fn overflowing_sub(&self, rhs: &Self) -> (res: (Self, bool))
        requires
            self.wid() == rhs.wid(),
        ensures
            res.0.wid() == self.wid(),
            res.0.val() == self.val() - rhs.val() + (if res.1 { self.radix() } else { 0 }),
            res.1 == (self.val() < rhs.val()),
    {
        let (bytes, borrow) = sub_bytes(&self.limbs, &rhs.limbs);
        (CompositeWord { limbs: bytes }, borrow)
    }

    /// `(self + rhs) mod 2^(8 * width)`.
    pub fn wrapping_add(&self, rhs: &Self) -> (r: Self)
        requires
            self.wid() == rhs.wid(),
        ensures
            r.wid() == self.wid(),
            r.val() == (self.val() + rhs.val()) % self.radix(),
    {
        let (s, c) = self.overflowing_add(rhs);
        proof {
            lemma_val_bound(s@);
            let p = self.radix();
            if c {
                assert((s.val() + p) % p == s.val()) by {
                    vstd::arithmetic::div_mod::lemma_mod_add_multiples_vanish(s.val() as int, p as int);
                    vstd::arithmetic::div_mod::lemma_small_mod(s.val(), p);
                }
            } else {
                vstd::arithmetic::div_mod::lemma_small_mod(s.val(), p);
            }
        }
        s
    }

    /// `(self - rhs) mod 2^(8 * width)`.
    pub fn wrapping_sub(&self, rhs: &Self) -> (r: Self)
        requires
            self.wid() == rhs.wid(),
        ensures
            r.wid() == self.wid(),
            r.val() == (self.val() - rhs.val()) % (self.radix() as int),
    {
        let (s, b) = self.overflowing_sub(rhs);
        proof {
            lemma_val_bound(s@);
            let p = self.radix() as int;
            let d = self.val() - rhs.val();
            if b {
                assert((d + p) % p == d % p) by {
                    vstd::arithmetic::div_mod::lemma_mod_add_multiples_vanish(d, p);
                }
                vstd::arithmetic::div_mod::lemma_small_mod(s.val(), p as nat);
            } else {
                vstd::arithmetic::div_mod::lemma_small_mod(s.val(), p as nat);
            }
        }
        s
    }

    /// The bitwise complement: `2^(8 * width) - 1 - self`.
    pub fn not(&self) -> (r: Self)
        ensures
            r.wid() == self.wid(),
            r.val() == self.radix() - 1 - self.val(),
    {
        let n = self.limbs.len();
        let mut out: Vec<u8> = Vec::new();
        let mut i: usize = 0;
        proof {
            assert(seq_val(self@.take(0)) == 0);
            assert(seq_val(out@) == 0);
        }
        while i < n
            invariant
                n == self@.len(),
                i <= n,
                out@.len() == i,
                seq_val(out@) + seq_val(self@.take(i as int)) + 1 == pow256(i as nat),
            decreases n - i,
        {
            let x = self.limbs[i];
            let y: u8 = 255 - x;
            proof {
                lemma_val_push(out@, y);
                lemma_take_push(self@, i as int);
                lemma_val_push(self@.take(i as int), x);
                let p = pow256(i as nat);
                assert(y * p + x * p + p == 256 * p) by (nonlinear_arith)
                    requires
                        y + x == 255,
                ;
            }
            out.push(y);
            i += 1;
        }
        proof {
            assert(self@.take(n as int) =~= self@);
        }
        CompositeWord { limbs: out }
    }

    /// `(-self) mod 2^(8 * width)`.
    pub fn wrapping_neg(&self) -> (r: Self)
        ensures
            r.wid() == self.wid(),
            r.val() == (0 - self.val()) % (self.radix() as int),
    {
        let z = Self::zero(self.limbs.len());
        z.wrapping_sub(self)
    }

    /// The full product: `self * rhs == lo + hi * 2^(8 * width)`.
    pub fn wide_mul(&self, rhs: &Self) -> (res: (Self, Self))
        requires
            self.wid() == rhs.wid(),
            self.wid() <= usize::MAX / 2,
        ensures
            res.0.wid() == self.wid(),
            res.1.wid() == self.wid(),
            res.0.val() + res.1.val() * self.radix() == self.val() * rhs.val(),
    {
        let n = self.limbs.len();
        let prod = mul_bytes(&self.limbs, &rhs.limbs);
        let lo = sub_bytes_range(&prod, 0, n);
        let hi = sub_bytes_range(&prod, n, 2 * n);
        proof {
            lemma_val_split(prod@, n as nat);
            assert(lo@ =~= prod@.take(n as int));
            assert(hi@ =~= prod@.skip(n as int));
            let p = pow256(n as nat);
            let h = seq_val(hi@);
            assert(p * h == h * p) by (nonlinear_arith);
        }
        (CompositeWord { limbs: lo }, CompositeWord { limbs: hi })
    }

    /// The low half of the product: `(self * rhs) mod 2^(8 * width)`.
    pub fn wrapping_mul(&self, rhs: &Self) -> (r: Self)
        requires
            self.wid() == rhs.wid(),
            self.wid() <= usize::MAX / 2,
        ensures
            r.wid() == self.wid(),
            r.val() == (self.val() * rhs.val()) % self.radix(),
    {
        let (lo, hi) = self.wide_mul(rhs);
        proof {
            lemma_val_bound(lo@);
            lemma_pow256_pos(self.wid());
            let p = self.radix() as int;
            vstd::arithmetic::div_mod::lemma_mod_multiples_vanish(hi.val() as int, lo.val() as int, p);
            vstd::arithmetic::mul::lemma_mul_is_commutative(hi.val() as int, p);
            vstd::arithmetic::div_mod::lemma_small_mod(lo.val(), p as nat);
        }
        lo
    }

    /// `(self + top * 2^(8 * width)) / 2`: a right shift by one bit that brings `top` in at the
    /// most significant bit.
    pub fn shr1_in(&self, top: bool) -> (r: Self)
        requires
            self.wid() >= 1,
        ensures
            r.wid() == self.wid(),
            r.val() == (self.val() + (if top { self.radix() } else { 0 })) / 2,
    {
        let n = self.limbs.len();
        let topb: u8 = if top { 1 } else { 0 };
        let mut out: Vec<u8> = Vec::new();
        let mut i: usize = 0;
        proof {
            assert(seq_val(self@.take(0)) == 0);
            assert(seq_val(out@) == 0);
            assert(pow256(0) == 1);
            assert((self@[0] % 2) * pow256(0) == self@[0] % 2);
        }
        while i < n
            invariant
                n == self@.len(),
                n >= 1,
                i <= n,
                out@.len() == i,
                topb <= 1,
                2 * seq_val(out@) + self@[0] % 2 == seq_val(self@.take(i as int)) + (if i < n {
                    self@[i as int] % 2
                } else {
                    topb
                }) * pow256(i as nat),
            decreases n - i,
        {
            let next: u8 = if i + 1 < n { self.limbs[i + 1] % 2 } else { topb };
            let ai = self.limbs[i];
            let ri: u8 = ai / 2 + 128 * next;
            proof {
                lemma_val_push(out@, ri);
                lemma_take_push(self@, i as int);
                lemma_val_push(self@.take(i as int), ai);
                let p = pow256(i as nat);
                let o = seq_val(out@) as int;
                let va = seq_val(self@.take(i as int)) as int;
                let bi = (ai % 2) as int;
                assert(2 * (o + ri * p) + self@[0] % 2 == va + ai * p + next * (256 * p))
                    by (nonlinear_arith)
                    requires
                        2 * o + self@[0] % 2 == va + bi * p,
                        2 * ri == ai - bi + 256 * next,
                ;
                assert(pow256((i + 1) as nat) == 256 * pow256(i as nat));
            }
            out.push(ri);
            i += 1;
        }
        proof {
            assert(self@.take(n as int) =~= self@);
            lemma_val_parity(self@);
        }
        CompositeWord { limbs: out }
    }

    /// `self / 2`.
    pub fn shr1(&self) -> (r: Self)
        requires
            self.wid() >= 1,
        ensures
            r.wid() == self.wid(),
            r.val() == self.val() / 2,
    {
        self.shr1_in(false)
    }
}

} // verus!
