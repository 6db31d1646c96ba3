//! Big-endian bit fields, packed into bytes through `bitstream_io`.

use bitstream_io::{BigEndian, BitWrite, BitWriter};
use vstd::arithmetic::div_mod::{lemma_fundamental_div_mod, lemma_fundamental_div_mod_converse};
use vstd::arithmetic::power2::{lemma_pow2_pos, lemma_pow2_unfold, pow2};
use vstd::prelude::*;

verus! {

/// The `n` low bits of `v`, most significant first.
pub open spec fn field_bits(v: nat, n: nat) -> Seq<bool>
    decreases n,
{
    if n == 0 {
        Seq::empty()
    } else {
        field_bits(v / 2, (n - 1) as nat).push(v % 2 == 1)
    }
}

/// The number that `b` writes in binary, most significant bit first.
pub open spec fn bits_value(b: Seq<bool>) -> nat
    decreases b.len(),
{
    if b.len() == 0 {
        0
    } else {
        bits_value(b.drop_last()) * 2 + if b.last() {
            1nat
        } else {
            0nat
        }
    }
}

/// `b` cut into bytes, eight bits each, most significant bit first; a
/// trailing group of fewer than eight bits is left out.
pub open spec fn pack_bytes(b: Seq<bool>) -> Seq<u8>
    decreases b.len(),
{
    if b.len() < 8 {
        Seq::empty()
    } else {
        seq![bits_value(b.take(8)) as u8] + pack_bytes(b.skip(8))
    }
}

/// Eleven bits for each index of `s`, in order.
pub open spec fn word_fields(s: Seq<u16>) -> Seq<bool>
    decreases s.len(),
{
    if s.len() == 0 {
        Seq::empty()
    } else {
        word_fields(s.drop_last()) + field_bits(s.last() as nat, 11)
    }
}

pub proof fn lemma_field_bits_len(v: nat, n: nat)
    ensures
        field_bits(v, n).len() == n,
    decreases n,
{
    if n > 0 {
        lemma_field_bits_len(v / 2, (n - 1) as nat);
    }
}

pub proof fn lemma_word_fields_len(s: Seq<u16>)
    ensures
        word_fields(s).len() == 11 * s.len(),
    decreases s.len(),
{
    if s.len() > 0 {
        lemma_word_fields_len(s.drop_last());
        lemma_field_bits_len(s.last() as nat, 11);
    }
}

proof fn lemma_div_mod_step(v: nat, n: nat)
    requires
        n > 0,
    ensures
        v / pow2(n) == (v / 2) / pow2((n - 1) as nat),
        v % pow2(n) == 2 * ((v / 2) % pow2((n - 1) as nat)) + v % 2,
        (v % pow2(n)) / 2 == (v / 2) % pow2((n - 1) as nat),
        (v % pow2(n)) % 2 == v % 2,
{
    let pp = pow2((n - 1) as nat) as int;
    lemma_pow2_unfold(n);
    lemma_pow2_pos((n - 1) as nat);
    let x = v as int;
    let q = x / 2;
    let r = x % 2;
    let s = q / pp;
    let t = q % pp;
    lemma_fundamental_div_mod(q, pp);
    assert(x == (2 * pp) * s + (2 * t + r) && 2 * t + r < 2 * pp) by (nonlinear_arith)
        requires
            x == 2 * q + r,
            q == pp * s + t,
            0 <= t < pp,
            0 <= r < 2,
    ;
    lemma_fundamental_div_mod_converse(x, 2 * pp, s, 2 * t + r);
    lemma_fundamental_div_mod_converse(2 * t + r, 2, t, r);
}

/// Splitting a field: the `a + b` low bits of `v` are its `a` bits above
/// the low `b`, then its `b` low bits.
pub proof fn lemma_field_bits_split(v: nat, a: nat, b: nat)
    ensures
        field_bits(v, a + b) == field_bits(v / pow2(b), a) + field_bits(v % pow2(b), b),
    decreases b,
{
    if b == 0 {
        assert(pow2(0) == 1) by {
            vstd::arithmetic::power2::lemma2_to64();
        }
        assert(field_bits(v, a) + field_bits(0, 0) =~= field_bits(v, a));
    } else {
        lemma_div_mod_step(v, b);
        lemma_field_bits_split(v / 2, a, (b - 1) as nat);
        assert((a + b - 1) as nat == a + (b - 1) as nat);
        let hi = field_bits(v / pow2(b), a);
        let lo = field_bits((v / 2) % pow2((b - 1) as nat), (b - 1) as nat);
        assert(field_bits(v, a + b) == (hi + lo).push(v % 2 == 1));
        assert(field_bits(v % pow2(b), b) == lo.push(v % 2 == 1));
        assert((hi + lo).push(v % 2 == 1) =~= hi + lo.push(v % 2 == 1));
    }
}

/// A field read back as a number gives the low bits of what was written.
pub proof fn lemma_field_bits_value(v: nat, n: nat)
    ensures
        bits_value(field_bits(v, n)) == v % pow2(n),
    decreases n,
{
    if n == 0 {
        assert(pow2(0) == 1) by {
            vstd::arithmetic::power2::lemma2_to64();
        }
    } else {
        lemma_div_mod_step(v, n);
        lemma_field_bits_value(v / 2, (n - 1) as nat);
        let f = field_bits(v, n);
        assert(f.drop_last() =~= field_bits(v / 2, (n - 1) as nat));
    }
}

/// Appending one index appends its eleven bits.
pub proof fn lemma_word_fields_push(s: Seq<u16>, w: u16)
    ensures
        word_fields(s.push(w)) == word_fields(s) + field_bits(w as nat, 11),
{
    assert(s.push(w).drop_last() =~= s);
}

/// A big-endian `bitstream_io` writer over a byte vector, kept opaque.
#[verifier::external_body]
pub struct FieldWriter {
    inner: BitWriter<Vec<u8>, BigEndian>,
}

/// Every bit handed to the writer so far, in
/// order, whether or not it has reached the vector yet.
pub uninterp spec fn written_bits(w: FieldWriter) -> Seq<bool>;

/// Relies on `BitWriter::endian`: a writer over an empty vector holds no bits.
#[verifier::external_body]
pub(crate) fn new_writer() -> (w: FieldWriter)
    ensures
        written_bits(w) == Seq::<bool>::empty(),
{
    FieldWriter { inner: BitWriter::endian(Vec::new(), BigEndian) }
}

/// Relies on `BitWrite::write` for a big-endian `BitWriter` over a byte
/// vector: it fails only on more than 16 bits or on a value that does not fit
/// them, and a vector takes every byte, so it succeeds; the `bits` low bits
/// of `value` then follow what was written, most significant first.
#[verifier::external_body]
pub(crate) fn write_field(w: &mut FieldWriter, bits: u32, value: u16) -> (ok:
    bool)
    requires
        bits <= 16,
        value < pow2(bits as nat),
    ensures
        ok,
        written_bits(*final(w)) == written_bits(*old(w)) + field_bits(value as nat, bits as nat),
{
    w.inner.write(bits, value).is_ok()
}

/// Relies on `BitWriter::into_writer`: when the writer is byte-aligned, the
/// vector holds every bit written, eight to a byte, most significant first.
#[verifier::external_body]
pub(crate) fn into_bytes(w: FieldWriter) -> (r: Vec<u8>)
    requires
        written_bits(w).len() % 8 == 0,
    ensures
        r@ == pack_bytes(written_bits(w)),
{
    w.inner.into_writer()
}

} // verus!
