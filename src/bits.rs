//! Bit sequences, fixed-width integers as bits, and packing bits into bytes.

use bitstream_io::BigEndian;
use bitstream_io::BitRead;
use bitstream_io::BitReader;
use bitstream_io::BitWrite;
use bitstream_io::BitWriter;
use std::io::Cursor;
use vstd::arithmetic::power2::pow2;
use vstd::prelude::*;

verus! {

/// The `width` low bits of `v`, most significant first.
pub open spec fn uint_bits(v: nat, width: nat) -> Seq<bool>
    decreases width,
{
    if width == 0 {
        Seq::empty()
    } else {
        uint_bits(v / 2, (width - 1) as nat).push(v % 2 == 1)
    }
}

/// The number whose bits, most significant first, are `s`.
pub open spec fn bits_value(s: Seq<bool>) -> nat
    decreases s.len(),
{
    if s.len() == 0 {
        0
    } else {
        2 * bits_value(s.drop_last()) + if s.last() { 1nat } else { 0nat }
    }
}

/// The bits of `bytes`, eight per byte, most significant bit first.
pub open spec fn unpack(bytes: Seq<u8>) -> Seq<bool>
    decreases bytes.len(),
{
    if bytes.len() == 0 {
        Seq::empty()
    } else {
        unpack(bytes.drop_last()) + uint_bits(bytes.last() as nat, 8)
    }
}

/// `s` followed by the zero bits that complete its last byte.
pub open spec fn padded(s: Seq<bool>) -> Seq<bool> {
    s + Seq::new(((8 - s.len() % 8) % 8) as nat, |i: int| false)
}

pub proof fn lemma_uint_bits_len(v: nat, width: nat)
    ensures
        uint_bits(v, width).len() == width,
    decreases width,
{
    if width > 0 {
        lemma_uint_bits_len(v / 2, (width - 1) as nat);
    }
}

/// Reading back the bits of a number that fits the width gives the number.
pub proof fn lemma_uint_bits_value(v: nat, width: nat)
    requires
        v < pow2(width),
    ensures
        bits_value(uint_bits(v, width)) == v,
    decreases width,
{
    if width > 0 {
        let w1 = (width - 1) as nat;
        vstd::arithmetic::power2::lemma_pow2_unfold(width);
        lemma_uint_bits_value(v / 2, w1);
        assert(uint_bits(v, width).drop_last() == uint_bits(v / 2, w1));
    } else {
        vstd::arithmetic::power2::lemma2_to64();
    }
}

pub proof fn lemma_bits_value_bound(s: Seq<bool>)
    ensures
        bits_value(s) < pow2(s.len()),
    decreases s.len(),
{
    if s.len() == 0 {
        vstd::arithmetic::power2::lemma2_to64();
    } else {
        lemma_bits_value_bound(s.drop_last());
        vstd::arithmetic::power2::lemma_pow2_unfold(s.len());
    }
}

/// A big-endian `BitWriter` over a growing `Vec`: bits go in one at a time
/// and come out packed into bytes, most significant bit first.
#[verifier::external_body]
pub struct BitSink {
    inner: BitWriter<Vec<u8>, BigEndian>,
}

/// A big-endian `BitReader` over a `Cursor` of bytes: hands out their bits
/// one at a time, most significant bit of each byte first.
#[verifier::external_body]
pub struct BitSource {
    inner: BitReader<Cursor<Vec<u8>>, BigEndian>,
}

/// Every bit handed to the writer so far, in order, including those still
/// queued in its partial byte.
pub uninterp spec fn written_bits(w: BitSink) -> Seq<bool>;

/// The bits that the reader has not yet handed out, in order.
pub uninterp spec fn unread_bits(r: BitSource) -> Seq<bool>;

/// Relies on `BitWriter::endian`: a writer over an empty `Vec` holds no bits.
#[verifier::external_body]
fn new_writer() -> (w: BitSink)
    ensures
        written_bits(w) == Seq::<bool>::empty(),
{
    BitSink { inner: BitWriter::endian(Vec::new(), BigEndian) }
}

/// Relies on `BitWrite::write_bit` of `BitWriter`: the bit joins the queue, and
/// each full byte goes to the `Vec`, whose `Write` impl never fails.
#[verifier::external_body]
fn write_bit(w: &mut BitSink, bit: bool)
    ensures
        written_bits(*final(w)) == written_bits(*old(w)).push(bit),
{
    let _ = w.inner.write_bit(bit);
}

/// Relies on `BitWrite::byte_align`: it writes zero bits until a byte is complete.
#[verifier::external_body]
fn byte_align(w: &mut BitSink)
    ensures
        written_bits(*final(w)) == padded(written_bits(*old(w))),
{
    let _ = w.inner.byte_align();
}

/// Relies on `BitWriter::into_writer`: on a byte-aligned big-endian writer the
/// `Vec` holds every bit written, most significant bit of each byte first.
#[verifier::external_body]
fn into_bytes(w: BitSink) -> (r: Vec<u8>)
    requires
        written_bits(w).len() % 8 == 0,
    ensures
        unpack(r@) == written_bits(w),
{
    w.inner.into_writer()
}

/// Relies on `BitReader::endian` over a `Cursor`: the reader will hand out the
/// bits of the bytes, most significant bit of each byte first.
#[verifier::external_body]
fn new_reader(bytes: &Vec<u8>) -> (r: BitSource)
    ensures
        unread_bits(r) == unpack(bytes@),
{
    BitSource { inner: BitReader::endian(Cursor::new(bytes.clone()), BigEndian) }
}

/// Relies on `BitRead::read_bit` of `BitReader`: the next bit, or an error once
/// the cursor has no byte left.
#[verifier::external_body]
fn read_bit(r: &mut BitSource) -> (b: Option<bool>)
    ensures
        unread_bits(*old(r)).len() > 0 ==> b == Some(unread_bits(*old(r))[0]) && unread_bits(
            *final(r),
        ) == unread_bits(*old(r)).drop_first(),
        unread_bits(*old(r)).len() == 0 ==> b is None,
{
    r.inner.read_bit().ok()
}

/// Packs `bits` into bytes, most significant bit first, the last byte filled
/// with zero bits.
pub fn pack_bits(bits: &Vec<bool>) -> (r: Vec<u8>)
    ensures
        unpack(r@) == padded(bits@),
{
    let mut w = new_writer();
    let mut i: usize = 0;
    while i < bits.len()
        invariant
            i <= bits.len(),
            written_bits(w) == bits@.subrange(0, i as int),
        decreases bits.len() - i,
    {
        write_bit(&mut w, bits[i]);
        assert(bits@.subrange(0, i + 1) == bits@.subrange(0, i as int).push(bits@[i as int]));
        i = i + 1;
    }
    assert(bits@.subrange(0, i as int) == bits@);
    byte_align(&mut w);
    assert(padded(bits@).len() % 8 == 0) by {
        let n = bits@.len();
        assert((n + (8 - n % 8) % 8) % 8 == 0) by (nonlinear_arith);
    }
    into_bytes(w)
}

/// The bits of `bytes`, most significant bit of each byte first.
pub fn unpack_bytes(bytes: &Vec<u8>) -> (r: Vec<bool>)
    ensures
        r@ == unpack(bytes@),
{
    let ghost all = unpack(bytes@);
    let mut rd = new_reader(bytes);
    let mut out: Vec<bool> = Vec::new();
    loop
        invariant
            out@ + unread_bits(rd) == all,
            all == unpack(bytes@),
        decreases unread_bits(rd).len(),
    {
        let ghost before = unread_bits(rd);
        match read_bit(&mut rd) {
            Some(b) => {
                out.push(b);
                assert(out@ + unread_bits(rd) == all) by {
                    assert(before == seq![b] + before.drop_first());
                    assert(out@ + unread_bits(rd) == (out@.drop_last() + seq![b]) + before.drop_first());
                }
            },
            None => {
                assert(out@ == all);
                return out;
            },
        }
    }
}

} // verus!
