//! Bits of keys: big-endian bit fields packed into bytes, written and read
//! through the bit writer and reader of `bitstream-io`.
use bitstream_io::{BigEndian, BitRead, BitReader, BitWrite, BitWriter};
use vstd::arithmetic::power2::pow2;
use vstd::prelude::*;

verus! {

/// A big-endian bit writer of `bitstream-io` over a vector of bytes.
#[verifier::external_body]
pub struct KeyBitWriter {
    inner: BitWriter<Vec<u8>, BigEndian>,
}

/// A big-endian bit reader of `bitstream-io` over a slice of bytes.
#[verifier::external_body]
pub struct KeyBitReader<'a> {
    inner: BitReader<&'a [u8], BigEndian>,
}

/// The `width` lowest bits of `v`, most significant first.
pub open spec fn value_bits(width: nat, v: nat) -> Seq<bool>
    decreases width,
{
    if width == 0 {
        Seq::empty()
    } else {
        value_bits((width - 1) as nat, v / 2).push(v % 2 == 1)
    }
}

/// Value of bits, the most significant first.
pub open spec fn bits_value(bits: Seq<bool>) -> nat
    decreases bits.len(),
{
    if bits.len() == 0 {
        0
    } else {
        2 * bits_value(bits.drop_last()) + if bits.last() {
            1nat
        } else {
            0nat
        }
    }
}

/// Bits of bytes, one byte after the other, each most significant bit first.
pub open spec fn bytes_bits(bytes: Seq<u8>) -> Seq<bool>
    decreases bytes.len(),
{
    if bytes.len() == 0 {
        Seq::empty()
    } else {
        bytes_bits(bytes.drop_last()) + value_bits(8, bytes.last() as nat)
    }
}

/// Bits padded with zero bits up to a whole amount of bytes.
pub open spec fn padded_bits(bits: Seq<bool>) -> Seq<bool> {
    bits + Seq::new(((8 - bits.len() % 8) % 8) as nat, |_i: int| false)
}

/// Bytes made of whole groups of eight bits (the bits after the last whole
/// group are left out).
pub open spec fn pack_bits(bits: Seq<bool>) -> Seq<u8> {
    Seq::new(bits.len() / 8, |i: int| bits_value(bits.subrange(8 * i, 8 * i + 8)) as u8)
}

/// Bits written so far through a bit writer over a vector of bytes: those
/// already in the vector and those still waiting for a whole byte.
pub uninterp spec fn written_bits(w: KeyBitWriter) -> Seq<bool>;

/// Bits a bit reader over a slice of bytes has not read yet.
pub uninterp spec fn unread_bits(r: KeyBitReader) -> Seq<bool>;

/// `BitWriter::endian` over `bytes`, big-endian: the writer appends to the
/// vector, which holds the bits written before.
#[verifier::external_body]
pub(crate) fn new_bit_writer(bytes: Vec<u8>) -> (w: KeyBitWriter)
    ensures
        written_bits(w) == bytes_bits(bytes@),
{
    KeyBitWriter { inner: BitWriter::endian(bytes, BigEndian) }
}

/// `BitWrite::write::<u64>` on a big-endian writer over a vector: fails,
/// writing nothing, when `bits` exceeds 64 or `value` does not fit in `bits`
/// bits; otherwise appends the `bits` bits of `value` (appending to a vector
/// does not fail).
#[verifier::external_body]
pub(crate) fn write_bits(w: &mut KeyBitWriter, bits: u32, value: u64) -> (ok: bool)
    ensures
        ok == (bits <= 64 && (bits < 64 ==> value < pow2(bits as nat))),
        ok ==> written_bits(*final(w)) == written_bits(*old(w)) + value_bits(bits as nat, value as nat),
        !ok ==> written_bits(*final(w)) == written_bits(*old(w)),
{
    w.inner.write(bits, value).is_ok()
}

/// `BitWrite::byte_align` on a big-endian writer over a vector: pads with
/// zero bits up to a whole byte (appending to a vector does not fail).
#[verifier::external_body]
pub(crate) fn align_bits(w: &mut KeyBitWriter) -> (ok: bool)
    ensures
        ok,
        written_bits(*final(w)) == padded_bits(written_bits(*old(w))),
{
    w.inner.byte_align().is_ok()
}

/// `BitWriter::into_writer`: gives back the vector, which holds the bits
/// written when they make whole bytes.
#[verifier::external_body]
pub(crate) fn into_bytes(w: KeyBitWriter) -> (bytes: Vec<u8>)
    ensures
        written_bits(w).len() % 8 == 0 ==> bytes_bits(bytes@) == written_bits(w),
{
    w.inner.into_writer()
}

/// `BitReader::endian` over a slice of bytes, big-endian.
#[verifier::external_body]
pub(crate) fn new_bit_reader<'a>(bytes: &'a [u8]) -> (r: KeyBitReader<'a>)
    ensures
        unread_bits(r) == bytes_bits(bytes@),
{
    KeyBitReader { inner: BitReader::endian(bytes, BigEndian) }
}

/// `BitRead::read::<u64>` on a big-endian reader over a slice: fails,
/// reading nothing, when `bits` exceeds 64; fails when fewer bits are left
/// (a slice reports its end as the only failure of its reads); otherwise
/// gives the value of the next `bits` bits and moves past them.
#[verifier::external_body]
pub(crate) fn read_bits<'a>(r: &mut KeyBitReader<'a>, bits: u32) -> (v: Option<u64>)
    ensures
        bits > 64 ==> v is None && unread_bits(*final(r)) == unread_bits(*old(r)),
        bits <= 64 && bits <= unread_bits(*old(r)).len() ==> {
            &&& v == Some(bits_value(unread_bits(*old(r)).take(bits as int)) as u64)
            &&& unread_bits(*final(r)) == unread_bits(*old(r)).skip(bits as int)
        },
        bits <= 64 && bits > unread_bits(*old(r)).len() ==> v is None,
{
    r.inner.read::<u64>(bits).ok()
}

/// `value_bits` gives `width` bits.
pub proof fn lemma_value_bits_len(width: nat, v: nat)
    ensures
        value_bits(width, v).len() == width,
    decreases width,
{
    if width > 0 {
        lemma_value_bits_len((width - 1) as nat, v / 2);
    }
}

/// Bits hold values below two to the power of their amount.
pub proof fn lemma_bits_value_bound(bits: Seq<bool>)
    ensures
        bits_value(bits) < pow2(bits.len()),
    decreases bits.len(),
{
    if bits.len() > 0 {
        lemma_bits_value_bound(bits.drop_last());
        vstd::arithmetic::power2::lemma_pow2_unfold(bits.len());
    } else {
        vstd::arithmetic::power2::lemma2_to64();
    }
}

/// Reading back the bits of a value that fits gives the value.
pub proof fn lemma_value_bits_value(width: nat, v: nat)
    requires
        v < pow2(width),
    ensures
        bits_value(value_bits(width, v)) == v,
    decreases width,
{
    if width == 0 {
        vstd::arithmetic::power2::lemma2_to64();
    } else {
        vstd::arithmetic::power2::lemma_pow2_unfold(width);
        lemma_value_bits_value((width - 1) as nat, v / 2);
        let b = value_bits(width, v);
        assert(b.drop_last() =~= value_bits((width - 1) as nat, v / 2));
    }
}

/// `bytes_bits` gives eight bits per byte.
pub proof fn lemma_bytes_bits_len(bytes: Seq<u8>)
    ensures
        bytes_bits(bytes).len() == 8 * bytes.len(),
    decreases bytes.len(),
{
    if bytes.len() > 0 {
        lemma_bytes_bits_len(bytes.drop_last());
        lemma_value_bits_len(8, bytes.last() as nat);
    }
}

/// The bits of joined bytes are the joined bits.
pub proof fn lemma_bytes_bits_add(a: Seq<u8>, b: Seq<u8>)
    ensures
        bytes_bits(a + b) == bytes_bits(a) + bytes_bits(b),
    decreases b.len(),
{
    if b.len() == 0 {
        assert(a + b =~= a);
        assert(bytes_bits(b) =~= Seq::<bool>::empty());
        assert(bytes_bits(a) + bytes_bits(b) =~= bytes_bits(a));
    } else {
        lemma_bytes_bits_add(a, b.drop_last());
        assert((a + b).drop_last() =~= a + b.drop_last());
        assert((a + b).last() == b.last());
        assert(bytes_bits(a + b) =~= bytes_bits(a) + bytes_bits(b));
    }
}

/// Byte `i` is held by bits `8 * i` up to `8 * i + 8`.
pub proof fn lemma_bytes_bits_byte(bytes: Seq<u8>, i: int)
    requires
        0 <= i < bytes.len(),
    ensures
        8 * i + 8 <= bytes_bits(bytes).len(),
        bytes_bits(bytes).subrange(8 * i, 8 * i + 8) == value_bits(8, bytes[i] as nat),
        bits_value(bytes_bits(bytes).subrange(8 * i, 8 * i + 8)) == bytes[i],
    decreases bytes.len(),
{
    lemma_bytes_bits_len(bytes);
    let init = bytes.drop_last();
    lemma_bytes_bits_len(init);
    lemma_value_bits_len(8, bytes.last() as nat);
    if i < bytes.len() - 1 {
        lemma_bytes_bits_byte(init, i);
        assert(bytes_bits(bytes).subrange(8 * i, 8 * i + 8) =~= bytes_bits(init).subrange(8 * i, 8 * i + 8));
        assert(init[i] == bytes[i]);
    } else {
        assert(bytes_bits(bytes).subrange(8 * i, 8 * i + 8) =~= value_bits(8, bytes.last() as nat));
    }
    vstd::arithmetic::power2::lemma2_to64();
    lemma_value_bits_value(8, bytes[i] as nat);
}

/// Bytes are told apart by their bits.
pub proof fn lemma_bytes_bits_injective(a: Seq<u8>, b: Seq<u8>)
    requires
        bytes_bits(a) == bytes_bits(b),
    ensures
        a == b,
{
    lemma_bytes_bits_len(a);
    lemma_bytes_bits_len(b);
    assert forall|i: int| 0 <= i < a.len() implies a[i] == b[i] by {
        lemma_bytes_bits_byte(a, i);
        lemma_bytes_bits_byte(b, i);
    }
    assert(a =~= b);
}

/// Packing bits that make whole bytes gives bytes holding those bits.
pub proof fn lemma_pack_bits(bits: Seq<bool>)
    requires
        bits.len() % 8 == 0,
    ensures
        bytes_bits(pack_bits(bits)) == bits,
        pack_bits(bits).len() == bits.len() / 8,
    decreases bits.len(),
{
    let p = pack_bits(bits);
    if bits.len() == 0 {
        assert(bytes_bits(p) =~= bits);
    } else {
        let init = bits.subrange(0, bits.len() - 8);
        lemma_pack_bits(init);
        assert(init.len() / 8 == bits.len() / 8 - 1);
        assert forall|i: int| 0 <= i < init.len() / 8 implies #[trigger] pack_bits(init)[i] == p.drop_last()[i] by {
            assert(init.subrange(8 * i, 8 * i + 8) =~= bits.subrange(8 * i, 8 * i + 8));
        }
        assert(pack_bits(init) =~= p.drop_last());
        let last = bits.subrange(bits.len() - 8, bits.len() as int);
        lemma_bits_value_bound(last);
        vstd::arithmetic::power2::lemma2_to64();
        let byte = p.last();
        assert(byte as nat == bits_value(last));
        lemma_value_bits_len(8, byte as nat);
        assert(value_bits(8, byte as nat) =~= last) by {
            lemma_value_bits_value(8, byte as nat);
            lemma_bits_eq_of_value(last, value_bits(8, byte as nat));
        }
        assert(bytes_bits(p) =~= bits);
    }
}

/// Bits of one length are told apart by their values.
pub proof fn lemma_bits_eq_of_value(a: Seq<bool>, b: Seq<bool>)
    requires
        a.len() == b.len(),
        bits_value(a) == bits_value(b),
    ensures
        a == b,
    decreases a.len(),
{
    if a.len() > 0 {
        let x = bits_value(a.drop_last());
        let y = bits_value(b.drop_last());
        assert(2 * x + (if a.last() { 1int } else { 0int }) == 2 * y + (if b.last() { 1int } else { 0int }));
        assert(a.last() == b.last());
        assert(x == y);
        lemma_bits_eq_of_value(a.drop_last(), b.drop_last());
        assert(a =~= b.drop_last().push(b.last()));
        assert(b =~= b.drop_last().push(b.last()));
    } else {
        assert(a =~= b);
    }
}

/// Padding keeps the bits and reaches a whole amount of bytes.
pub proof fn lemma_padded_bits(bits: Seq<bool>)
    ensures
        padded_bits(bits).len() % 8 == 0,
        padded_bits(bits).len() == 8 * ((bits.len() + 7) / 8),
        padded_bits(bits).take(bits.len() as int) == bits,
{
    assert(padded_bits(bits).take(bits.len() as int) =~= bits);
}

/// Appended bits: the first ones are read back from the start.
pub proof fn lemma_bits_value_prefix(a: Seq<bool>, b: Seq<bool>)
    ensures
        (a + b).take(a.len() as int) == a,
        (a + b).subrange(a.len() as int, (a.len() + b.len()) as int) == b,
{
    assert((a + b).take(a.len() as int) =~= a);
    assert((a + b).subrange(a.len() as int, (a.len() + b.len()) as int) =~= b);
}

} // verus!
