//! Records of a key: each chunk is stored as a header of bit fields
//! (whether it is literal, its size and, for a reference, its index), padded
//! to whole bytes and followed, for a literal, by its elements.
use vstd::arithmetic::power2::pow2;
use vstd::prelude::*;

use crate::chunks::storage::bits::{
    align_bits, bits_value, bytes_bits, into_bytes, lemma_bits_value_bound, lemma_bits_value_prefix,
    lemma_bytes_bits_add, lemma_bytes_bits_injective, lemma_bytes_bits_len, lemma_pack_bits,
    lemma_padded_bits, new_bit_reader, new_bit_writer, pack_bits,
    padded_bits, read_bits, unread_bits, value_bits, write_bits, written_bits, KeyBitReader,
    KeyBitWriter,
};
use crate::chunks::storage::ChunkInfoWidths;
use crate::chunks::{ChunkIndex, ChunkInfo, ChunkSize};
use crate::error::{ErrorKind, StreamError, StreamResult};
use crate::streams::spans::parse_elems;
use crate::streams::traits::{
    lemma_overwritten_concat, lemma_overwritten_one, lemma_written_at_concat, overwritten,
    written_at, ConstBinParsible, InputBinaryStream, InputElemStream, OutputBinaryStream,
    OutputElemStream, Stream,
};

verus! {

/// Whole bytes needed for `n` bits.
pub open spec fn bytes_for(n: int) -> int {
    (n + 7) / 8
}

/// Bytes of a record's header up to its `is_literal` field.
pub open spec fn literal_header_len(w: ChunkInfoWidths) -> int {
    bytes_for(w.is_literal as int)
}

/// Bytes of a record's header up to its `size` field (a literal's whole header).
pub open spec fn size_header_len(w: ChunkInfoWidths) -> int {
    bytes_for(w.is_literal + w.size)
}

/// Bytes of a reference's whole header.
pub open spec fn reference_header_len(w: ChunkInfoWidths) -> int {
    bytes_for(w.is_literal + w.size + w.index)
}

/// Value of the `width` bits of `bytes` from bit `from` on.
pub open spec fn bit_field(bytes: Seq<u8>, from: int, width: int) -> nat {
    bits_value(bytes_bits(bytes).subrange(from, from + width))
}

/// The record at the start of `rec` is a literal.
pub open spec fn record_is_literal(w: ChunkInfoWidths, rec: Seq<u8>) -> bool {
    bit_field(rec, 0, w.is_literal as int) != 0
}

/// Size stored in the record at the start of `rec`.
pub open spec fn record_size(w: ChunkInfoWidths, rec: Seq<u8>) -> ChunkSize {
    (bit_field(rec, w.is_literal as int, w.size as int) as u64) as ChunkSize
}

/// Index stored in the reference record at the start of `rec`.
pub open spec fn record_index(w: ChunkInfoWidths, rec: Seq<u8>) -> ChunkIndex {
    (bit_field(rec, w.is_literal + w.size, w.index as int) as u64) as ChunkIndex
}

/// Amount of elements of a literal of the given size (none for a negative size).
pub open spec fn literal_count(size: ChunkSize) -> int {
    if size < 0 {
        0
    } else {
        size as int
    }
}

/// What the bytes at the start of a key's remainder hold.
#[derive(Clone, Copy, Debug, PartialEq, Eq, Structural)]
pub enum RecordKind {
    /// No record: the key ends before an `is_literal` field.
    End,
    /// A field width exceeds what its field can be read into.
    BadWidths,
    /// The key ends within the record.
    Truncated,
    /// A literal record.
    Literal,
    /// A reference record.
    Reference,
}

/// What the bytes at the start of `rec` hold, elements taking `esz` bytes each.
pub open spec fn record_kind(w: ChunkInfoWidths, rec: Seq<u8>, esz: int) -> RecordKind {
    if w.is_literal > 8 {
        RecordKind::BadWidths
    } else if rec.len() < literal_header_len(w) {
        RecordKind::End
    } else if w.size > 64 {
        RecordKind::BadWidths
    } else if rec.len() < size_header_len(w) {
        RecordKind::Truncated
    } else if record_is_literal(w, rec) {
        if rec.len() < size_header_len(w) + literal_count(record_size(w, rec)) * esz {
            RecordKind::Truncated
        } else {
            RecordKind::Literal
        }
    } else if w.index > 64 {
        RecordKind::BadWidths
    } else if rec.len() < reference_header_len(w) {
        RecordKind::Truncated
    } else {
        RecordKind::Reference
    }
}

/// Amount of bytes taken by the record at the start of `rec`.
pub open spec fn record_len(w: ChunkInfoWidths, rec: Seq<u8>, esz: int) -> int {
    match record_kind(w, rec, esz) {
        RecordKind::Literal => size_header_len(w) + literal_count(record_size(w, rec)) * esz,
        RecordKind::Reference => reference_header_len(w),
        _ => 0,
    }
}

/// Elements of the literal record at the start of `rec`.
pub open spec fn record_elems<E: ConstBinParsible>(w: ChunkInfoWidths, rec: Seq<u8>) -> Seq<E> {
    parse_elems::<E>(rec, size_header_len(w), literal_count(record_size(w, rec)))
}

/// Bytes of a stream from `pos` on (none beyond its end).
pub open spec fn rest_of(content: Seq<u8>, pos: int) -> Seq<u8> {
    if 0 <= pos <= content.len() {
        content.subrange(pos, content.len() as int)
    } else {
        Seq::empty()
    }
}

/// `v` fits in a field of `width` bits.
pub open spec fn fits(width: int, v: int) -> bool {
    &&& 0 <= v
    &&& width <= 64
    &&& width < 64 ==> v < pow2(width as nat)
}

/// Bits of a header: whether the chunk is literal, then its size.
pub open spec fn header_bits(w: ChunkInfoWidths, is_literal: bool, size: int) -> Seq<bool> {
    value_bits(w.is_literal as nat, if is_literal { 1 } else { 0 }) + value_bits(w.size as nat, size as nat)
}

/// The header can be written: `is_literal` is written as a field of at most
/// 32 bits, and both values fit in their fields.
pub open spec fn header_fits(w: ChunkInfoWidths, is_literal: bool, size: int) -> bool {
    &&& w.is_literal <= 32
    &&& fits(w.is_literal as int, if is_literal { 1 } else { 0 })
    &&& fits(w.size as int, size)
}

/// Bytes of all elements, one after the other.
pub open spec fn elems_bytes<E: ConstBinParsible>(elems: Seq<E>) -> Seq<u8>
    decreases elems.len(),
{
    if elems.len() == 0 {
        Seq::empty()
    } else {
        elems_bytes(elems.drop_last()) + elems.last().spec_unparse()
    }
}

/// Bytes of a literal record of `elems`.
pub open spec fn literal_record<E: ConstBinParsible>(w: ChunkInfoWidths, elems: Seq<E>) -> Seq<u8> {
    pack_bits(padded_bits(header_bits(w, true, elems.len() as int))) + elems_bytes(elems)
}

/// Bytes of a reference record.
pub open spec fn reference_record(w: ChunkInfoWidths, index: int, size: int) -> Seq<u8> {
    pack_bits(padded_bits(header_bits(w, false, size) + value_bits(w.index as nat, index as nat)))
}

/// Bytes of a chunk's record.
pub open spec fn chunk_record<E: ConstBinParsible>(w: ChunkInfoWidths, c: ChunkInfo<E>) -> Seq<u8> {
    match c {
        ChunkInfo::Literal(elems) => literal_record(w, elems@),
        ChunkInfo::Reference { index, size } => reference_record(w, index as int, size as int),
    }
}

/// The chunk can be stored with these widths.
pub open spec fn chunk_fits<E>(w: ChunkInfoWidths, c: ChunkInfo<E>) -> bool {
    match c {
        ChunkInfo::Literal(elems) => elems@.len() <= ChunkSize::MAX && header_fits(
            w,
            true,
            elems@.len() as int,
        ),
        ChunkInfo::Reference { index, size } => header_fits(w, false, size as int) && fits(
            w.index as int,
            index as int,
        ),
    }
}

/// Elements a reference stands for in `image` (none for a size that is not positive).
pub open spec fn reference_elems<E>(image: Seq<E>, index: int, size: int) -> Seq<E> {
    if size > 0 {
        image.subrange(index, index + size)
    } else {
        Seq::empty()
    }
}

/// The elements of `image` from `index` on (none when `index` is past its end).
pub open spec fn elems_from<E>(image: Seq<E>, index: int) -> Seq<E> {
    if 0 <= index <= image.len() {
        image.skip(index)
    } else {
        Seq::empty()
    }
}

/// The reference can be extracted from `image`.
pub open spec fn reference_in(image_len: int, index: int, size: int) -> bool {
    0 <= index && (size > 0 ==> index + size <= image_len)
}

/// The bits of the first `n` bytes are the first `8 * n` bits.
proof fn lemma_bytes_bits_take(s: Seq<u8>, n: int)
    requires
        0 <= n <= s.len(),
    ensures
        bytes_bits(s.take(n)) == bytes_bits(s).take(8 * n),
        bytes_bits(s).len() == 8 * s.len(),
{
    lemma_bytes_bits_add(s.take(n), s.skip(n));
    assert(s.take(n) + s.skip(n) =~= s);
    lemma_bytes_bits_len(s.take(n));
    lemma_bytes_bits_len(s);
    lemma_bits_value_prefix(bytes_bits(s.take(n)), bytes_bits(s.skip(n)));
}

/// The bytes of elements take `esz` bytes each, element `k` at `k * esz`.
pub proof fn lemma_elems_bytes<E: ConstBinParsible>(elems: Seq<E>, k: int)
    requires
        0 <= k < elems.len(),
    ensures
        elems_bytes(elems).len() == elems.len() * E::spec_buff_size(),
        elems_bytes(elems).subrange(k * E::spec_buff_size(), (k + 1) * E::spec_buff_size())
            == elems[k].spec_unparse(),
    decreases elems.len(),
{
    let esz = E::spec_buff_size() as int;
    E::lemma_parse_unparse(elems.last());
    lemma_elems_bytes_len(elems);
    let init = elems.drop_last();
    lemma_elems_bytes_len(init);
    assert((init.len() + 1) * esz == init.len() * esz + esz) by (nonlinear_arith);
    if k < elems.len() - 1 {
        lemma_elems_bytes(init, k);
        assert((k + 1) * esz <= init.len() * esz) by (nonlinear_arith)
            requires
                k + 1 <= init.len(),
                esz > 0,
        ;
        assert(0 <= k * esz) by (nonlinear_arith)
            requires
                k >= 0,
                esz > 0,
        ;
        assert((k + 1) * esz == k * esz + esz) by (nonlinear_arith);
        assert(elems_bytes(elems).subrange(k * esz, (k + 1) * esz) =~= elems_bytes(init).subrange(
            k * esz,
            (k + 1) * esz,
        ));
        assert(init[k] == elems[k]);
    } else {
        assert(elems_bytes(elems).subrange(k * esz, (k + 1) * esz) =~= elems.last().spec_unparse());
    }
}

/// The bytes of elements take `esz` bytes each.
pub proof fn lemma_elems_bytes_len<E: ConstBinParsible>(elems: Seq<E>)
    ensures
        elems_bytes(elems).len() == elems.len() * E::spec_buff_size(),
    decreases elems.len(),
{
    if elems.len() > 0 {
        lemma_elems_bytes_len(elems.drop_last());
        E::lemma_parse_unparse(elems.last());
        let n = elems.len() as int;
        let esz = E::spec_buff_size() as int;
        assert((n - 1) * esz + esz == n * esz) by (nonlinear_arith);
    }
}

/// Elements read back from their bytes (anywhere in a run of bytes) are the elements.
pub proof fn lemma_parse_elems_bytes<E: ConstBinParsible>(bytes: Seq<u8>, off: int, elems: Seq<E>)
    requires
        0 <= off,
        off + elems_bytes(elems).len() <= bytes.len(),
        bytes.subrange(off, off + elems_bytes(elems).len()) == elems_bytes(elems),
    ensures
        parse_elems::<E>(bytes, off, elems.len() as int) == elems,
{
    let esz = E::spec_buff_size() as int;
    lemma_elems_bytes_len(elems);
    let p = parse_elems::<E>(bytes, off, elems.len() as int);
    assert forall|k: int| 0 <= k < elems.len() implies #[trigger] p[k] == elems[k] by {
        lemma_elems_bytes(elems, k);
        E::lemma_parse_unparse(elems[k]);
        assert(0 <= k * esz) by (nonlinear_arith)
            requires
                k >= 0,
                esz > 0,
        ;
        assert((k + 1) * esz <= elems.len() * esz) by (nonlinear_arith)
            requires
                k + 1 <= elems.len(),
                esz > 0,
        ;
        let eb = elems_bytes(elems);
        assert((k + 1) * esz == k * esz + esz) by (nonlinear_arith);
        assert(eb.len() == elems.len() * esz);
        assert forall|j: int| 0 <= j < esz implies #[trigger] bytes.subrange(off + k * esz, off + (k + 1) * esz)[j]
            == eb.subrange(k * esz, (k + 1) * esz)[j] by {
            assert(bytes.subrange(off, off + eb.len())[k * esz + j] == eb[k * esz + j]);
        }
        assert(bytes.subrange(off + k * esz, off + (k + 1) * esz) =~= eb.subrange(k * esz, (k + 1) * esz));
    }
    assert(p =~= elems);
}

/// Elements parsed from a stream's bytes are those parsed from its remainder.
pub proof fn lemma_parse_elems_rest<E: ConstBinParsible>(content: Seq<u8>, pos: int, off: int, count: int)
    requires
        0 <= pos <= content.len(),
        0 <= off,
        0 <= count,
        pos + off + count * E::spec_buff_size() <= content.len(),
    ensures
        parse_elems::<E>(content, pos + off, count) == parse_elems::<E>(rest_of(content, pos), off, count),
{
    let esz = E::spec_buff_size() as int;
    let rest = rest_of(content, pos);
    let a = parse_elems::<E>(content, pos + off, count);
    let b = parse_elems::<E>(rest, off, count);
    assert forall|k: int| 0 <= k < count implies #[trigger] a[k] == b[k] by {
        E::lemma_parse_unparse(arbitrary());
        assert(0 <= k * esz) by (nonlinear_arith)
            requires
                k >= 0,
                esz > 0,
        ;
        assert((k + 1) * esz <= count * esz) by (nonlinear_arith)
            requires
                k + 1 <= count,
                esz > 0,
        ;
        assert((k + 1) * esz == k * esz + esz) by (nonlinear_arith);
        assert(content.subrange(pos + off + k * esz, pos + off + (k + 1) * esz) =~= rest.subrange(
            off + k * esz,
            off + (k + 1) * esz,
        ));
    }
    assert(a =~= b);
}

/// The bits of a prefix of bytes are a prefix of their bits.
proof fn lemma_prefix_fields(rest: Seq<u8>, n: int, buf: Seq<u8>)
    requires
        0 <= n <= rest.len(),
        buf == rest.take(n),
    ensures
        bytes_bits(buf).len() == 8 * n,
        bytes_bits(rest).len() == 8 * rest.len(),
        forall|a: int, b: int|
            0 <= a <= b <= 8 * n ==> #[trigger] bytes_bits(buf).subrange(a, b) == bytes_bits(rest).subrange(a, b),
        forall|b: int| 0 <= b <= 8 * n ==> #[trigger] bytes_bits(buf).take(b) == bytes_bits(rest).subrange(0, b),
{
    lemma_bytes_bits_take(rest, n);
    lemma_bytes_bits_len(buf);
    assert forall|a: int, b: int| 0 <= a <= b <= 8 * n implies #[trigger] bytes_bits(buf).subrange(a, b)
        == bytes_bits(rest).subrange(a, b) by {
        assert(bytes_bits(buf).subrange(a, b) =~= bytes_bits(rest).subrange(a, b));
    }
    assert forall|b: int| 0 <= b <= 8 * n implies #[trigger] bytes_bits(buf).take(b) == bytes_bits(rest).subrange(
        0,
        b,
    ) by {
        assert(bytes_bits(buf).take(b) =~= bytes_bits(rest).subrange(0, b));
    }
}

/// Reads a chunk (info) from key.
///
/// * `E` - Element type.
/// * `S` - Input stream type.
///
/// * `input` - Input stream to read info from.
/// * `widths` - Expected bit width of each header field.
///
/// Returns read chunk info, or `None` if reached end of key (nothing to read).
/// Returns error if occurred: when the widths are too large for their
/// fields, when the key ends within a record, or when the stream fails.
#[verifier::rlimit(50)]
pub fn read_chunk_info<E: ConstBinParsible, S: InputBinaryStream>(input: &mut S, widths: &ChunkInfoWidths) -> (r:
    StreamResult<Option<ChunkInfo<E>>>)
    ensures
        ({
            let rest = rest_of(old(input).content(), old(input).position());
            let kind = record_kind(*widths, rest, E::spec_buff_size() as int);
            &&& r is Ok ==> final(input).content() == old(input).content()
            &&& r matches Ok(None) ==> kind == RecordKind::End
            &&& r matches Ok(Some(c)) ==> {
                &&& final(input).position() == old(input).position() + record_len(
                    *widths,
                    rest,
                    E::spec_buff_size() as int,
                )
                &&& match c {
                    ChunkInfo::Literal(elems) => kind == RecordKind::Literal && elems@ == record_elems::<E>(
                        *widths,
                        rest,
                    ),
                    ChunkInfo::Reference { index, size } => kind == RecordKind::Reference && index
                        == record_index(*widths, rest) && size == record_size(*widths, rest),
                }
            }
            &&& (kind == RecordKind::BadWidths || kind == RecordKind::Truncated) ==> r is Err
            &&& widths.is_literal > 8 ==> r == Err::<Option<ChunkInfo<E>>, _>(
                StreamError { kind: ErrorKind::InvalidInput },
            )
            &&& old(input).reliable() && old(input).content().len() <= old(input).limit() && (kind
                == RecordKind::End || kind == RecordKind::Literal || kind == RecordKind::Reference) ==> r is Ok
        }),
        r is Ok && old(input).reliable() ==> final(input).reliable(),
        final(input).limit() == old(input).limit(),
{
    let ghost content = input.content();
    let ghost esz = E::spec_buff_size() as int;
    if widths.is_literal > 8 {
        return Err(StreamError::new(ErrorKind::InvalidInput));
    }
    let pos = input.get_pos()?;
    let len = input.get_size()?;
    let ghost rest = rest_of(content, pos as int);
    let avail: i64 = if 0 <= pos && pos <= len {
        len - pos
    } else {
        0
    };
    let hdr: i64 = (widths.is_literal as i64 + widths.size as i64 + 7) / 8;
    let n: i64 = if avail < hdr {
        avail
    } else {
        hdr
    };
    let mut buf: Vec<u8> = vec![0u8; n as usize];
    if n > 0 {
        input.read_bytes(buf.as_mut_slice())?;
    } else {
        assert(buf@ =~= Seq::<u8>::empty());
    }
    proof {
        assert(rest.len() == avail);
        assert(buf@ =~= rest.take(n as int));
        lemma_prefix_fields(rest, n as int, buf@);
    }
    let header = {
        let mut bits = new_bit_reader(buf.as_slice());
        read_header(&mut bits, widths)?
    };
    match header {
        None => Ok(None),
        Some((true, size)) => {
            let ghost mid_pos = input.position();
            let c = read_literal_chunk_info(input, size)?;
            proof {
                E::lemma_parse_unparse(arbitrary());
                let count = literal_count(size);
                assert(0 <= count * esz) by (nonlinear_arith)
                    requires
                        count >= 0,
                        esz > 0,
                ;
                lemma_parse_elems_rest::<E>(content, pos as int, n as int, count);
            }
            Ok(Some(c))
        },
        Some((false, size)) => {
            let rhdr: i64 = (widths.is_literal as i64 + widths.size as i64 + widths.index as i64 + 7) / 8;
            let m: i64 = if avail < rhdr {
                avail
            } else {
                rhdr
            };
            let mut all: Vec<u8> = buf;
            if m > n {
                let extra: usize = (m - n) as usize;
                let mut more: Vec<u8> = vec![0u8; extra];
                input.read_bytes(more.as_mut_slice())?;
                let mut t: usize = 0;
                while t < more.len()
                    invariant
                        t <= more@.len(),
                        all@ == buf@ + more@.take(t as int),
                    decreases more@.len() - t,
                {
                    all.push(more[t]);
                    assert(all@ =~= buf@ + more@.take(t + 1));
                    t = t + 1;
                }
                proof {
                    assert(more@.take(more@.len() as int) =~= more@);
                    assert(all@ =~= rest.take(m as int));
                }
            } else {
                proof {
                    assert(all@ =~= rest.take(m as int));
                }
            }
            proof {
                lemma_prefix_fields(rest, m as int, all@);
                let w1 = widths.is_literal as int;
                let ws = widths.size as int;
                assert(bytes_bits(all@).take(w1) == bytes_bits(rest).subrange(0, w1));
                assert(bytes_bits(buf@).take(w1) == bytes_bits(rest).subrange(0, w1));
                assert(bytes_bits(all@).subrange(w1, w1 + ws) == bytes_bits(rest).subrange(w1, w1 + ws));
                assert(bytes_bits(buf@).subrange(w1, w1 + ws) == bytes_bits(rest).subrange(w1, w1 + ws));
            }
            let mut bits = new_bit_reader(all.as_slice());
            let again = read_header(&mut bits, widths)?;
            proof {
                let start = widths.is_literal + widths.size;
                let u = unread_bits(bits);
                if widths.index <= 64 && u.len() >= widths.index {
                    assert(u.take(widths.index as int) =~= bytes_bits(rest).subrange(
                        start,
                        start + widths.index,
                    ));
                }
            }
            let c = read_reference_chunk_info(&mut bits, size, widths)?;
            Ok(Some(c))
        },
    }
}

/// Writes a chunk (info) to key.
///
/// * `E` - Element type.
/// * `S` - Output stream type.
///
/// * `output` - Output stream to write info to.
/// * `widths` - Expected bit width of each header field.
/// * `chunk` - Chunk info to write.
///
/// Returns error if occurred: `InvalidInput` when the chunk does not fit the
/// widths, or a failure of the stream.
pub fn write_chunk_info<E: ConstBinParsible, S: OutputBinaryStream>(
    output: &mut S,
    widths: &ChunkInfoWidths,
    chunk: &ChunkInfo<E>,
) -> (r: StreamResult<()>)
    ensures
        !chunk_fits(*widths, *chunk) ==> r == Err::<(), _>(StreamError { kind: ErrorKind::InvalidInput }),
        r is Ok ==> {
            &&& chunk_fits(*widths, *chunk)
            &&& final(output).position() == old(output).position() + chunk_record(*widths, *chunk).len()
        },
        r is Ok && 0 <= old(output).position() ==> final(output).content() == written_at(
            old(output).content(),
            old(output).position(),
            chunk_record(*widths, *chunk),
            0u8,
        ),
        r is Ok && old(output).reliable() ==> final(output).reliable(),
        final(output).limit() == old(output).limit(),
        old(output).reliable() && chunk_fits(*widths, *chunk) && 0 <= old(output).position() && old(
            output,
        ).position() + chunk_record(*widths, *chunk).len() <= old(output).limit() ==> r is Ok,
{
    let header = match chunk {
        ChunkInfo::Reference { size, .. } => (false, *size),
        ChunkInfo::Literal(values) => {
            let n = values.len() as u64;
            if n > 0x7fff_ffff_ffff_ffffu64 {
                return Err(StreamError::new(ErrorKind::InvalidInput));
            }
            (true, n as ChunkSize)
        },
    };
    let mut bits = new_bit_writer(Vec::new());
    proof {
        assert(bytes_bits(Seq::<u8>::empty()) =~= Seq::<bool>::empty());
    }
    write_header(&mut bits, widths, header)?;
    match chunk {
        ChunkInfo::Literal(elems) => {
            let ghost h = written_bits(bits);
            align_bits(&mut bits);
            let bytes = into_bytes(bits);
            proof {
                lemma_padded_bits(h);
                lemma_pack_bits(padded_bits(h));
                lemma_bytes_bits_injective(bytes@, pack_bits(padded_bits(h)));
                assert(h =~= header_bits(*widths, true, elems@.len() as int));
            }
            output.write_bytes(bytes.as_slice())?;
            write_literal_chunk_info(output, elems)?;
            proof {
                if 0 <= old(output).position() {
                    lemma_written_at_concat(
                        old(output).content(),
                        old(output).position(),
                        bytes@,
                        elems_bytes(elems@),
                    );
                }
            }
        },
        ChunkInfo::Reference { index, .. } => {
            write_reference_chunk_info(&mut bits, *index, widths)?;
            let ghost h = written_bits(bits);
            align_bits(&mut bits);
            let bytes = into_bytes(bits);
            proof {
                lemma_padded_bits(h);
                lemma_pack_bits(padded_bits(h));
                lemma_bytes_bits_injective(bytes@, pack_bits(padded_bits(h)));
            }
            output.write_bytes(bytes.as_slice())?;
        },
    }
    Ok(())
}

/// Reads a chunk info header from key.
///
/// * `bits` - A bit reader over bytes of the key.
/// * `widths` - Expected bit width of each field.
///
/// Returns read chunk info header (is_literal, size), or `None` if reached end
/// of key (nothing to read).
/// Returns error if occurred: `InvalidInput` for a field too wide to be read
/// (`is_literal` is read into a byte, `size` into 64 bits), `UnexpectedEof`
/// when the key ends within the header.
///
/// NOTE: "size" serves as literal size for literal chunks, and reference size for reference chunks.
pub fn read_header(bits: &mut KeyBitReader, widths: &ChunkInfoWidths) -> (r: StreamResult<
    Option<(bool, ChunkSize)>,
>)
    ensures
        ({
            let u = unread_bits(*old(bits));
            let w1 = widths.is_literal as int;
            let ws = widths.size as int;
            &&& w1 > 8 ==> r == Err::<Option<(bool, ChunkSize)>, _>(
                StreamError { kind: ErrorKind::InvalidInput },
            )
            &&& w1 <= 8 && u.len() < w1 ==> r == Ok::<_, StreamError>(None::<(bool, ChunkSize)>)
            &&& w1 <= 8 && u.len() >= w1 && ws > 64 ==> r == Err::<Option<(bool, ChunkSize)>, _>(
                StreamError { kind: ErrorKind::InvalidInput },
            )
            &&& w1 <= 8 && u.len() >= w1 && ws <= 64 && u.len() < w1 + ws ==> r == Err::<
                Option<(bool, ChunkSize)>,
                _,
            >(StreamError { kind: ErrorKind::UnexpectedEof })
            &&& w1 <= 8 && ws <= 64 && u.len() >= w1 + ws ==> {
                &&& r == Ok::<_, StreamError>(
                    Some(
                        (
                            bits_value(u.take(w1)) != 0,
                            (bits_value(u.subrange(w1, w1 + ws)) as u64) as ChunkSize,
                        ),
                    ),
                )
                &&& unread_bits(*final(bits)) == u.skip(w1 + ws)
            }
        }),
{
    let ghost u = unread_bits(*bits);
    if widths.is_literal > 8 {
        return Err(StreamError::new(ErrorKind::InvalidInput));
    }
    let is_literal = match read_bits(bits, widths.is_literal as u32) {
        None => return Ok(None),
        Some(v) => v != 0,
    };
    if widths.size > 64 {
        return Err(StreamError::new(ErrorKind::InvalidInput));
    }
    let ghost u1 = unread_bits(*bits);
    let size = match read_bits(bits, widths.size as u32) {
        None => return Err(StreamError::new(ErrorKind::UnexpectedEof)),
        Some(v) => v as ChunkSize,
    };
    proof {
        let w1 = widths.is_literal as int;
        let ws = widths.size as int;
        assert(u1 =~= u.skip(w1));
        assert(u1.take(ws) =~= u.subrange(w1, w1 + ws));
        assert(unread_bits(*bits) =~= u.skip(w1 + ws));
        lemma_bits_value_bound(u.take(w1));
        vstd::arithmetic::power2::lemma_pow2_strictly_increases(w1 as nat, 64);
        vstd::arithmetic::power2::lemma2_to64();
    }
    Ok(Some((is_literal, size)))
}

/// Writes a chunk info header to key.
///
/// * `bits` - A bit writer for the key's bytes.
/// * `widths` - Expected bit width of each field.
/// * `header` - Header to write (is_literal, size).
///
/// Returns error if occurred: `InvalidInput` when `is_literal` is wider than
/// 32 bits, when the size is negative, or when a value does not fit its field.
///
/// NOTE: "size" serves as literal size for literal chunks, and reference size for reference chunks.
pub fn write_header(bits: &mut KeyBitWriter, widths: &ChunkInfoWidths, header: (bool, ChunkSize)) -> (r:
    StreamResult<()>)
    ensures
        r is Ok <==> header_fits(*widths, header.0, header.1 as int),
        r is Err ==> r == Err::<(), _>(StreamError { kind: ErrorKind::InvalidInput }),
        r is Ok ==> written_bits(*final(bits)) == written_bits(*old(bits)) + header_bits(
            *widths,
            header.0,
            header.1 as int,
        ),
{
    let (is_literal, size) = header;
    if widths.is_literal > 32 {
        return Err(StreamError::new(ErrorKind::InvalidInput));
    }
    let flag: u64 = if is_literal {
        1
    } else {
        0
    };
    if !write_bits(bits, widths.is_literal as u32, flag) {
        return Err(StreamError::new(ErrorKind::InvalidInput));
    }
    if size < 0 {
        return Err(StreamError::new(ErrorKind::InvalidInput));
    }
    if !write_bits(bits, widths.size as u32, size as u64) {
        return Err(StreamError::new(ErrorKind::InvalidInput));
    }
    proof {
        vstd::arithmetic::power2::lemma2_to64();
        assert(written_bits(*bits) =~= written_bits(*old(bits)) + header_bits(*widths, is_literal, size as int));
    }
    Ok(())
}

/// Reads a literal chunk's (remaining) chunk info from key: its elements.
/// This function is to be invoked after header fields have already been read.
///
/// * `E` - Element type.
/// * `S` - Input stream type.
///
/// * `input` - Input stream to read info from.
/// * `size` - Literal chunk size (a negative size stands for no elements).
///
/// Returns read chunk info, or error if occurred (the key ending before the
/// elements do among them).
pub fn read_literal_chunk_info<E: ConstBinParsible, S: InputBinaryStream>(input: &mut S, size: ChunkSize) -> (r:
    StreamResult<ChunkInfo<E>>)
    ensures
        r is Ok ==> {
            &&& final(input).content() == old(input).content()
            &&& literal_count(size) > 0 ==> 0 <= old(input).position()
            &&& literal_count(size) > 0 ==> old(input).position() + literal_count(size)
                * E::spec_buff_size() <= old(input).content().len()
            &&& final(input).position() == old(input).position() + literal_count(size)
                * E::spec_buff_size()
        },
        r matches Ok(c) ==> c matches ChunkInfo::Literal(elems) && elems@ == parse_elems::<E>(
            old(input).content(),
            old(input).position(),
            literal_count(size),
        ),
        r is Ok && old(input).reliable() ==> final(input).reliable(),
        final(input).limit() == old(input).limit(),
        old(input).reliable() && old(input).content().len() <= old(input).limit() && (literal_count(size) > 0
            ==> 0 <= old(input).position() && old(input).position() + literal_count(size) * E::spec_buff_size()
            <= old(input).content().len()) ==> r is Ok,
{
    let ghost content = input.content();
    let ghost pos0 = input.position();
    let ghost esz = E::spec_buff_size() as int;
    proof {
        E::lemma_parse_unparse(arbitrary());
    }
    let count: ChunkSize = if size < 0 {
        0
    } else {
        size
    };
    let bsize = E::buff_size();
    let mut elems: Vec<E> = Vec::new();
    let mut k: ChunkSize = 0;
    if count == 0 {
        assert(elems@ =~= parse_elems::<E>(content, pos0, 0));
        return Ok(ChunkInfo::Literal(elems));
    }
    let ghost succ = old(input).reliable() && content.len() <= old(input).limit() && 0 <= pos0 && pos0
        + count * esz <= content.len();
    while k < count
        invariant
            content == old(input).content(),
            input.content() == content,
            pos0 == old(input).position(),
            esz == E::spec_buff_size(),
            esz > 0,
            bsize == esz,
            count == literal_count(size),
            0 < count,
            0 <= k <= count,
            k > 0 ==> 0 <= pos0,
            k > 0 ==> pos0 + k * esz <= content.len(),
            input.position() == pos0 + k * esz,
            elems@ == parse_elems::<E>(content, pos0, k as int),
            old(input).reliable() ==> input.reliable(),
            input.limit() == old(input).limit(),
            succ ==> 0 <= pos0 && pos0 + count * esz <= content.len() <= input.limit(),
        decreases count - k,
    {
        let mut buff: Vec<u8> = vec![0u8; bsize];
        let ghost p = input.position();
        proof {
            assert((k + 1) * esz <= count * esz) by (nonlinear_arith)
                requires
                    k + 1 <= count,
                    esz > 0,
            ;
            assert((k + 1) * esz == k * esz + esz) by (nonlinear_arith);
            assert(0 <= k * esz) by (nonlinear_arith)
                requires
                    k >= 0,
                    esz > 0,
            ;
        }
        input.read_bytes(buff.as_mut_slice())?;
        let e = E::const_bin_parse(buff.as_slice());
        elems.push(e);
        proof {
            assert((k + 1) * esz == k * esz + esz) by (nonlinear_arith);
            assert(0 <= k * esz) by (nonlinear_arith)
                requires
                    k >= 0,
                    esz > 0,
            ;
            assert(elems@ =~= parse_elems::<E>(content, pos0, k + 1));
        }
        k = k + 1;
    }
    Ok(ChunkInfo::Literal(elems))
}

/// Writes a literal chunk's (remaining) chunk info to key: its elements.
/// This function is to be invoked after header fields have already been written.
///
/// * `E` - Element type.
/// * `S` - Output stream type.
///
/// * `output` - Output stream to write info to.
/// * `elems` - Literal chunk data elements.
///
/// Returns error if occurred.
pub fn write_literal_chunk_info<E: ConstBinParsible, S: OutputBinaryStream>(output: &mut S, elems: &Vec<E>) -> (r:
    StreamResult<()>)
    ensures
        r is Ok ==> {
            &&& final(output).content() == written_at(
                old(output).content(),
                old(output).position(),
                elems_bytes(elems@),
                0u8,
            )
            &&& final(output).position() == old(output).position() + elems_bytes(elems@).len()
        },
        r is Ok && old(output).reliable() ==> final(output).reliable(),
        final(output).limit() == old(output).limit(),
        old(output).reliable() && 0 <= old(output).position() && old(output).position() + elems_bytes(elems@).len()
            <= old(output).limit() ==> r is Ok,
{
    let bsize = E::buff_size();
    let mut bytes: Vec<u8> = Vec::new();
    let mut k: usize = 0;
    while k < elems.len()
        invariant
            bsize == E::spec_buff_size(),
            0 <= k <= elems@.len(),
            bytes@ == elems_bytes(elems@.take(k as int)),
        decreases elems@.len() - k,
    {
        let mut buff: Vec<u8> = vec![0u8; bsize];
        elems[k].const_bin_unparse(buff.as_mut_slice());
        let mut t: usize = 0;
        let ghost before = bytes@;
        while t < buff.len()
            invariant
                t <= buff@.len(),
                bytes@ == before + buff@.take(t as int),
            decreases buff@.len() - t,
        {
            bytes.push(buff[t]);
            assert(bytes@ =~= before + buff@.take(t + 1));
            t = t + 1;
        }
        proof {
            assert(buff@.take(buff@.len() as int) =~= buff@);
            assert(elems@.take(k + 1).drop_last() =~= elems@.take(k as int));
        }
        k = k + 1;
    }
    proof {
        assert(elems@.take(elems@.len() as int) =~= elems@);
    }
    output.write_bytes(bytes.as_slice())
}

/// Reads a reference chunk's (remaining) chunk info from key: its index.
/// This function is to be invoked after header fields have already been read.
///
/// * `E` - Element type.
///
/// * `bits` - A bit reader over bytes of the key, past the header.
/// * `size` - Reference chunk size.
/// * `widths` - Expected bit width of each field.
///
/// Returns read chunk info, or error if occurred: `InvalidInput` when the
/// index field is wider than 64 bits, `UnexpectedEof` when the key ends
/// within it.
pub fn read_reference_chunk_info<E>(bits: &mut KeyBitReader, size: ChunkSize, widths: &ChunkInfoWidths) -> (r:
    StreamResult<ChunkInfo<E>>)
    ensures
        ({
            let u = unread_bits(*old(bits));
            let wi = widths.index as int;
            &&& wi > 64 ==> (r matches Err(e) && e.kind == ErrorKind::InvalidInput)
            &&& wi <= 64 && u.len() < wi ==> (r matches Err(e) && e.kind == ErrorKind::UnexpectedEof)
            &&& wi <= 64 && u.len() >= wi ==> (r matches Ok(c) && c == ChunkInfo::<E>::Reference {
                index: (bits_value(u.take(wi)) as u64) as ChunkIndex,
                size,
            })
        }),
{
    if widths.index > 64 {
        return Err(StreamError::new(ErrorKind::InvalidInput));
    }
    match read_bits(bits, widths.index as u32) {
        None => Err(StreamError::new(ErrorKind::UnexpectedEof)),
        Some(v) => Ok(ChunkInfo::Reference { index: v as ChunkIndex, size }),
    }
}

/// Writes a reference chunk's (remaining) chunk info to key: its index.
/// This function is to be invoked after header fields have already been written.
///
/// * `bits` - A bit writer for the key's bytes.
/// * `index` - Start index of referenced data elements.
/// * `widths` - Expected bit width of each field.
///
/// Returns error if occurred: `InvalidInput` when the index is negative or
/// does not fit its field.
pub fn write_reference_chunk_info(bits: &mut KeyBitWriter, index: ChunkIndex, widths: &ChunkInfoWidths) -> (r:
    StreamResult<()>)
    ensures
        r is Ok <==> fits(widths.index as int, index as int),
        r is Err ==> r == Err::<(), _>(StreamError { kind: ErrorKind::InvalidInput }),
        r is Ok ==> written_bits(*final(bits)) == written_bits(*old(bits)) + value_bits(
            widths.index as nat,
            index as nat,
        ),
{
    if index < 0 {
        return Err(StreamError::new(ErrorKind::InvalidInput));
    }
    if !write_bits(bits, widths.index as u32, index as u64) {
        return Err(StreamError::new(ErrorKind::InvalidInput));
    }
    Ok(())
}

/// Extracts a literal chunk's data elements into a given output stream.
///
/// * `E` - Element type.
/// * `Out` - Output stream type.
///
/// * `output` - An output stream to write data elements to.
/// * `elems` - Raw literal elements to write.
///
/// Returns error if occurred.
pub fn extract_literal<E: Copy, Out: OutputElemStream<E>>(output: &mut Out, elems: &Vec<E>) -> (r: StreamResult<()>)
    ensures
        r is Ok ==> final(output).position() == old(output).position() + elems@.len(),
        r is Ok && 0 <= old(output).position() <= old(output).content().len() ==> final(output).content()
            == overwritten(old(output).content(), old(output).position(), elems@),
        r is Ok && old(output).reliable() ==> final(output).reliable(),
        final(output).limit() == old(output).limit(),
        old(output).reliable() && old(output).position() + elems@.len() <= old(output).limit() ==> r is Ok,
{
    let ghost c0 = output.content();
    let ghost p0 = output.position();
    let mut k: usize = 0;
    proof {
        if 0 <= p0 <= c0.len() {
            lemma_overwritten_one(c0, p0, arbitrary());
        }
        assert(elems@.take(0) =~= Seq::<E>::empty());
    }
    while k < elems.len()
        invariant
            c0 == old(output).content(),
            p0 == old(output).position(),
            0 <= k <= elems@.len(),
            output.position() == p0 + k,
            0 <= p0 <= c0.len() ==> output.content() == overwritten(c0, p0, elems@.take(k as int)),
            old(output).reliable() ==> output.reliable(),
            output.limit() == old(output).limit(),
        decreases elems@.len() - k,
    {
        let ghost before = output.content();
        output.write_next_elem(elems[k])?;
        proof {
            if 0 <= p0 <= c0.len() {
                assert(before.len() >= p0 + k);
                lemma_overwritten_one(before, p0 + k, elems@[k as int]);
                lemma_overwritten_concat(c0, p0, elems@.take(k as int), seq![elems@[k as int]]);
                assert(elems@.take(k as int) + seq![elems@[k as int]] =~= elems@.take(k + 1));
            }
        }
        k = k + 1;
    }
    proof {
        assert(elems@.take(elems@.len() as int) =~= elems@);
    }
    Ok(())
}

/// Extracts a reference chunk's data elements into a given output stream.
///
/// * `E` - Element type.
/// * `In` - Input stream type (to read raw elements from).
/// * `Out` - Output stream type.
///
/// * `input` - An input stream to read raw elements from.
/// * `output` - An output stream to write data elements to.
/// * `index` - Start index of referenced data elements.
/// * `size` - Count of referenced data elements.
///
/// Returns error if occurred: `InvalidData` for a negative index,
/// `UnexpectedEof` when the input ends before the referenced elements do
/// (the elements read up to the input's end stay written).
pub fn extract_reference<E: Copy, In: InputElemStream<E>, Out: OutputElemStream<E>>(
    input: &mut In,
    output: &mut Out,
    index: ChunkIndex,
    size: ChunkSize,
) -> (r: StreamResult<()>)
    ensures
        !reference_in(old(input).content().len() as int, index as int, size as int) ==> r is Err,
        index < 0 ==> r == Err::<(), _>(StreamError { kind: ErrorKind::InvalidData }),
        r is Ok ==> {
            &&& reference_in(old(input).content().len() as int, index as int, size as int)
            &&& final(input).content() == old(input).content()
            &&& final(output).position() == old(output).position() + reference_elems(
                old(input).content(),
                index as int,
                size as int,
            ).len()
        },
        r is Ok && 0 <= old(output).position() <= old(output).content().len()
            ==> final(output).content() == overwritten(
            old(output).content(),
            old(output).position(),
            reference_elems(old(input).content(), index as int, size as int),
        ),
        r is Ok && old(input).reliable() ==> final(input).reliable(),
        final(input).limit() == old(input).limit(),
        r is Ok && old(output).reliable() ==> final(output).reliable(),
        final(output).limit() == old(output).limit(),
        old(input).reliable() && old(input).content().len() <= old(input).limit() && old(output).reliable() && old(
            output,
        ).position() + reference_elems(old(input).content(), index as int, size as int).len() <= old(
            output,
        ).limit() && reference_in(old(input).content().len() as int, index as int, size as int) ==> r is Ok,
        ({
            let img = old(input).content();
            let tail = elems_from(img, index as int);
            old(input).reliable() && old(input).whole() && img.len() <= old(input).limit() && index <= old(
                input,
            ).limit() && old(output).reliable() && old(output).position() + tail.len() <= old(output).limit()
                && 0 <= index && 0 < size && index + size > img.len() ==> {
                &&& r == Err::<(), _>(StreamError { kind: ErrorKind::UnexpectedEof })
                &&& final(output).position() == old(output).position() + tail.len()
                &&& 0 <= old(output).position() <= old(output).content().len() ==> final(output).content()
                    == overwritten(old(output).content(), old(output).position(), tail)
            }
        }),
{
    let ghost img = input.content();
    let ghost c0 = output.content();
    let ghost p0 = output.position();
    if index < 0 {
        return Err(StreamError::new(ErrorKind::InvalidData));
    }
    if size <= 0 {
        // nothing is referenced: the input stays where it is
        assert(reference_elems(img, index as int, size as int) =~= Seq::<E>::empty());
        proof {
            if 0 <= p0 <= c0.len() {
                lemma_overwritten_one(c0, p0, arbitrary());
            }
        }
        return Ok(());
    }
    let ghost past = input.reliable() && input.whole() && img.len() <= input.limit() && index
        <= input.limit() && output.reliable() && p0 + elems_from(img, index as int).len() <= output.limit()
        && index + size > img.len();
    input.set_pos(index)?;
    let mut k: ChunkSize = 0;
    let ghost mut done: Seq<E> = Seq::empty();
    proof {
        if 0 <= p0 <= c0.len() {
            lemma_overwritten_one(c0, p0, arbitrary());
        }
    }
    while k < size
        invariant
            img == old(input).content(),
            input.content() == img,
            c0 == old(output).content(),
            p0 == old(output).position(),
            0 <= index,
            0 <= k,
            k <= size || k == 0,
            k > 0 ==> index + k <= img.len(),
            done.len() == k,
            forall|t: int| 0 <= t < k ==> #[trigger] done[t] == img[index + t],
            input.position() == index + k,
            output.position() == p0 + k,
            0 <= p0 <= c0.len() ==> output.content() == overwritten(c0, p0, done),
            old(input).reliable() ==> input.reliable(),
            input.limit() == old(input).limit(),
            old(output).reliable() ==> output.reliable(),
            output.limit() == old(output).limit(),
            old(input).whole() ==> input.whole(),
            past == (old(input).reliable() && old(input).whole() && img.len() <= old(input).limit() && index
                <= old(input).limit() && old(output).reliable() && p0 + elems_from(img, index as int).len()
                <= old(output).limit() && index + size > img.len()),
        decreases size - k,
    {
        let next = input.read_next_elem()?;
        let e = match next {
            Some(e) => e,
            None => {
                proof {
                    if index + k >= img.len() && k > 0 {
                        assert(done =~= elems_from(img, index as int));
                    } else if k == 0 {
                        assert(elems_from(img, index as int) =~= Seq::<E>::empty());
                        assert(done =~= elems_from(img, index as int));
                    }
                }
                return Err(StreamError::new(ErrorKind::UnexpectedEof));
            },
        };
        let ghost before = output.content();
        output.write_next_elem(e)?;
        proof {
            if 0 <= p0 <= c0.len() {
                assert(before.len() >= p0 + k);
                lemma_overwritten_one(before, p0 + k, e);
                lemma_overwritten_concat(c0, p0, done, seq![e]);
            }
            done = done + seq![e];
        }
        k = k + 1;
    }
    proof {
        if size > 0 {
            assert(k == size);
            assert(done =~= img.subrange(index as int, index + size));
        } else {
            assert(done =~= reference_elems(img, index as int, size as int));
        }
    }
    Ok(())
}

} // verus!
