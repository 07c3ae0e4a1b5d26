//! Storing chunks: a key that describes each chunk, next to the image that
//! reference chunks point into.
use vstd::prelude::*;

pub mod bits;
pub mod utils;

use crate::chunks::storage::utils::{
    chunk_fits, chunk_record, extract_literal, extract_reference, header_fits, literal_record,
    read_chunk_info, record_elems, record_index, record_kind, record_len, record_size,
    reference_elems, reference_in, reference_record, rest_of, write_chunk_info, RecordKind,
};
use crate::chunks::storage::bits::{
    bits_value, bytes_bits, lemma_bytes_bits_add, lemma_bytes_bits_len, lemma_pack_bits,
    lemma_padded_bits, lemma_value_bits_len, lemma_value_bits_value, pack_bits, padded_bits,
    value_bits,
};
use crate::chunks::storage::utils::{
    elems_bytes, fits, header_bits, lemma_elems_bytes_len, lemma_parse_elems_bytes, literal_count,
    size_header_len,
};
use crate::chunks::{chunk_elems, expand, lemma_expand_first, ChunkInfo, ChunkSize};
use crate::elems::Elem;
use crate::error::{ErrorKind, StreamError, StreamResult};
use crate::streams::traits::StreamPos;
use crate::streams::spans::{parse_elems, span_len, span_limit, BinaryElemSpan};
use crate::streams::traits::{
    lemma_written_at_concat, overwritten, written_at, ConstBinParsible, InputBinaryStream,
    OutputBinaryStream, OutputElemStream, Stream,
};

verus! {

/// Holds bit widths of chunk info header fields (in key).
#[derive(Clone, Copy, Debug, PartialEq, Eq, Structural)]
pub struct ChunkInfoWidths {
    pub is_literal: u8,
    pub size: u8,
    pub index: u8,
}

impl ChunkInfoWidths {
    /// Gets total size of all fields in bytes (rounded up).
    pub fn total_size_bytes(&self) -> (r: ChunkSize)
        ensures
            r == (self.is_literal + self.size + self.index + 7) / 8,
    {
        ((self.is_literal as u64 + self.size as u64 + self.index as u64 + 7) / 8) as ChunkSize
    }

    /// Gets maximum possible chunk size: the largest size its field can hold.
    pub fn max_size(&self) -> (r: ChunkSize)
        requires
            self.size < 64,
        ensures
            r == vstd::arithmetic::power2::pow2(self.size as nat) - 1,
    {
        let shift = self.size as u64;
        proof {
            vstd::bits::lemma_u64_pow2_no_overflow(shift as nat);
            vstd::bits::lemma_u64_shl_is_mul(1u64, shift);
            if shift < 63 {
                vstd::arithmetic::power2::lemma_pow2_strictly_increases(shift as nat, 63);
            }
            vstd::arithmetic::power2::lemma2_to64_rest();
        }
        ((1u64 << shift) - 1) as ChunkSize
    }
}

/// Bytes of the widths at the start of a key.
pub open spec fn widths_bytes(w: ChunkInfoWidths) -> Seq<u8> {
    seq![w.is_literal, w.size, w.index]
}

/// References are resolved against every whole element of the image from
/// the position extraction starts at to the image's end: element `k` is
/// parsed from the `k`-th run of element bytes from `base` on, and there are
/// as many elements as whole runs fit before the end.
pub proof fn lemma_image_elems_reach_the_end<E: ConstBinParsible>(bytes: Seq<u8>, base: int)
    requires
        0 <= base <= bytes.len(),
    ensures
        ({
            let esz = E::spec_buff_size() as int;
            let elems = image_elems::<E>(bytes, base);
            &&& elems.len() == (bytes.len() - base) / esz
            &&& base + elems.len() * esz <= bytes.len() < base + (elems.len() + 1) * esz
            &&& forall|k: int|
                0 <= k < elems.len() ==> #[trigger] elems[k] == E::spec_parse(
                    bytes.subrange(base + k * esz, base + (k + 1) * esz),
                )
        }),
{
    E::lemma_parse_unparse(arbitrary());
    let esz = E::spec_buff_size() as int;
    let n = bytes.len() - base;
    assert(span_len(bytes.len() as int, base, None) == n);
    vstd::arithmetic::div_mod::lemma_fundamental_div_mod(n, esz);
    vstd::arithmetic::div_mod::lemma_mod_pos_bound(n, esz);
    vstd::arithmetic::div_mod::lemma_div_pos_is_pos(n, esz);
    let c = n / esz;
    vstd::arithmetic::mul::lemma_mul_is_commutative(c, esz);
    assert((c + 1) * esz == c * esz + esz) by (nonlinear_arith);
}

/// The widths a key starts with (its first three bytes).
pub open spec fn key_widths(key: Seq<u8>) -> ChunkInfoWidths {
    ChunkInfoWidths { is_literal: key[0], size: key[1], index: key[2] }
}

/// The widths leave room for a record: reading one takes at least one byte.
pub open spec fn widths_usable(w: ChunkInfoWidths) -> bool {
    w.is_literal + w.size + w.index > 0
}

/// Elements of an image stream's bytes from byte `base` on, as a span of
/// elements over it holds them.
pub open spec fn image_elems<E: ConstBinParsible>(bytes: Seq<u8>, base: int) -> Seq<E> {
    parse_elems::<E>(
        bytes,
        base,
        span_len(bytes.len() as int, base, None) / (E::spec_buff_size() as int),
    )
}

/// Elements extracted from the records of a key (after its widths), or
/// `None` when extraction fails: a record is cut short or has too wide
/// fields, or a reference is outside the image.
pub open spec fn key_elems<E: ConstBinParsible>(w: ChunkInfoWidths, rest: Seq<u8>, image: Seq<E>) -> Option<
    Seq<E>,
>
    decreases rest.len(),
{
    let esz = E::spec_buff_size() as int;
    let len = record_len(w, rest, esz);
    match record_kind(w, rest, esz) {
        RecordKind::End => Some(Seq::empty()),
        RecordKind::Literal => if 0 < len <= rest.len() {
            match key_elems(w, rest.skip(len), image) {
                Some(tail) => Some(record_elems::<E>(w, rest) + tail),
                None => None,
            }
        } else {
            None
        },
        RecordKind::Reference => {
            let index = record_index(w, rest) as int;
            let size = record_size(w, rest) as int;
            if 0 < len <= rest.len() && reference_in(image.len() as int, index, size) {
                match key_elems(w, rest.skip(len), image) {
                    Some(tail) => Some(reference_elems(image, index, size) + tail),
                    None => None,
                }
            } else {
                None
            }
        },
        _ => None,
    }
}

/// `Some(a + b)` when given `Some(b)`.
pub open spec fn prepend<T>(a: Seq<T>, o: Option<Seq<T>>) -> Option<Seq<T>> {
    match o {
        Some(b) => Some(a + b),
        None => None,
    }
}

/// A literal of `n` elements can be stored (nothing is stored for none).
pub open spec fn literal_fits(w: ChunkInfoWidths, n: int) -> bool {
    n == 0 || (n <= ChunkSize::MAX && header_fits(w, true, n))
}

/// Bytes of the literal record of `elems` (nothing for no elements).
pub open spec fn flushed_record<E: ConstBinParsible>(w: ChunkInfoWidths, elems: Seq<E>) -> Seq<u8> {
    if elems.len() == 0 {
        Seq::empty()
    } else {
        literal_record(w, elems)
    }
}

/// Bytes the records of `chunks` are stored as, after literal elements
/// `cached` that wait to be stored: runs of literals are stored as one
/// literal record, each reference as a reference record. `None` when a
/// chunk does not fit the widths.
pub open spec fn stored<E: ConstBinParsible>(w: ChunkInfoWidths, chunks: Seq<ChunkInfo<E>>, cached: Seq<E>) -> Option<
    Seq<u8>,
>
    decreases chunks.len(),
{
    if chunks.len() == 0 {
        if literal_fits(w, cached.len() as int) {
            Some(flushed_record(w, cached))
        } else {
            None
        }
    } else {
        match chunks[0] {
            ChunkInfo::Literal(elems) => stored(w, chunks.drop_first(), cached + elems@),
            ChunkInfo::Reference { index, size } => {
                let c = ChunkInfo::<E>::Reference { index, size };
                if literal_fits(w, cached.len() as int) && chunk_fits(w, c) {
                    prepend(
                        flushed_record(w, cached) + reference_record(w, index as int, size as int),
                        stored(w, chunks.drop_first(), Seq::empty()),
                    )
                } else {
                    None
                }
            },
        }
    }
}

/// Appending two runs one after the other.
proof fn lemma_prepend_assoc<T>(a: Seq<T>, b: Seq<T>, o: Option<Seq<T>>)
    ensures
        prepend(a, prepend(b, o)) == prepend(a + b, o),
{
    if let Some(t) = o {
        assert(a + (b + t) =~= (a + b) + t);
    }
}

/// Writing a run of elements after those already written.
proof fn lemma_output_step<E>(out0: Seq<E>, p0: int, done: Seq<E>, part: Seq<E>)
    requires
        0 <= p0 <= out0.len(),
    ensures
        overwritten(out0, p0, done).len() >= p0 + done.len(),
        overwritten(overwritten(out0, p0, done), p0 + done.len(), part) == overwritten(out0, p0, done + part),
{
    crate::streams::traits::lemma_overwritten_concat(out0, p0, done, part);
}

/// A record read from the key: what is extracted from the key is its
/// elements followed by what is extracted from the rest.
proof fn lemma_record_step<E: ConstBinParsible>(w: ChunkInfoWidths, key: Seq<u8>, pos: int, image: Seq<E>)
    requires
        widths_usable(w),
        record_kind(w, rest_of(key, pos), E::spec_buff_size() as int) == RecordKind::Literal
            || record_kind(w, rest_of(key, pos), E::spec_buff_size() as int) == RecordKind::Reference,
    ensures
        ({
            let rest = rest_of(key, pos);
            let esz = E::spec_buff_size() as int;
            let len = record_len(w, rest, esz);
            &&& 0 < len <= rest.len()
            &&& 0 <= pos
            &&& rest_of(key, pos + len) == rest.skip(len)
            &&& rest_of(key, pos + len).len() < rest.len()
            &&& record_kind(w, rest, esz) == RecordKind::Literal ==> key_elems::<E>(w, rest, image) == prepend(
                record_elems::<E>(w, rest),
                key_elems::<E>(w, rest.skip(len), image),
            )
            &&& record_kind(w, rest, esz) == RecordKind::Reference ==> (reference_in(
                image.len() as int,
                record_index(w, rest) as int,
                record_size(w, rest) as int,
            ) ==> key_elems::<E>(w, rest, image) == prepend(
                reference_elems(image, record_index(w, rest) as int, record_size(w, rest) as int),
                key_elems::<E>(w, rest.skip(len), image),
            ))
        }),
{
    let rest = rest_of(key, pos);
    let esz = E::spec_buff_size() as int;
    E::lemma_parse_unparse(arbitrary());
    let len = record_len(w, rest, esz);
    if record_kind(w, rest, esz) == RecordKind::Literal {
        let count = crate::chunks::storage::utils::literal_count(record_size(w, rest));
        assert(0 <= count * esz) by (nonlinear_arith)
            requires
                count >= 0,
                esz > 0,
        ;
        assert(w.is_literal > 0) by {
            if w.is_literal == 0 {
                assert(crate::chunks::storage::bits::bytes_bits(rest).subrange(0, 0).len() == 0);
            }
        }
    }
    assert(rest.len() > 0);
    assert(rest_of(key, pos + len) =~= rest.skip(len));
}

/// A reliable binary stream whose elements, from its position on, can all be
/// reached and read.
pub open spec fn elems_readable<E: ConstBinParsible, S: Stream<u8>>(s: S) -> bool {
    let esz = E::spec_buff_size() as int;
    &&& s.reliable()
    &&& 0 <= s.position() <= s.content().len()
    &&& s.content().len() <= s.limit()
    &&& s.content().len() <= StreamPos::MAX
    &&& esz <= StreamPos::MAX
}

/// Reads chunks from pngfied data: the key describes each chunk, reference
/// chunks point into the image.
///
/// * `E` - Element type.
/// * `Img` - Binary input stream of the image.
/// * `Key` - Binary input stream of the key.
/// * `Out` - A type of stream to output read chunks into.
pub struct ChunksReader<'a, 'b, 'c, E, Img, Key, Out> {
    pub widths: ChunkInfoWidths,
    pub image: &'a mut Img,
    pub key: &'b mut Key,
    pub output: &'c mut Out,
    pub phantom: core::marker::PhantomData<E>,
}

impl<'a, 'b, 'c, E: Elem, Img: InputBinaryStream, Key: InputBinaryStream, Out: OutputElemStream<E>>
    ChunksReader<'a, 'b, 'c, E, Img, Key, Out> {
    /// Constructs a new instance.
    ///
    /// * `widths` - Widths of the header fields, until those the key starts with are read.
    /// * `image` - Binary input stream of the image.
    /// * `key` - Binary input stream of the key.
    /// * `output` - A stream to output read chunks into.
    pub fn new(widths: ChunkInfoWidths, image: &'a mut Img, key: &'b mut Key, output: &'c mut Out) -> (r: Self)
        ensures
            r.widths == widths,
            *r.image == *old(image),
            *r.key == *old(key),
            *r.output == *old(output),
            *final(r.image) == *final(image),
            *final(r.key) == *final(key),
            *final(r.output) == *final(output),
    {
        Self { widths, image, key, output, phantom: core::marker::PhantomData }
    }

    /// Reads the widths the key starts with, then all chunks from the key,
    /// and writes their elements to the output: a literal's own elements, a
    /// reference's elements of the image (counted from the image's position
    /// when extraction starts).
    ///
    /// Returns error if occurred: when the key is shorter than its widths,
    /// and whenever extracting a record fails.
    pub fn extract_all(&mut self) -> (r: StreamResult<()>)
        requires
            rest_of(old(self).key.content(), old(self).key.position()).len() >= 3 ==> widths_usable(
                key_widths(rest_of(old(self).key.content(), old(self).key.position())),
            ),
        ensures
            *final(final(self).key) == *final(old(self).key),
            *final(final(self).output) == *final(old(self).output),
            ({
                let key = rest_of(old(self).key.content(), old(self).key.position());
                let w = key_widths(key);
                let image = image_elems::<E>(old(self).image.content(), old(self).image.position());
                let records = rest_of(old(self).key.content(), old(self).key.position() + 3);
                let out0 = old(self).output.content();
                let p0 = old(self).output.position();
                &&& r is Ok ==> {
                    &&& key.len() >= 3
                    &&& final(self).widths == w
                    &&& key_elems::<E>(w, records, image) is Some
                    &&& final(self).output.position() == p0 + key_elems::<E>(w, records, image)->0.len()
                    &&& 0 <= p0 <= out0.len() ==> final(self).output.content() == overwritten(
                        out0,
                        p0,
                        key_elems::<E>(w, records, image)->0,
                    )
                }
                &&& key.len() < 3 ==> r is Err
                &&& key.len() >= 3 && key_elems::<E>(w, records, image) is None ==> r is Err
                &&& old(self).key.reliable() && old(self).key.content().len() <= old(self).key.limit() && 0 <= old(
                    self,
                ).key.position() && key.len() >= 3 && elems_readable::<E, Img>(*old(self).image) && old(
                    self,
                ).output.reliable() && key_elems::<E>(w, records, image) is Some && p0 + key_elems::<E>(
                    w,
                    records,
                    image,
                )->0.len() <= old(self).output.limit() ==> r is Ok
            }),
    {
        let ghost key0 = self.key.content();
        let ghost kpos0 = self.key.position();
        let ghost img0 = self.image.content();
        let ghost out0 = self.output.content();
        let ghost p0 = self.output.position();
        let ghost w = key_widths(rest_of(key0, kpos0));
        let ghost total = key_elems::<E>(w, rest_of(key0, kpos0 + 3), image_elems::<E>(img0, self.image.position()));
        let ghost succ = self.key.reliable() && key0.len() <= self.key.limit() && 0 <= kpos0 && rest_of(
            key0,
            kpos0,
        ).len() >= 3 && elems_readable::<E, Img>(*self.image) && self.output.reliable() && total is Some && p0
            + total->0.len() <= self.output.limit();
        self.read_widths()?;
        let base = self.image.get_pos()?;
        if base < 0 {
            return Err(StreamError::new(ErrorKind::InvalidInput));
        }
        let widths = self.widths;
        let ghost image = image_elems::<E>(img0, base as int);
        let ghost records = rest_of(key0, kpos0 + 3);
        let mut span: BinaryElemSpan<'_, E, Img> = BinaryElemSpan::new(&mut *self.image, Some(base), None);
        let ghost mut done: Seq<E> = Seq::empty();
        proof {
            if succ {
                E::lemma_parse_unparse(arbitrary());
                let esz = E::spec_buff_size() as int;
                let len = img0.len() as int;
                let lim = span_limit(span.base.stream.limit(), base as int, None);
                assert(span.reliable());
                vstd::arithmetic::div_mod::lemma_div_is_ordered(len - base, lim, esz);
                assert(span.content().len() <= span.limit());
            }
            assert(span.content() == image);
            assert(rest_of(key0, self.key.position()) == records);
            assert(prepend(done, key_elems::<E>(widths, records, image)) =~= key_elems::<E>(widths, records, image));
            if 0 <= p0 <= out0.len() {
                crate::streams::traits::lemma_overwritten_one(out0, p0, arbitrary());
            }
        }
        loop
            invariant_except_break
                key_elems::<E>(widths, records, image) == prepend(
                    done,
                    key_elems::<E>(widths, rest_of(key0, self.key.position()), image),
                ),
            invariant
                *final(self.key) == *final(old(self).key),
                *final(self.output) == *final(old(self).output),
                widths_usable(widths),
                widths == w,
                self.widths == w,
                w == key_widths(rest_of(old(self).key.content(), old(self).key.position())),
                self.key.content() == key0,
                span.content() == image,
                self.output.position() == p0 + done.len(),
                0 <= p0 <= out0.len() ==> self.output.content() == overwritten(out0, p0, done),
                total == key_elems::<E>(widths, records, image),
                succ == (old(self).key.reliable() && key0.len() <= old(self).key.limit() && 0 <= kpos0 && rest_of(
                    key0,
                    kpos0,
                ).len() >= 3 && elems_readable::<E, Img>(*old(self).image) && old(self).output.reliable() && total is Some && p0 + total->0.len() <= old(
                    self,
                ).output.limit()),
                key0 == old(self).key.content(),
                kpos0 == old(self).key.position(),
                p0 == old(self).output.position(),
                image == image_elems::<E>(old(self).image.content(), old(self).image.position()),
                records == rest_of(old(self).key.content(), old(self).key.position() + 3),
                succ ==> self.key.reliable() && self.key.content().len() <= self.key.limit(),
                succ ==> span.reliable() && span.content().len() <= span.limit(),
                succ ==> self.output.reliable() && p0 + total->0.len() <= self.output.limit(),
            ensures
                key_elems::<E>(widths, records, image) == Some(done),
                self.output.position() == p0 + done.len(),
                0 <= p0 <= out0.len() ==> self.output.content() == overwritten(out0, p0, done),
            decreases rest_of(key0, self.key.position()).len(),
        {
            let ghost kpos = self.key.position();
            let ghost rest = rest_of(key0, kpos);
            let next = read_chunk_info::<E, Key>(self.key, &widths)?;
            match next {
                None => {
                    assert(done + Seq::<E>::empty() =~= done);
                    break ;
                },
                Some(ChunkInfo::Literal(elems)) => {
                    let ghost before = self.output.content();
                    proof {
                        lemma_record_step::<E>(widths, key0, kpos, image);
                    }
                    extract_literal(self.output, &elems)?;
                    proof {
                        if 0 <= p0 <= out0.len() {
                            lemma_output_step(out0, p0, done, elems@);
                        }
                        lemma_prepend_assoc(done, elems@, key_elems::<E>(widths, rest_of(key0, self.key.position()), image));
                        done = done + elems@;
                    }
                },
                Some(ChunkInfo::Reference { index, size }) => {
                    let ghost before = self.output.content();
                    proof {
                        lemma_record_step::<E>(widths, key0, kpos, image);
                    }
                    extract_reference(&mut span, self.output, index, size)?;
                    proof {
                        let part = reference_elems(image, index as int, size as int);
                        if 0 <= p0 <= out0.len() {
                            lemma_output_step(out0, p0, done, part);
                        }
                        lemma_prepend_assoc(done, part, key_elems::<E>(widths, rest_of(key0, self.key.position()), image));
                        done = done + part;
                    }
                },
            }
        }
        Ok(())
    }

    /// Reads the widths at the start of the key; they become the widths
    /// records are read with.
    ///
    /// Returns the widths read, or error if occurred.
    fn read_widths(&mut self) -> (r: StreamResult<ChunkInfoWidths>)
        ensures
            *final(final(self).image) == *final(old(self).image),
            *final(final(self).key) == *final(old(self).key),
            *final(final(self).output) == *final(old(self).output),
            *final(self).image == *old(self).image,
            *final(self).output == *old(self).output,
            ({
                let key = rest_of(old(self).key.content(), old(self).key.position());
                &&& r matches Ok(w) ==> {
                    &&& key.len() >= 3
                    &&& w == key_widths(key)
                    &&& final(self).widths == w
                    &&& final(self).key.content() == old(self).key.content()
                    &&& final(self).key.position() == old(self).key.position() + 3
                }
                &&& key.len() < 3 ==> r is Err
                &&& old(self).key.reliable() && old(self).key.content().len() <= old(self).key.limit() && 0 <= old(
                    self,
                ).key.position() && key.len() >= 3 ==> r is Ok
            }),
            r is Ok && old(self).key.reliable() ==> final(self).key.reliable(),
            final(self).key.limit() == old(self).key.limit(),
    {
        let mut buf: Vec<u8> = vec![0u8; 3];
        self.key.read_bytes(buf.as_mut_slice())?;
        let read = ChunkInfoWidths { is_literal: buf[0], size: buf[1], index: buf[2] };
        proof {
            let key = rest_of(old(self).key.content(), old(self).key.position());
            assert(key.take(3) =~= buf@);
            assert(key[0] == buf@[0] && key[1] == buf@[1] && key[2] == buf@[2]);
        }
        self.widths = read;
        Ok(read)
    }
}

/// Writing nothing within the content (or at its end) leaves it as it is.
proof fn lemma_written_at_empty(content: Seq<u8>, pos: int)
    requires
        0 <= pos <= content.len(),
    ensures
        written_at(content, pos, Seq::empty(), 0u8) == content,
{
    assert(written_at(content, pos, Seq::empty(), 0u8) =~= content);
}

/// Writes chunks into pngfied data: the key that describes them.
///
/// * `E` - Element type.
/// * `Key` - Binary output stream of the key.
pub struct ChunksWriter<'a, 'b, E, Key> {
    pub widths: ChunkInfoWidths,
    pub input: &'a [ChunkInfo<E>],
    pub output: &'b mut Key,
    pub cached_literals: Vec<E>,
}

impl<'a, 'b, E: Elem, Key: OutputBinaryStream> ChunksWriter<'a, 'b, E, Key> {
    /// Constructs a new instance.
    ///
    /// * `widths` - Widths of header fields (for each chunk in key).
    /// * `input` - Chunks to write.
    /// * `output` - Binary output stream of the key.
    pub fn new(widths: ChunkInfoWidths, input: &'a [ChunkInfo<E>], output: &'b mut Key) -> (r: Self)
        ensures
            r.widths == widths,
            r.input@ == input@,
            *r.output == *old(output),
            *final(r.output) == *final(output),
            r.cached_literals@ == Seq::<E>::empty(),
    {
        Self { widths, input, output, cached_literals: Vec::new() }
    }

    /// Writes the key: the widths, then the records of the chunks, runs of
    /// literal chunks (after the literal elements already cached) being
    /// written as one literal record.
    ///
    /// Returns error if occurred: `InvalidInput` when a chunk does not fit
    /// the widths, or a failure of the stream.
    #[verifier::rlimit(60)]
    pub fn write(&mut self) -> (r: StreamResult<()>)
        ensures
            *final(final(self).output) == *final(old(self).output),
            final(self).widths == old(self).widths,
            final(self).input == old(self).input,
            stored(old(self).widths, old(self).input@, old(self).cached_literals@) is None ==> r is Err,
            r is Ok ==> {
                let b = stored(old(self).widths, old(self).input@, old(self).cached_literals@)->0;
                &&& stored(old(self).widths, old(self).input@, old(self).cached_literals@) is Some
                &&& final(self).cached_literals@ == Seq::<E>::empty()
                &&& final(self).output.position() == old(self).output.position() + 3 + b.len()
                &&& 0 <= old(self).output.position() ==> final(self).output.content() == written_at(
                    old(self).output.content(),
                    old(self).output.position(),
                    widths_bytes(old(self).widths) + b,
                    0u8,
                )
            },
            old(self).output.reliable() && 0 <= old(self).output.position() && stored(
                old(self).widths,
                old(self).input@,
                old(self).cached_literals@,
            ) is Some && old(self).output.position() + 3 + stored(
                old(self).widths,
                old(self).input@,
                old(self).cached_literals@,
            )->0.len() <= old(self).output.limit() ==> r is Ok,
            r is Ok && old(self).output.reliable() ==> final(self).output.reliable(),
            final(self).output.limit() == old(self).output.limit(),
    {
        let ghost w = self.widths;
        let ghost c0 = self.output.content();
        let ghost p0 = self.output.position();
        let ghost total = stored(w, self.input@, self.cached_literals@);
        let ghost succ = self.output.reliable() && 0 <= p0 && total is Some && p0 + 3 + total->0.len()
            <= self.output.limit();
        self.write_widths()?;
        let ghost mut out: Seq<u8> = Seq::empty();
        let mut i: usize = 0;
        proof {
            assert(self.input@.skip(0) =~= self.input@);
            assert(prepend(out, total) =~= total) by {
                if let Some(t) = total {
                    assert(out + t =~= t);
                }
            }
            assert(widths_bytes(w) + out =~= widths_bytes(w));
        }
        while i < self.input.len()
            invariant
                *final(self.output) == *final(old(self).output),
                self.widths == w,
                w == old(self).widths,
                self.input == old(self).input,
                total == stored(w, self.input@, old(self).cached_literals@),
                i <= self.input@.len(),
                total == prepend(out, stored(w, self.input@.skip(i as int), self.cached_literals@)),
                self.output.position() == p0 + 3 + out.len(),
                0 <= p0 ==> self.output.content() == written_at(c0, p0, widths_bytes(w) + out, 0u8),
                p0 == old(self).output.position(),
                succ == (old(self).output.reliable() && 0 <= p0 && total is Some && p0 + 3 + total->0.len()
                    <= old(self).output.limit()),
                old(self).output.reliable() ==> self.output.reliable(),
                self.output.limit() == old(self).output.limit(),
            decreases self.input@.len() - i,
        {
            let ghost rest = self.input@.skip(i as int);
            proof {
                assert(rest[0] == self.input@[i as int]);
                assert(rest.drop_first() =~= self.input@.skip(i + 1));
            }
            match &self.input[i] {
                ChunkInfo::Literal(values) => {
                    let ghost cached = self.cached_literals@;
                    let mut k: usize = 0;
                    while k < values.len()
                        invariant
                            *final(self.output) == *final(old(self).output),
                            k <= values@.len(),
                            self.cached_literals@ == cached + values@.take(k as int),
                            self.widths == w,
                            self.input == old(self).input,
                            self.output.position() == p0 + 3 + out.len(),
                            0 <= p0 ==> self.output.content() == written_at(c0, p0, widths_bytes(w) + out, 0u8),
                            old(self).output.reliable() ==> self.output.reliable(),
                            self.output.limit() == old(self).output.limit(),
                        decreases values@.len() - k,
                    {
                        self.cached_literals.push(values[k]);
                        assert(self.cached_literals@ =~= cached + values@.take(k + 1));
                        k = k + 1;
                    }
                    proof {
                        assert(values@.take(values@.len() as int) =~= values@);
                    }
                },
                ChunkInfo::Reference { .. } => {
                    let ghost flushed = crate::chunks::storage::flushed_record(w, self.cached_literals@);
                    let ghost c1 = self.output.content();
                    Self::flush_cached_literals(self.output, &self.widths, &mut self.cached_literals)?;
                    let ghost c2 = self.output.content();
                    write_chunk_info(self.output, &self.widths, &self.input[i])?;
                    proof {
                        let rec = chunk_record(w, self.input@[i as int]);
                        if 0 <= p0 {
                            lemma_written_at_concat(c0, p0, widths_bytes(w) + out, flushed);
                            lemma_written_at_concat(c0, p0, widths_bytes(w) + out + flushed, rec);
                            assert(widths_bytes(w) + out + flushed + rec =~= widths_bytes(w) + (out + (flushed
                                + rec)));
                        }
                        lemma_prepend_assoc(out, flushed + rec, stored(w, self.input@.skip(i + 1), Seq::empty()));
                        out = out + (flushed + rec);
                    }
                },
            }
            i = i + 1;
        }
        let ghost flushed = crate::chunks::storage::flushed_record(w, self.cached_literals@);
        Self::flush_cached_literals(self.output, &self.widths, &mut self.cached_literals)?;
        proof {
            assert(self.input@.skip(self.input@.len() as int) =~= Seq::<ChunkInfo<E>>::empty());
            if 0 <= p0 {
                lemma_written_at_concat(c0, p0, widths_bytes(w) + out, flushed);
                assert(widths_bytes(w) + out + flushed =~= widths_bytes(w) + (out + flushed));
            }
        }
        Ok(())
    }

    /// Writes the widths at the start of the key.
    ///
    /// Returns error if occurred.
    fn write_widths(&mut self) -> (r: StreamResult<()>)
        ensures
            *final(final(self).output) == *final(old(self).output),
            final(self).widths == old(self).widths,
            final(self).input == old(self).input,
            final(self).cached_literals == old(self).cached_literals,
            r is Ok ==> {
                &&& final(self).output.position() == old(self).output.position() + 3
                &&& final(self).output.content() == written_at(
                    old(self).output.content(),
                    old(self).output.position(),
                    widths_bytes(old(self).widths),
                    0u8,
                )
            },
            r is Ok && old(self).output.reliable() ==> final(self).output.reliable(),
            final(self).output.limit() == old(self).output.limit(),
            old(self).output.reliable() && 0 <= old(self).output.position() && old(self).output.position() + 3
                <= old(self).output.limit() ==> r is Ok,
    {
        let buf: Vec<u8> = vec![self.widths.is_literal, self.widths.size, self.widths.index];
        proof {
            assert(buf@ =~= widths_bytes(self.widths));
        }
        self.output.write_bytes(buf.as_slice())
    }

    /// Flushes cached literals as one literal chunk (nothing when none are cached).
    ///
    /// Returns error if occurred: `InvalidInput` when they do not fit the widths.
    fn flush_cached_literals(output: &mut Key, widths: &ChunkInfoWidths, cached_literals: &mut Vec<E>) -> (r:
        StreamResult<()>)
        ensures
            !literal_fits(*widths, old(cached_literals)@.len() as int) ==> r is Err,
            r is Ok ==> {
                &&& literal_fits(*widths, old(cached_literals)@.len() as int)
                &&& final(cached_literals)@ == Seq::<E>::empty()
                &&& final(output).position() == old(output).position() + flushed_record(
                    *widths,
                    old(cached_literals)@,
                ).len()
                &&& 0 <= old(output).position() <= old(output).content().len() ==> final(output).content()
                    == written_at(
                    old(output).content(),
                    old(output).position(),
                    flushed_record(*widths, old(cached_literals)@),
                    0u8,
                )
            },
            r is Ok && old(output).reliable() ==> final(output).reliable(),
            final(output).limit() == old(output).limit(),
            old(output).reliable() && literal_fits(*widths, old(cached_literals)@.len() as int) && 0 <= old(
                output,
            ).position() && old(output).position() + flushed_record(*widths, old(cached_literals)@).len() <= old(
                output,
            ).limit() ==> r is Ok,
    {
        if cached_literals.len() > 0 {
            let mut lits: Vec<E> = Vec::new();
            std::mem::swap(&mut lits, cached_literals);
            let chunk = ChunkInfo::Literal(lits);
            write_chunk_info(output, widths, &chunk)?;
        } else {
            proof {
                if 0 <= old(output).position() <= old(output).content().len() {
                    lemma_written_at_empty(old(output).content(), old(output).position());
                }
                assert(old(cached_literals)@ =~= Seq::<E>::empty());
            }
        }
        Ok(())
    }
}

/// Widths with which a key can be both written and read back: `is_literal`
/// takes between one and eight bits, `size` and `index` at most 64.
pub open spec fn widths_round_trip(w: ChunkInfoWidths) -> bool {
    1 <= w.is_literal <= 8 && w.size <= 64 && w.index <= 64
}

/// Every reference among the chunks lies within the image.
pub open spec fn refs_within<E>(chunks: Seq<ChunkInfo<E>>, image_len: int) -> bool {
    forall|k: int|
        0 <= k < chunks.len() ==> match #[trigger] chunks[k] {
            ChunkInfo::Reference { index, size } => 0 <= index && index + size <= image_len,
            ChunkInfo::Literal(_) => true,
        }
}

/// A value that fits its field is read back from its bits.
proof fn lemma_field_value(width: int, v: int)
    requires
        0 <= width,
        fits(width, v),
        v <= u64::MAX,
    ensures
        bits_value(value_bits(width as nat, v as nat)) == v,
        value_bits(width as nat, v as nat).len() == width,
{
    vstd::arithmetic::power2::lemma2_to64();
    lemma_value_bits_value(width as nat, v as nat);
    lemma_value_bits_len(width as nat, v as nat);
}

/// The header bytes of a record hold its header bits, padded.
proof fn lemma_header_bytes(h: Seq<bool>, tail: Seq<u8>)
    ensures
        ({
            let rec = pack_bits(padded_bits(h)) + tail;
            &&& pack_bits(padded_bits(h)).len() == (h.len() + 7) / 8
            &&& bytes_bits(rec).len() == 8 * rec.len()
            &&& forall|a: int, b: int|
                0 <= a <= b <= h.len() ==> #[trigger] bytes_bits(rec).subrange(a, b) == h.subrange(a, b)
        }),
{
    let p = padded_bits(h);
    lemma_padded_bits(h);
    lemma_pack_bits(p);
    let hb = pack_bits(p);
    lemma_bytes_bits_add(hb, tail);
    lemma_bytes_bits_len(hb + tail);
    let rec = hb + tail;
    assert forall|a: int, b: int| 0 <= a <= b <= h.len() implies #[trigger] bytes_bits(rec).subrange(a, b)
        == h.subrange(a, b) by {
        assert(p.take(h.len() as int) == h);
        assert(bytes_bits(rec).subrange(a, b) =~= h.subrange(a, b));
    }
}

/// A literal record followed by any bytes is read back as that literal.
proof fn lemma_decode_literal_record<E: ConstBinParsible>(w: ChunkInfoWidths, elems: Seq<E>, tail: Seq<u8>)
    requires
        widths_round_trip(w),
        0 <= elems.len() <= ChunkSize::MAX,
        header_fits(w, true, elems.len() as int),
    ensures
        ({
            let rec = literal_record(w, elems) + tail;
            let esz = E::spec_buff_size() as int;
            &&& record_kind(w, rec, esz) == RecordKind::Literal
            &&& record_len(w, rec, esz) == literal_record(w, elems).len()
            &&& record_elems::<E>(w, rec) == elems
            &&& rec.skip(record_len(w, rec, esz)) == tail
        }),
{
    let n = elems.len() as int;
    let w1 = w.is_literal as int;
    let ws = w.size as int;
    let esz = E::spec_buff_size() as int;
    let h = header_bits(w, true, n);
    let eb = elems_bytes(elems);
    lemma_elems_bytes_len(elems);
    E::lemma_parse_unparse(arbitrary());
    lemma_field_value(w1, 1);
    lemma_field_value(ws, n);
    let hb = pack_bits(padded_bits(h));
    let rec = literal_record(w, elems) + tail;
    assert(rec =~= hb + (eb + tail));
    lemma_header_bytes(h, eb + tail);
    assert(h.subrange(0, w1) =~= value_bits(w1 as nat, 1));
    assert(h.subrange(w1, w1 + ws) =~= value_bits(ws as nat, n as nat));
    assert(bytes_bits(rec).subrange(0, w1) == h.subrange(0, w1));
    assert(bytes_bits(rec).subrange(w1, w1 + ws) == h.subrange(w1, w1 + ws));
    assert(record_size(w, rec) == n);
    assert(literal_count(record_size(w, rec)) == n);
    assert(hb.len() == size_header_len(w));
    assert(0 <= n * esz) by (nonlinear_arith)
        requires
            n >= 0,
            esz > 0,
    ;
    assert(rec.subrange(hb.len() as int, (hb.len() + eb.len()) as int) =~= eb);
    lemma_parse_elems_bytes::<E>(rec, hb.len() as int, elems);
    assert(rec.skip((hb.len() + eb.len()) as int) =~= tail);
}

/// A reference record followed by any bytes is read back as that reference.
proof fn lemma_decode_reference_record(w: ChunkInfoWidths, index: int, size: int, tail: Seq<u8>, esz: int)
    requires
        widths_round_trip(w),
        header_fits(w, false, size),
        fits(w.index as int, index),
        index <= ChunkSize::MAX,
        size <= ChunkSize::MAX,
    ensures
        ({
            let rec = reference_record(w, index, size) + tail;
            &&& record_kind(w, rec, esz) == RecordKind::Reference
            &&& record_len(w, rec, esz) == reference_record(w, index, size).len()
            &&& record_index(w, rec) == index
            &&& record_size(w, rec) == size
            &&& rec.skip(record_len(w, rec, esz)) == tail
        }),
{
    let w1 = w.is_literal as int;
    let ws = w.size as int;
    let wi = w.index as int;
    let h = header_bits(w, false, size) + value_bits(wi as nat, index as nat);
    lemma_field_value(w1, 0);
    lemma_field_value(ws, size);
    lemma_field_value(wi, index);
    let rec = reference_record(w, index, size) + tail;
    lemma_header_bytes(h, tail);
    assert(h.subrange(0, w1) =~= value_bits(w1 as nat, 0));
    assert(h.subrange(w1, w1 + ws) =~= value_bits(ws as nat, size as nat));
    assert(h.subrange(w1 + ws, w1 + ws + wi) =~= value_bits(wi as nat, index as nat));
    assert(bytes_bits(rec).subrange(0, w1) == h.subrange(0, w1));
    assert(bytes_bits(rec).subrange(w1, w1 + ws) == h.subrange(w1, w1 + ws));
    assert(bytes_bits(rec).subrange(w1 + ws, w1 + ws + wi) == h.subrange(w1 + ws, w1 + ws + wi));
    assert(rec.skip(reference_record(w, index, size).len() as int) =~= tail);
}

/// Reading a record back gives what was written: the record
/// `write_chunk_info` writes for a chunk that fits the widths, followed by any
/// bytes, is read by `read_chunk_info` as that very chunk, which stops right
/// after the record, given widths with which a key can be read back.
pub proof fn lemma_chunk_record_read_back<E: ConstBinParsible>(w: ChunkInfoWidths, c: ChunkInfo<E>, tail: Seq<u8>)
    requires
        widths_round_trip(w),
        chunk_fits(w, c),
    ensures
        ({
            let rec = chunk_record(w, c) + tail;
            let esz = E::spec_buff_size() as int;
            &&& record_len(w, rec, esz) == chunk_record(w, c).len()
            &&& rec.skip(record_len(w, rec, esz)) == tail
            &&& match c {
                ChunkInfo::Literal(elems) => record_kind(w, rec, esz) == RecordKind::Literal
                    && record_elems::<E>(w, rec) == elems@,
                ChunkInfo::Reference { index, size } => record_kind(w, rec, esz) == RecordKind::Reference
                    && record_index(w, rec) == index && record_size(w, rec) == size,
            }
        }),
{
    let esz = E::spec_buff_size() as int;
    match c {
        ChunkInfo::Literal(elems) => {
            lemma_decode_literal_record(w, elems@, tail);
        },
        ChunkInfo::Reference { index, size } => {
            lemma_decode_reference_record(w, index as int, size as int, tail, esz);
        },
    }
}

/// Key round trip: the records a key is written as (after literal elements
/// already cached) are read back as the cached elements followed by the
/// elements the chunks stand for, given widths with which a key can be read
/// back and references that lie within the image.
pub proof fn lemma_stored_read_back<E: ConstBinParsible>(
    w: ChunkInfoWidths,
    chunks: Seq<ChunkInfo<E>>,
    cached: Seq<E>,
    image: Seq<E>,
)
    requires
        widths_round_trip(w),
        stored(w, chunks, cached) is Some,
        refs_within(chunks, image.len() as int),
    ensures
        key_elems::<E>(w, stored(w, chunks, cached)->0, image) == Some(cached + expand(chunks, image)),
    decreases chunks.len(),
{
    let esz = E::spec_buff_size() as int;
    E::lemma_parse_unparse(arbitrary());
    if chunks.len() == 0 {
        assert(cached + expand(chunks, image) =~= cached);
        if cached.len() == 0 {
            assert(key_elems::<E>(w, Seq::empty(), image) == Some(Seq::<E>::empty()));
        } else {
            lemma_decode_literal_record(w, cached, Seq::empty());
            assert(literal_record(w, cached) + Seq::<u8>::empty() =~= literal_record(w, cached));
            assert(key_elems::<E>(w, Seq::empty(), image) == Some(Seq::<E>::empty()));
            assert(cached + Seq::<E>::empty() =~= cached);
        }
    } else {
        lemma_expand_first(chunks, image);
        let rest = chunks.drop_first();
        assert(refs_within(rest, image.len() as int)) by {
            assert forall|k: int| 0 <= k < rest.len() implies match #[trigger] rest[k] {
                ChunkInfo::Reference { index, size } => 0 <= index && index + size <= image.len(),
                ChunkInfo::Literal(_) => true,
            } by {
                assert(rest[k] == chunks[k + 1]);
            }
        }
        match chunks[0] {
            ChunkInfo::Literal(elems) => {
                lemma_stored_read_back(w, rest, cached + elems@, image);
                assert(cached + elems@ + expand(rest, image) =~= cached + expand(chunks, image));
            },
            ChunkInfo::Reference { index, size } => {
                lemma_stored_read_back(w, rest, Seq::empty(), image);
                let tail = stored(w, rest, Seq::empty())->0;
                let refrec = reference_record(w, index as int, size as int);
                assert(0 <= index && index + size <= image.len()) by {
                    assert(chunks[0] == chunks[0]);
                }
                lemma_decode_reference_record(w, index as int, size as int, tail, esz);
                let after = refrec + tail;
                let part = reference_elems(image, index as int, size as int);
                assert(part =~= chunk_elems(chunks[0], image));
                assert(key_elems::<E>(w, after, image) == prepend(part, key_elems::<E>(w, tail, image)));
                assert(Seq::<E>::empty() + expand(rest, image) =~= expand(rest, image));
                if cached.len() == 0 {
                    assert(flushed_record(w, cached) + refrec =~= refrec);
                    assert(stored(w, chunks, cached)->0 =~= after);
                    assert(cached + expand(chunks, image) =~= part + expand(rest, image));
                } else {
                    lemma_decode_literal_record(w, cached, after);
                    assert(stored(w, chunks, cached)->0 =~= literal_record(w, cached) + after);
                    let whole = literal_record(w, cached) + after;
                    assert(whole.skip(record_len(w, whole, esz)) == after);
                    assert(key_elems::<E>(w, whole, image) == prepend(cached, key_elems::<E>(w, after, image)));
                    assert(cached + (part + expand(rest, image)) =~= cached + expand(chunks, image));
                }
            },
        }
    }
}

/// Extracting a key gives back what the stored chunks stand for: the
/// records `ChunksWriter::write` stores for chunks are extracted by
/// `ChunksReader::extract_all` as the elements the chunks expand to, given
/// widths with which a key can be read back and references that lie within
/// the image.
pub proof fn lemma_key_round_trip<E: ConstBinParsible>(w: ChunkInfoWidths, chunks: Seq<ChunkInfo<E>>, image: Seq<E>)
    requires
        widths_round_trip(w),
        stored(w, chunks, Seq::empty()) is Some,
        refs_within(chunks, image.len() as int),
    ensures
        key_elems::<E>(w, stored(w, chunks, Seq::empty())->0, image) == Some(expand(chunks, image)),
{
    lemma_stored_read_back(w, chunks, Seq::empty(), image);
    assert(Seq::<E>::empty() + expand(chunks, image) =~= expand(chunks, image));
}

/// Pngfying round trip: chunks that cover the data (as `ChunkMapper::map_chunks`
/// maps them) and that can be stored are extracted back as the data.
pub proof fn lemma_data_round_trip<E: ConstBinParsible>(
    w: ChunkInfoWidths,
    chunks: Seq<ChunkInfo<E>>,
    data: Seq<E>,
    image: Seq<E>,
    min_cap: Option<ChunkSize>,
    max_cap: Option<ChunkSize>,
)
    requires
        widths_round_trip(w),
        crate::chunks::mapping::covers(chunks, data, image, data.len() as int, min_cap, max_cap),
        stored(w, chunks, Seq::empty()) is Some,
    ensures
        key_elems::<E>(w, stored(w, chunks, Seq::empty())->0, image) == Some(data),
{
    assert(refs_within(chunks, image.len() as int)) by {
        assert forall|k: int| 0 <= k < chunks.len() implies match #[trigger] chunks[k] {
            ChunkInfo::Reference { index, size } => 0 <= index && index + size <= image.len(),
            ChunkInfo::Literal(_) => true,
        } by {
            assert(crate::chunks::chunk_valid(chunks[k], image.len() as int));
        }
    }
    lemma_key_round_trip(w, chunks, image);
    assert(data.subrange(0, data.len() as int) =~= data);
}

} // verus!
