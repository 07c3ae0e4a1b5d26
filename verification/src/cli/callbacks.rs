//! The operations themselves: compiling data into a key over an image, and
//! extracting data back from an image and its key.
use vstd::prelude::*;

use crate::chunks::mapping::reach::{best_match, MatchInfo, MatrixBasedReachMapper};
use crate::chunks::mapping::{
    chunk_specs, covers, greedy_chunks, lemma_whole_match_is_referenced, matches_of, ChunkMapper,
};
use crate::chunks::mapping::reach_utils::common_run;
use crate::chunks::storage::{
    elems_readable, image_elems, key_elems, lemma_data_round_trip, stored, widths_bytes, widths_round_trip,
    widths_usable, key_widths, ChunkInfoWidths, ChunksReader, ChunksWriter,
};
use crate::chunks::storage::utils::{reference_record, rest_of};
use crate::chunks::{ChunkIndex, ChunkInfo, ChunkSize};
use crate::cli::streams::{CompileStreams, ExtractStreams};
use crate::elems::{Elem, RuntimeElemIndexesMatrix};
use crate::error::StreamResult;
use crate::streams::traits::{
    overwritten, written_at, InputBinaryStream, InputElemStream, OutputBinaryStream,
    OutputElemStream, Stream,
};

verus! {

broadcast use vstd::std_specs::hash::group_hash_axioms;

/// Smallest reference worth storing: a reference no longer than the bytes
/// of a reference record is stored as literal elements.
pub open spec fn min_cap_of(w: ChunkInfoWidths) -> ChunkSize {
    ((w.is_literal + w.size + w.index + 7) / 8) as ChunkSize
}

/// Largest size the size field can hold.
pub open spec fn max_cap_of(w: ChunkInfoWidths) -> ChunkSize {
    (vstd::arithmetic::power2::pow2(w.size as nat) - 1) as ChunkSize
}

/// `key_after` is `key_before` with the widths and the records of `chunks`
/// written at `pos`: the chunks `data` is greedily mapped onto (see
/// `greedy_chunks`), given the best match of each position of the data in
/// `image`, with references longer than `min_cap_of` and no longer than
/// `max_cap_of` the widths; they stand exactly for the data.
pub open spec fn compiled_with<E: Elem>(
    w: ChunkInfoWidths,
    chunks: Seq<ChunkInfo<E>>,
    matches: spec_fn(int) -> MatchInfo,
    image: Seq<E>,
    data: Seq<E>,
    key_before: Seq<u8>,
    pos: int,
    key_after: Seq<u8>,
) -> bool {
    &&& forall|i: int| 0 <= i < data.len() ==> #[trigger] best_match(image, data, i, matches(i))
    &&& chunk_specs(chunks) == greedy_chunks(
        matches,
        data,
        0,
        0,
        Some(min_cap_of(w)),
        Some(max_cap_of(w)),
    )
    &&& covers(chunks, data, image, data.len() as int, Some(min_cap_of(w)), Some(max_cap_of(w)))
    &&& stored(w, chunks, Seq::empty()) is Some
    &&& 0 <= pos ==> key_after == written_at(
        key_before,
        pos,
        widths_bytes(w) + stored(w, chunks, Seq::empty())->0,
        0u8,
    )
}

/// `chunks` is a mapping of `data` onto `image` that compiling may take: the
/// greedy mapping (see `greedy_chunks`) given a best match `matches(i)` of
/// each position `i` of the data, with references longer than `min_cap_of`
/// and no longer than `max_cap_of` the widths.
pub open spec fn mapped_with<E: Elem>(
    w: ChunkInfoWidths,
    chunks: Seq<ChunkInfo<E>>,
    matches: spec_fn(int) -> MatchInfo,
    image: Seq<E>,
    data: Seq<E>,
) -> bool {
    &&& forall|i: int| 0 <= i < data.len() ==> #[trigger] best_match(image, data, i, matches(i))
    &&& chunk_specs(chunks) == greedy_chunks(
        matches,
        data,
        0,
        0,
        Some(min_cap_of(w)),
        Some(max_cap_of(w)),
    )
    &&& covers(chunks, data, image, data.len() as int, Some(min_cap_of(w)), Some(max_cap_of(w)))
}

/// Whatever mapping compiling takes, its records fit the widths, and the
/// key (widths and records) written from `pos` ends no further than `limit`.
pub open spec fn key_fits<E: Elem>(w: ChunkInfoWidths, image: Seq<E>, data: Seq<E>, pos: int, limit: int) -> bool {
    forall|chunks: Seq<ChunkInfo<E>>, matches: spec_fn(int) -> MatchInfo|
        #[trigger] mapped_with(w, chunks, matches, image, data) ==> {
            &&& stored(w, chunks, Seq::empty()) is Some
            &&& pos + 3 + stored(w, chunks, Seq::empty())->0.len() <= limit
        }
}

/// Compiling succeeds on `s`: its input streams are reliable, hold whole
/// elements and can be read through, and its key stream is reliable, with
/// room for the key.
pub open spec fn compile_ok<E: Elem, In: InputElemStream<E>, Out: OutputBinaryStream>(
    w: ChunkInfoWidths,
    s: CompileStreams<E, In, Out>,
) -> bool {
    &&& s.in_img.reliable()
    &&& s.in_img.whole()
    &&& s.in_img.content().len() <= s.in_img.limit()
    &&& s.in_data.reliable()
    &&& s.in_data.whole()
    &&& s.in_data.content().len() <= s.in_data.limit()
    &&& s.out_key.reliable()
    &&& 0 <= s.out_key.position()
    &&& key_fits(w, s.in_img.content(), s.in_data.content(), s.out_key.position(), s.out_key.limit())
}

/// The key of `after` was compiled from the streams of `before`: written
/// with records of chunks that stand exactly for the data over the image.
pub open spec fn compiled<E: Elem, In: InputElemStream<E>, Out: OutputBinaryStream>(
    w: ChunkInfoWidths,
    before: CompileStreams<E, In, Out>,
    after: CompileStreams<E, In, Out>,
) -> bool {
    exists|chunks: Seq<ChunkInfo<E>>, matches: spec_fn(int) -> MatchInfo|
        #[trigger] compiled_with(
            w,
            chunks,
            matches,
            before.in_img.content(),
            before.in_data.content(),
            before.out_key.content(),
            before.out_key.position(),
            after.out_key.content(),
        )
}

/// Compiling for one set of streams: the data is mapped onto chunks of the
/// image, and the chunks are written into the key.
fn compile_one<E: Elem, In: InputElemStream<E>, Out: OutputBinaryStream>(
    widths: &ChunkInfoWidths,
    streams: &mut CompileStreams<E, In, Out>,
) -> (r: StreamResult<()>)
    requires
        1 <= widths.size < 64,
    ensures
        r is Ok ==> compiled(*widths, *old(streams), *final(streams)),
        compile_ok(*widths, *old(streams)) ==> r is Ok,
        final(streams).out_img == old(streams).out_img,
{
    // cap minimum reference chunk size by size of fields sum (reference chunk size)
    // cap maximum reference chunk size by maximum representable chunk size
    let min_cap = widths.total_size_bytes();
    let max_cap = widths.max_size();
    proof {
        vstd::arithmetic::power2::lemma_pow2_pos(widths.size as nat);
        if widths.size >= 1 {
            vstd::arithmetic::power2::lemma_pow2_strictly_increases(0, widths.size as nat);
            vstd::arithmetic::power2::lemma2_to64();
        }
    }
    let ghost image = streams.in_img.content();
    let ghost data = streams.in_data.content();
    let ghost key0 = streams.out_key.content();
    let ghost pos0 = streams.out_key.position();
    let mut img_matrix = RuntimeElemIndexesMatrix::<E, ChunkIndex>::new();
    let mut reach = MatrixBasedReachMapper::new(&mut streams.in_img, &mut streams.in_data, &mut img_matrix)?;
    let ghost matches = matches_of(reach);

    let mut mapper = ChunkMapper::new(&mut reach);
    let chunks = mapper.map_chunks(Some(min_cap), Some(max_cap))?;
    proof {
        if compile_ok(*widths, *old(streams)) {
            assert(mapped_with(*widths, chunks@, matches, image, data));
        }
    }
    let mut writer = ChunksWriter::new(*widths, chunks.as_slice(), &mut streams.out_key);
    writer.write()?;
    proof {
        assert(compiled_with(*widths, chunks@, matches, image, data, key0, pos0, streams.out_key.content()));
    }
    Ok(())
}

/// Callback function which performs compile operation.
///
/// * `widths` - Field widths used in key storage.
/// * `streams` - Input & output streams to perform compile operation on.
///
/// Returns error if occurred.
pub fn compile<E: Elem, In: InputElemStream<E>, Out: OutputBinaryStream>(
    widths: &ChunkInfoWidths,
    streams: &mut [CompileStreams<E, In, Out>],
) -> (r: StreamResult<()>)
    requires
        1 <= widths.size < 64,
    ensures
        final(streams)@.len() == old(streams)@.len(),
        r is Ok ==> forall|i: int|
            0 <= i < old(streams)@.len() ==> #[trigger] compiled(*widths, old(streams)@[i], final(streams)@[i]),
        (forall|i: int| 0 <= i < old(streams)@.len() ==> #[trigger] compile_ok(*widths, old(streams)@[i]))
            ==> r is Ok,
        forall|i: int| 0 <= i < old(streams)@.len() ==> #[trigger] final(streams)@[i].out_img == old(streams)@[i].out_img,
{
    let mut i: usize = 0;
    while i < streams.len()
        invariant
            streams@.len() == old(streams)@.len(),
            1 <= widths.size < 64,
            0 <= i <= streams@.len(),
            forall|j: int| i <= j < streams@.len() ==> #[trigger] streams@[j] == old(streams)@[j],
            forall|j: int| 0 <= j < i ==> #[trigger] compiled(*widths, old(streams)@[j], streams@[j]),
            forall|j: int| 0 <= j < streams@.len() ==> #[trigger] streams@[j].out_img == old(streams)@[j].out_img,
        decreases streams@.len() - i,
    {
        compile_one(widths, &mut streams[i])?;
        i = i + 1;
    }
    Ok(())
}

/// Data found whole in the image is compiled into one reference record: when
/// the data occurs as a run of the image, is longer than the bytes of a
/// reference record (`min_cap_of`) and no longer than the largest size the
/// size field holds (`2^size - 1`), the chunks compiled are a single reference
/// to the whole data, at the start of its best match in the image, and the
/// key is the widths followed by that one reference record.
pub proof fn lemma_whole_match_compiles_to_one_reference<E: Elem>(
    w: ChunkInfoWidths,
    chunks: Seq<ChunkInfo<E>>,
    matches: spec_fn(int) -> MatchInfo,
    image: Seq<E>,
    data: Seq<E>,
    key_before: Seq<u8>,
    pos: int,
    key_after: Seq<u8>,
    src: int,
)
    requires
        1 <= w.size < 64,
        compiled_with(w, chunks, matches, image, data, key_before, pos, key_after),
        common_run(image, data, src, 0, data.len() as int),
        min_cap_of(w) < data.len() <= vstd::arithmetic::power2::pow2(w.size as nat) - 1,
    ensures
        chunks == seq![ChunkInfo::<E>::Reference { index: matches(0).src_start, size: data.len() as ChunkSize }],
        0 <= pos ==> key_after == written_at(
            key_before,
            pos,
            widths_bytes(w) + reference_record(w, matches(0).src_start as int, data.len() as int),
            0u8,
        ),
{
    let n = data.len() as int;
    assert(min_cap_of(w) >= 1);
    assert(best_match(image, data, 0, matches(0)));
    if w.size < 63 {
        vstd::arithmetic::power2::lemma_pow2_strictly_increases(w.size as nat, 63);
    }
    vstd::arithmetic::power2::lemma2_to64_rest();
    assert(max_cap_of(w) == vstd::arithmetic::power2::pow2(w.size as nat) - 1);
    lemma_whole_match_is_referenced(
        matches,
        image,
        data,
        src,
        Some(min_cap_of(w)),
        Some(max_cap_of(w)),
    );
    let specs = chunk_specs(chunks);
    assert(specs.len() == 1);
    assert(specs[0] == crate::chunks::chunk_spec(chunks[0]));
    let c = ChunkInfo::<E>::Reference { index: matches(0).src_start, size: n as ChunkSize };
    assert(chunks[0] == c) by {
        match chunks[0] {
            ChunkInfo::Reference { index, size } => {},
            ChunkInfo::Literal(elems) => {},
        }
    }
    assert(chunks =~= seq![c]);
    let rec = reference_record(w, matches(0).src_start as int, n);
    let none: Seq<E> = Seq::empty();
    assert(chunks.drop_first() =~= Seq::<ChunkInfo<E>>::empty());
    assert(crate::chunks::storage::flushed_record::<E>(w, none) =~= Seq::<u8>::empty());
    assert(stored(w, chunks, none) == crate::chunks::storage::prepend(
        crate::chunks::storage::flushed_record::<E>(w, none) + rec,
        stored(w, Seq::<ChunkInfo<E>>::empty(), none),
    ));
    assert(stored(w, Seq::<ChunkInfo<E>>::empty(), none) == Some(Seq::<u8>::empty()));
    assert(crate::chunks::storage::flushed_record::<E>(w, none) + rec + Seq::<u8>::empty() =~= rec);
}

/// Compiling then extracting gives back the data: a key compiled (from its
/// end, or from beyond it) with widths with which a key can be read back
/// starts with those widths, and its records extract, over the same image,
/// to the data it was compiled from.
pub proof fn lemma_compiled_key_extracts<E: Elem>(
    w: ChunkInfoWidths,
    chunks: Seq<ChunkInfo<E>>,
    matches: spec_fn(int) -> MatchInfo,
    image: Seq<E>,
    data: Seq<E>,
    key_before: Seq<u8>,
    pos: int,
    key_after: Seq<u8>,
)
    requires
        widths_round_trip(w),
        compiled_with(w, chunks, matches, image, data, key_before, pos, key_after),
        key_before.len() <= pos,
    ensures
        rest_of(key_after, pos).take(3) == widths_bytes(w),
        key_elems::<E>(w, rest_of(key_after, pos + 3), image) == Some(data),
{
    let b = stored(w, chunks, Seq::empty())->0;
    lemma_data_round_trip(w, chunks, data, image, Some(min_cap_of(w)), Some(max_cap_of(w)));
    let all = widths_bytes(w) + b;
    assert(key_after.len() == pos + all.len());
    assert(rest_of(key_after, pos) =~= all);
    assert(rest_of(key_after, pos).take(3) =~= widths_bytes(w));
    assert(rest_of(key_after, pos + 3) =~= b);
}

/// Compiling then extracting gives back the data: after a compile that
/// succeeded on a key stream written from its end (or from beyond it), with
/// widths with which a key can be read back, the key starts, at the position
/// compiling started from, with the widths, and its records extract, over the
/// image compiled with, to the data compiled.
pub proof fn lemma_compile_then_extract<E: Elem, In: InputElemStream<E>, Out: OutputBinaryStream>(
    w: ChunkInfoWidths,
    before: CompileStreams<E, In, Out>,
    after: CompileStreams<E, In, Out>,
)
    requires
        widths_round_trip(w),
        compiled(w, before, after),
        before.out_key.content().len() <= before.out_key.position(),
    ensures
        rest_of(after.out_key.content(), before.out_key.position()).take(3) == widths_bytes(w),
        rest_of(after.out_key.content(), before.out_key.position()).len() >= 3,
        key_widths(rest_of(after.out_key.content(), before.out_key.position())) == w,
        key_elems::<E>(
            w,
            rest_of(after.out_key.content(), before.out_key.position() + 3),
            before.in_img.content(),
        ) == Some(before.in_data.content()),
{
    let (chunks, matches) = choose|chunks: Seq<ChunkInfo<E>>, matches: spec_fn(int) -> MatchInfo|
        #[trigger] compiled_with(
            w,
            chunks,
            matches,
            before.in_img.content(),
            before.in_data.content(),
            before.out_key.content(),
            before.out_key.position(),
            after.out_key.content(),
        );
    lemma_compiled_key_extracts(
        w,
        chunks,
        matches,
        before.in_img.content(),
        before.in_data.content(),
        before.out_key.content(),
        before.out_key.position(),
        after.out_key.content(),
    );
}

/// Callback function which performs extract operation: records are read
/// with the widths the key starts with.
///
/// * `streams` - Input & output streams to perform extract operation on.
///
/// Returns error if occurred.
pub fn extract<E: Elem, In: InputBinaryStream, Out: OutputElemStream<E>>(
    streams: &mut ExtractStreams<E, In, Out>,
) -> (r: StreamResult<()>)
    requires
        rest_of(old(streams).in_key.content(), old(streams).in_key.position()).len() >= 3 ==> widths_usable(
            key_widths(rest_of(old(streams).in_key.content(), old(streams).in_key.position())),
        ),
    ensures
        ({
            let key = rest_of(old(streams).in_key.content(), old(streams).in_key.position());
            let records = rest_of(old(streams).in_key.content(), old(streams).in_key.position() + 3);
            let image = image_elems::<E>(old(streams).in_img.content(), old(streams).in_img.position());
            let out = key_elems::<E>(key_widths(key), records, image);
            let out0 = old(streams).out_data.content();
            let p0 = old(streams).out_data.position();
            &&& key.len() < 3 ==> r is Err
            &&& out is None ==> r is Err
            &&& r is Ok ==> key.len() >= 3 && out is Some && final(streams).out_data.position() == p0
                + out->0.len()
            &&& r is Ok && 0 <= p0 <= out0.len() ==> final(streams).out_data.content() == overwritten(
                out0,
                p0,
                out->0,
            )
            &&& old(streams).in_key.reliable() && old(streams).in_key.content().len() <= old(
                streams,
            ).in_key.limit() && 0 <= old(streams).in_key.position() && key.len() >= 3 && elems_readable::<
                E,
                In,
            >(old(streams).in_img) && old(streams).out_data.reliable() && out is Some && p0 + out->0.len()
                <= old(streams).out_data.limit() ==> r is Ok
        }),
{
    let unread = ChunkInfoWidths { is_literal: 0, size: 0, index: 0 };
    let mut reader = ChunksReader::new(unread, &mut streams.in_img, &mut streams.in_key, &mut streams.out_data);
    reader.extract_all()
}

} // verus!
