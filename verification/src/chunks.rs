//! Chunks: the pieces data is mapped onto, each either referencing a run of
//! image elements or carrying its elements literally.
use vstd::prelude::*;

pub mod mapping;
pub mod storage;

verus! {

/// Represents an index used by a chunk (to reference an element).
pub type ChunkIndex = i64;

/// Represents a chunk's (elemental) size.
pub type ChunkSize = i64;

/// Holds information about a chunk within a key.
///
/// * `E` - Element type.
#[derive(Debug, PartialEq, Eq)]
pub enum ChunkInfo<E> {
    /// A chunk that references `size` elements of the image from `index` on.
    Reference { index: ChunkIndex, size: ChunkSize },
    /// A chunk that is provided as a direct sequence of literals.
    Literal(Vec<E>),
}

/// A chunk as contracts see it: a reference to a run of the image, or
/// literal elements.
pub ghost enum ChunkSpec<E> {
    Reference { index: int, size: int },
    Literal(Seq<E>),
}

/// What a chunk is, as contracts see it.
pub open spec fn chunk_spec<E>(c: ChunkInfo<E>) -> ChunkSpec<E> {
    match c {
        ChunkInfo::Reference { index, size } => ChunkSpec::Reference { index: index as int, size: size as int },
        ChunkInfo::Literal(elems) => ChunkSpec::Literal(elems@),
    }
}

/// Elements a chunk stands for, given the image's elements.
pub open spec fn chunk_elems<E>(c: ChunkInfo<E>, image: Seq<E>) -> Seq<E> {
    match c {
        ChunkInfo::Reference { index, size } => image.subrange(index as int, index + size),
        ChunkInfo::Literal(elems) => elems@,
    }
}

/// Amount of elements a chunk stands for.
pub open spec fn chunk_len<E>(c: ChunkInfo<E>) -> int {
    match c {
        ChunkInfo::Reference { size, .. } => size as int,
        ChunkInfo::Literal(elems) => elems@.len() as int,
    }
}

/// The chunk is non-empty and, when it references the image, stays within it.
pub open spec fn chunk_valid<E>(c: ChunkInfo<E>, image_len: int) -> bool {
    match c {
        ChunkInfo::Reference { index, size } => 0 <= index && 1 <= size && index + size <= image_len,
        ChunkInfo::Literal(elems) => elems@.len() >= 1,
    }
}

/// Elements a sequence of chunks stands for, given the image's elements.
pub open spec fn expand<E>(chunks: Seq<ChunkInfo<E>>, image: Seq<E>) -> Seq<E>
    decreases chunks.len(),
{
    if chunks.len() == 0 {
        Seq::empty()
    } else {
        expand(chunks.drop_last(), image) + chunk_elems(chunks.last(), image)
    }
}

/// Total amount of elements a sequence of chunks stands for.
pub open spec fn total_len<E>(chunks: Seq<ChunkInfo<E>>) -> int
    decreases chunks.len(),
{
    if chunks.len() == 0 {
        0
    } else {
        total_len(chunks.drop_last()) + chunk_len(chunks.last())
    }
}

/// The expansion of valid chunks is as long as the chunks' sizes add up to.
pub proof fn lemma_expand_len<E>(chunks: Seq<ChunkInfo<E>>, image: Seq<E>)
    requires
        forall|k: int| 0 <= k < chunks.len() ==> chunk_valid(#[trigger] chunks[k], image.len() as int),
    ensures
        expand(chunks, image).len() == total_len(chunks),
    decreases chunks.len(),
{
    if chunks.len() > 0 {
        let init = chunks.drop_last();
        assert forall|k: int| 0 <= k < init.len() implies chunk_valid(#[trigger] init[k], image.len() as int) by {
            assert(init[k] == chunks[k]);
        }
        lemma_expand_len(init, image);
    }
}

/// Expanding chunks one after the other.
pub proof fn lemma_expand_push<E>(chunks: Seq<ChunkInfo<E>>, c: ChunkInfo<E>, image: Seq<E>)
    ensures
        expand(chunks.push(c), image) == expand(chunks, image) + chunk_elems(c, image),
        total_len(chunks.push(c)) == total_len(chunks) + chunk_len(c),
{
    assert(chunks.push(c).drop_last() =~= chunks);
}

/// Expanding chunks from the first one on.
pub proof fn lemma_expand_first<E>(chunks: Seq<ChunkInfo<E>>, image: Seq<E>)
    requires
        chunks.len() > 0,
    ensures
        expand(chunks, image) == chunk_elems(chunks[0], image) + expand(chunks.drop_first(), image),
    decreases chunks.len(),
{
    if chunks.len() == 1 {
        assert(chunks.drop_last() =~= Seq::<ChunkInfo<E>>::empty());
        assert(chunks.drop_first() =~= Seq::<ChunkInfo<E>>::empty());
        assert(expand(chunks, image) =~= chunk_elems(chunks[0], image));
        assert(chunk_elems(chunks[0], image) + expand(chunks.drop_first(), image) =~= chunk_elems(
            chunks[0],
            image,
        ));
    } else {
        let init = chunks.drop_last();
        lemma_expand_first(init, image);
        assert(init.drop_first() =~= chunks.drop_first().drop_last());
        assert(init[0] == chunks[0]);
        assert(chunks.drop_first().last() == chunks.last());
        assert(expand(chunks, image) =~= chunk_elems(chunks[0], image) + expand(chunks.drop_first(), image));
    }
}

} // verus!
