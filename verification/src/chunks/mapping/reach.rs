//! Reach mapping: for each position of the data, the furthest position a run
//! of elements that also occurs in the image can reach.
use vstd::prelude::*;

use crate::chunks::mapping::reach_utils::{
    self, chained, common_run, is_bigram_matrix, lemma_chained_iff_common, lemma_chained_prefix,
    link, path_starts, slots_bounded, Path,
};
use crate::chunks::{ChunkIndex, ChunkSize};
use crate::elems::{Elem, ElemIndexesMatrix};
use crate::error::{ErrorKind, StreamError, StreamResult};
use crate::streams::traits::{InputElemStream, Stream};

verus! {

/// For a match starting at some position `data_start` in the data:
/// `image[src_start + t] == data[data_start + t]` for all `t` in `0..(reach - data_start)`.
#[derive(Clone, Copy, Debug, PartialEq, Eq)]
pub struct MatchInfo {
    /// Furthest position in `data` this match covers.
    pub reach: ChunkIndex,
    /// Where in `image` this match starts.
    pub src_start: ChunkIndex,
}

/// `m` is a match of the data starting at `start`: it reaches no further than
/// the data's end, and the elements it covers occur in the image from
/// `m.src_start` on.
pub open spec fn valid_match<E>(data: Seq<E>, image: Seq<E>, start: int, m: MatchInfo) -> bool {
    &&& start <= m.reach <= data.len()
    &&& m.reach > start ==> {
        &&& 0 <= m.src_start
        &&& m.src_start + (m.reach - start) <= image.len()
        &&& image.subrange(m.src_start as int, m.src_start + (m.reach - start)) == data.subrange(
            start,
            m.reach as int,
        )
    }
}

/// `m` is the best match of the data starting at `start`: a valid match
/// whose length is the greatest length (of two elements or more) of a run
/// the image and the data have in common from there; without such a run, it
/// covers nothing and starts at `start`.
pub open spec fn best_match<E>(image: Seq<E>, data: Seq<E>, start: int, m: MatchInfo) -> bool {
    &&& valid_match(data, image, start, m)
    &&& m.reach > start ==> m.reach - start >= 2
    &&& m.reach == start ==> m.src_start == start
    &&& forall|k: int, len: int|
        2 <= len && #[trigger] common_run(image, data, k, start, len) ==> len <= m.reach - start
}

/// Abstraction of reach mapping: a mapping between an index in the input data
/// and the furthest index that can be reached in the data such that the chunk
/// formed between the two indexes exists in the input image.
///
/// * `E` - Element type.
pub trait ReachMapper<E: Elem> {
    /// The mapper is well formed: what it maps agrees with its streams.
    spec fn inv(&self) -> bool;

    /// Elements of the input data.
    spec fn data(&self) -> Seq<E>;

    /// Elements of the input image.
    spec fn image(&self) -> Seq<E>;

    /// Best match starting exactly at data position `index`.
    spec fn match_at(&self, index: int) -> MatchInfo;

    /// What the mapper reads from never fails.
    spec fn reliable(&self) -> bool;

    /// A well-formed mapper's image has a chunk index for each of its elements.
    proof fn lemma_image_len(&self)
        requires
            self.inv(),
        ensures
            self.image().len() <= ChunkIndex::MAX,
    ;

    /// Gets the amount of indexes mapped (the data's length).
    fn len(&self) -> (r: StreamResult<ChunkIndex>)
        requires
            self.inv(),
        ensures
            r matches Ok(n) ==> n == self.data().len(),
            self.reliable() ==> r is Ok,
    ;

    /// Gets the best match found starting exactly at data position `index`.
    fn get(&self, index: ChunkIndex) -> (r: StreamResult<MatchInfo>)
        requires
            self.inv(),
            0 <= index < self.data().len(),
        ensures
            r matches Ok(m) ==> m == self.match_at(index as int) && valid_match(
                self.data(),
                self.image(),
                index as int,
                m,
            ),
            self.reliable() ==> r is Ok,
    ;

    /// Gets `count` elements of the data from `start` on.
    fn get_elems(&mut self, start: ChunkIndex, count: ChunkSize) -> (r: StreamResult<Vec<E>>)
        requires
            old(self).inv(),
            0 <= start,
            0 <= count,
            start + count <= old(self).data().len(),
        ensures
            r is Ok ==> {
                &&& final(self).inv()
                &&& final(self).data() == old(self).data()
                &&& final(self).image() == old(self).image()
                &&& forall|k: int| #[trigger] final(self).match_at(k) == old(self).match_at(k)
            },
            r matches Ok(v) ==> v@ == old(self).data().subrange(start as int, start + count),
            old(self).reliable() ==> r is Ok,
            r is Ok && old(self).reliable() ==> final(self).reliable(),
    ;
}

/// The match made of the longest path found from `start` (no match without one).
pub open spec fn match_of_path(start: int, found: Option<Path>) -> MatchInfo {
    match found {
        Some(p) => MatchInfo { reach: (start + p.len) as ChunkIndex, src_start: p.src_start },
        None => MatchInfo { reach: start as ChunkIndex, src_start: start as ChunkIndex },
    }
}

/// The bigram positions of an image are non-negative and below `ChunkIndex::MAX`.
proof fn lemma_bigram_matrix_bounded<E: Elem, M: ElemIndexesMatrix<E, ChunkIndex>>(
    matrix: M,
    image: Seq<E>,
)
    requires
        is_bigram_matrix(matrix, image),
    ensures
        slots_bounded(matrix),
{
    assert forall|a: E, b: E, x: ChunkIndex| #[trigger] matrix.slot_indexes(a, b).contains(x) implies 0
        <= x < ChunkIndex::MAX by {
        assert(matrix.slot_indexes(a, b) == reach_utils::bigram_positions(image, a, b));
    }
}

/// The longest of the paths that start where the data's next two elements
/// occur in the image makes the best match.
proof fn lemma_best_from_paths<E: Elem, M: ElemIndexesMatrix<E, ChunkIndex>>(
    matrix: M,
    image: Seq<E>,
    data: Seq<E>,
    start: int,
    paths: Seq<Path>,
    found: Option<Path>,
)
    requires
        is_bigram_matrix(matrix, image),
        0 <= start < data.len() <= ChunkIndex::MAX,
        forall|t: int| 0 <= t < paths.len() ==> (#[trigger] paths[t]).len == 2,
        path_starts(paths) == if start + 1 < data.len() {
            matrix.slot_indexes(data[start], data[start + 1])
        } else {
            Set::<ChunkIndex>::empty()
        },
        found is None ==> paths.len() == 0,
        found matches Some(p) ==> {
            &&& exists|t: int|
                0 <= t < paths.len() && (#[trigger] paths[t]).src_start == p.src_start
                    && paths[t].len <= p.len
            &&& chained(matrix, data, start, p.src_start as int, p.len as int)
            &&& forall|t: int, len: int|
                0 <= t < paths.len() && #[trigger] chained(
                    matrix,
                    data,
                    start,
                    (#[trigger] paths[t]).src_start as int,
                    len,
                ) ==> len <= p.len
        },
    ensures
        best_match(image, data, start, match_of_path(start, found)),
{
    let m = match_of_path(start, found);
    if let Some(p) = found {
        let t = choose|t: int|
            0 <= t < paths.len() && (#[trigger] paths[t]).src_start == p.src_start && paths[t].len <= p.len;
        assert(paths[t].len == 2);
        lemma_chained_iff_common(matrix, image, data, start, p.src_start as int, p.len as int);
    }
    assert forall|k: int, len: int| 2 <= len && #[trigger] common_run(image, data, k, start, len) implies len
        <= m.reach - start by {
        lemma_chained_iff_common(matrix, image, data, start, k, len);
        lemma_chained_prefix(matrix, data, start, k, len, 2);
        assert(link(matrix, data, start, k, 0));
        let ks = k as ChunkIndex;
        assert(path_starts(paths).contains(ks));
        let srcs = paths.map_values(|q: Path| q.src_start);
        assert(srcs.contains(ks));
        let t = choose|t: int| 0 <= t < srcs.len() && srcs[t] == ks;
        assert(paths[t].src_start == ks);
        assert(chained(matrix, data, start, paths[t].src_start as int, len));
    }
}

/// `ReachMapper` implementation that is based on a matrix of index sets,
/// mapped by elements: slot i,j of the matrix holds all indexes of the input
/// image where element i is followed by element j.
///
/// * `E` - Element type.
/// * `ImageStream` - Type of stream used to read the input image.
/// * `DataStream` - Type of stream used to read the input data.
/// * `M` - An implementation of `ElemIndexesMatrix`, used for storing indexes in a matrix as stated above.
pub struct MatrixBasedReachMapper<'a, 'b, 'c, E, ImageStream, DataStream, M> {
    /// Best match of each position of the data.
    pub reach: Vec<MatchInfo>,
    /// Stream of the input image.
    pub image: &'a mut ImageStream,
    /// Stream of the input data.
    pub data: &'b mut DataStream,
    /// Matrix of the image's bigram positions: slot i,j holds the indexes of
    /// the image where element i is followed by element j.
    pub img_matrix: &'c mut M,
    pub phantom: core::marker::PhantomData<E>,
}

impl<
    'a,
    'b,
    'c,
    E: Elem,
    ImageStream: InputElemStream<E>,
    DataStream: InputElemStream<E>,
    M: ElemIndexesMatrix<E, ChunkIndex>,
> MatrixBasedReachMapper<'a, 'b, 'c, E, ImageStream, DataStream, M> {
    /// Constructs a new instance, mapping each position of the data to its
    /// best match in the image.
    ///
    /// * `image` - Stream used to read the input image.
    /// * `data` - Stream used to read the input data.
    /// * `img_matrix` - Matrix instance to use for mapping (its slots must be empty).
    ///
    /// Returns constructed instance, or error if occurred.
    pub fn new(image: &'a mut ImageStream, data: &'b mut DataStream, img_matrix: &'c mut M) -> (r:
        StreamResult<Self>)
        requires
            forall|a: E, b: E| #[trigger] old(img_matrix).slot_indexes(a, b) == Set::<ChunkIndex>::empty(),
        ensures
            r matches Ok(m) ==> {
                &&& m.inv()
                &&& m.image() == old(image).content()
                &&& m.data() == old(data).content()
                &&& forall|i: int|
                    0 <= i < m.data().len() ==> #[trigger] best_match(m.image(), m.data(), i, m.match_at(i))
            },
            old(image).reliable() && old(image).whole() && old(image).content().len() <= old(image).limit() && old(
                data,
            ).reliable() && old(data).whole() && old(data).content().len() <= old(data).limit() && old(img_matrix).reliable() ==> (r matches Ok(
                m,
            ) && m.reliable()),
            r matches Ok(m) ==> is_bigram_matrix(*m.img_matrix, old(image).content()),
            r matches Ok(m) ==> *final(m.img_matrix) == *final(img_matrix),
            r matches Ok(m) ==> *final(m.image) == *final(image),
            r matches Ok(m) ==> *final(m.data) == *final(data),
    {
        let mut res = Self {
            reach: Vec::new(),
            image,
            data,
            img_matrix,
            phantom: core::marker::PhantomData,
        };
        res.init_img_matrix()?;
        res.init_reach()?;
        Ok(res)
    }

    /// Initializes the internal matrix such that every slot i,j holds all
    /// indexes of the input image where element i is followed by element j.
    ///
    /// Returns error if occurred.
    fn init_img_matrix(&mut self) -> (r: StreamResult<()>)
        requires
            forall|a: E, b: E| #[trigger] old(self).img_matrix.slot_indexes(a, b) == Set::<ChunkIndex>::empty(),
        ensures
            *final(final(self).img_matrix) == *final(old(self).img_matrix),
            *final(final(self).image) == *final(old(self).image),
            *final(final(self).data) == *final(old(self).data),
            r is Ok ==> old(self).image.content().len() <= ChunkIndex::MAX,
            r is Ok ==> {
                &&& final(self).image.content() == old(self).image.content()
                &&& final(self).data.content() == old(self).data.content()
                &&& is_bigram_matrix(*final(self).img_matrix, old(self).image.content())
            },
            final(self).data == old(self).data,
            r is Ok && old(self).image.reliable() ==> final(self).image.reliable(),
            r is Ok && old(self).image.whole() ==> final(self).image.whole(),
            final(self).image.limit() == old(self).image.limit(),
            r is Ok && old(self).img_matrix.reliable() ==> final(self).img_matrix.reliable(),
            old(self).image.reliable() && old(self).image.whole() && old(self).image.content().len() <= old(self).image.limit() && old(
                self,
            ).img_matrix.reliable() ==> r is Ok,
    {
        reach_utils::init_img_matrix(&mut *self.image, &mut *self.img_matrix)
    }

    /// Initializes the reach vector based on the internal matrix (which must
    /// already be initialized): one best match per position of the data.
    ///
    /// Returns error if occurred.
    fn init_reach(&mut self) -> (r: StreamResult<()>)
        requires
            is_bigram_matrix(*old(self).img_matrix, old(self).image.content()),
            old(self).image.content().len() <= ChunkIndex::MAX,
        ensures
            *final(final(self).img_matrix) == *final(old(self).img_matrix),
            *final(final(self).image) == *final(old(self).image),
            *final(final(self).data) == *final(old(self).data),
            r is Ok ==> {
                &&& final(self).inv()
                &&& final(self).image.content() == old(self).image.content()
                &&& final(self).data.content() == old(self).data.content()
            },
            r is Ok && old(self).data.reliable() ==> final(self).data.reliable(),
            r is Ok && old(self).data.whole() ==> final(self).data.whole(),
            final(self).data.limit() == old(self).data.limit(),
            old(self).data.reliable() && old(self).data.whole() && old(self).data.content().len() <= old(self).data.limit() && old(
                self,
            ).image.reliable() && old(self).img_matrix.reliable() ==> r is Ok,
            r is Ok ==> is_bigram_matrix(*final(self).img_matrix, old(self).image.content()),
            final(self).img_matrix == old(self).img_matrix,
    {
        let size = self.data.get_size()?;
        self.data.rewind()?;
        self.image.rewind()?;
        self.reach = Vec::new();
        let ghost image = self.image.content();
        let ghost data = self.data.content();
        let mut data_start: ChunkIndex = 0;
        while data_start < size
            invariant
                image == old(self).image.content(),
                data == old(self).data.content(),
                self.image.content() == image,
                self.data.content() == data,
                size == data.len(),
                is_bigram_matrix(*self.img_matrix, image),
                0 <= data_start <= size,
                self.reach@.len() == data_start,
                forall|i: int| 0 <= i < data_start ==> #[trigger] best_match(image, data, i, self.reach@[i]),
                old(self).data.reliable() ==> self.data.reliable(),
                old(self).data.whole() ==> self.data.whole(),
                self.data.limit() == old(self).data.limit(),
                old(self).img_matrix.reliable() ==> self.img_matrix.reliable(),
                self.img_matrix == old(self).img_matrix,
                *final(self.image) == *final(old(self).image),
                *final(self.data) == *final(old(self).data),
            decreases size - data_start,
        {
            let ghost before = self.reach@;
            self.init_reach_for(data_start)?;
            proof {
                assert forall|i: int| 0 <= i < data_start + 1 implies #[trigger] best_match(
                    image,
                    data,
                    i,
                    self.reach@[i],
                ) by {
                    if i < data_start {
                        assert(self.reach@.take(data_start as int)[i] == before[i]);
                    }
                }
            }
            data_start = data_start + 1;
        }
        Ok(())
    }

    /// Initializes the best match of position `data_start` of the data (the
    /// positions before it are already mapped).
    ///
    /// Returns error if occurred.
    fn init_reach_for(&mut self, data_start: ChunkIndex) -> (r: StreamResult<()>)
        requires
            is_bigram_matrix(*old(self).img_matrix, old(self).image.content()),
            0 <= data_start < old(self).data.content().len() <= ChunkIndex::MAX,
            old(self).reach@.len() == data_start,
        ensures
            final(self).img_matrix == old(self).img_matrix,
            *final(final(self).image) == *final(old(self).image),
            *final(final(self).data) == *final(old(self).data),
            r is Ok ==> {
                &&& final(self).image.content() == old(self).image.content()
                &&& final(self).data.content() == old(self).data.content()
                &&& *final(self).img_matrix == *old(self).img_matrix
                &&& final(self).reach@.len() == data_start + 1
                &&& final(self).reach@.take(data_start as int) == old(self).reach@
                &&& best_match(
                    old(self).image.content(),
                    old(self).data.content(),
                    data_start as int,
                    final(self).reach@[data_start as int],
                )
            },
            r is Ok && old(self).data.reliable() ==> final(self).data.reliable(),
            r is Ok && old(self).data.whole() ==> final(self).data.whole(),
            final(self).data.limit() == old(self).data.limit(),
            old(self).data.reliable() && old(self).data.whole() && old(self).data.content().len() <= old(self).data.limit() && old(
                self,
            ).img_matrix.reliable() ==> r is Ok,
    {
        proof {
            lemma_bigram_matrix_bounded(*self.img_matrix, self.image.content());
        }
        let ghost data = self.data.content();
        let paths = self.get_path_starts_vec(data_start)?;
        let ghost path_seq = paths@;
        proof {
            assert forall|t: int| 0 <= t < path_seq.len() implies chained(
                *self.img_matrix,
                data,
                data_start as int,
                (#[trigger] path_seq[t]).src_start as int,
                path_seq[t].len as int,
            ) by {
                let srcs = path_seq.map_values(|q: Path| q.src_start);
                assert(srcs[t] == path_seq[t].src_start);
                assert(path_starts(path_seq).contains(path_seq[t].src_start));
                assert(link(*self.img_matrix, data, data_start as int, path_seq[t].src_start as int, 0));
            }
        }
        let longest = self.walk_paths(data_start, paths)?;
        let m = match longest {
            Some(p) => MatchInfo { reach: data_start + p.len, src_start: p.src_start },
            None => MatchInfo { reach: data_start, src_start: data_start },
        };
        proof {
            lemma_best_from_paths(
                *self.img_matrix,
                self.image.content(),
                data,
                data_start as int,
                path_seq,
                longest,
            );
            assert(m == match_of_path(data_start as int, longest));
        }
        self.reach.push(m);
        proof {
            assert(self.reach@.take(data_start as int) =~= old(self).reach@);
        }
        Ok(())
    }

    /// For a given `data_start` index, gets all possible starts of paths
    /// common to data and image (see `reach_utils::get_path_starts_vec`).
    ///
    /// Returns vector of `Path`s, each of length two, or error if occurred.
    fn get_path_starts_vec(&mut self, data_start: ChunkIndex) -> (r: StreamResult<Vec<Path>>)
        requires
            0 <= data_start,
        ensures
            final(self).image == old(self).image,
            final(self).img_matrix == old(self).img_matrix,
            *final(final(self).data) == *final(old(self).data),
            final(self).reach == old(self).reach,
            r is Ok ==> final(self).data.content() == old(self).data.content(),
            r matches Ok(paths) ==> {
                &&& forall|t: int| 0 <= t < paths@.len() ==> (#[trigger] paths@[t]).len == 2
                &&& path_starts(paths@) == if data_start + 1 < old(self).data.content().len() {
                    old(self).img_matrix.slot_indexes(
                        old(self).data.content()[data_start as int],
                        old(self).data.content()[data_start + 1],
                    )
                } else {
                    Set::<ChunkIndex>::empty()
                }
            },
            r is Ok && old(self).data.reliable() ==> final(self).data.reliable(),
            r is Ok && old(self).data.whole() ==> final(self).data.whole(),
            final(self).data.limit() == old(self).data.limit(),
            old(self).data.reliable() && old(self).data.whole() && old(self).data.content().len() <= old(self).data.limit() && data_start
                <= old(self).data.content().len() && old(self).img_matrix.reliable() ==> r is Ok,
    {
        reach_utils::get_path_starts_vec(&mut *self.data, &*self.img_matrix, data_start)
    }

    /// Given a `data_start` index and starts of paths common to data and
    /// image, walks through full paths and finds the longest one (see
    /// `reach_utils::walk_paths`).
    ///
    /// Returns the longest path (or `None` if no paths were provided), or
    /// error if occurred.
    fn walk_paths(&mut self, data_start: ChunkIndex, paths: Vec<Path>) -> (r: StreamResult<Option<Path>>)
        requires
            slots_bounded(*old(self).img_matrix),
            old(self).data.content().len() <= ChunkIndex::MAX,
            forall|t: int|
                0 <= t < paths@.len() ==> chained(
                    *old(self).img_matrix,
                    old(self).data.content(),
                    data_start as int,
                    (#[trigger] paths@[t]).src_start as int,
                    paths@[t].len as int,
                ),
        ensures
            final(self).image == old(self).image,
            final(self).img_matrix == old(self).img_matrix,
            *final(final(self).data) == *final(old(self).data),
            final(self).reach == old(self).reach,
            r is Ok ==> final(self).data.content() == old(self).data.content(),
            r matches Ok(None) ==> paths@.len() == 0,
            r matches Ok(Some(p)) ==> {
                &&& exists|t: int|
                    0 <= t < paths@.len() && (#[trigger] paths@[t]).src_start == p.src_start
                        && paths@[t].len <= p.len
                &&& chained(
                    *old(self).img_matrix,
                    old(self).data.content(),
                    data_start as int,
                    p.src_start as int,
                    p.len as int,
                )
                &&& forall|t: int, len: int|
                    0 <= t < paths@.len() && #[trigger] chained(
                        *old(self).img_matrix,
                        old(self).data.content(),
                        data_start as int,
                        (#[trigger] paths@[t]).src_start as int,
                        len,
                    ) ==> len <= p.len
            },
            r is Ok && old(self).data.reliable() ==> final(self).data.reliable(),
            r is Ok && old(self).data.whole() ==> final(self).data.whole(),
            final(self).data.limit() == old(self).data.limit(),
            old(self).data.reliable() && old(self).data.whole() && old(self).data.content().len() <= old(self).data.limit() && old(
                self,
            ).img_matrix.reliable() ==> r is Ok,
    {
        reach_utils::walk_paths(&mut *self.data, &*self.img_matrix, data_start, paths)
    }
}

impl<
    'a,
    'b,
    'c,
    E: Elem,
    ImageStream: InputElemStream<E>,
    DataStream: InputElemStream<E>,
    M: ElemIndexesMatrix<E, ChunkIndex>,
> ReachMapper<E> for MatrixBasedReachMapper<'a, 'b, 'c, E, ImageStream, DataStream, M> {
    /// One best match per position of the data.
    closed spec fn inv(&self) -> bool {
        &&& self.reach@.len() == self.data.content().len()
        &&& self.data.content().len() <= ChunkIndex::MAX
        &&& self.image.content().len() <= ChunkIndex::MAX
        &&& forall|i: int|
            0 <= i < self.reach@.len() ==> #[trigger] best_match(
                self.image.content(),
                self.data.content(),
                i,
                self.reach@[i],
            )
    }

    open spec fn data(&self) -> Seq<E> {
        self.data.content()
    }

    open spec fn image(&self) -> Seq<E> {
        self.image.content()
    }

    closed spec fn match_at(&self, index: int) -> MatchInfo {
        self.reach@[index]
    }

    /// The data stream is reliable and can be read through to its end.
    closed spec fn reliable(&self) -> bool {
        self.data.reliable() && self.data.whole() && self.data.content().len() <= self.data.limit()
    }

    proof fn lemma_image_len(&self) {
    }

    fn len(&self) -> (r: StreamResult<ChunkIndex>)
        ensures
            r is Ok,
    {
        Ok(self.reach.len() as ChunkIndex)
    }

    fn get(&self, index: ChunkIndex) -> (r: StreamResult<MatchInfo>)
        ensures
            r is Ok,
    {
        assert(best_match(self.image.content(), self.data.content(), index as int, self.reach@[index as int]));
        let n = self.reach.len();
        assert(index < n);
        let m = self.reach[index as usize];
        Ok(m)
    }

    fn get_elems(&mut self, start: ChunkIndex, count: ChunkSize) -> (r: StreamResult<Vec<E>>)
        ensures
            final(self).img_matrix == old(self).img_matrix,
    {
        let ghost data = self.data.content();
        self.data.set_pos(start)?;
        let mut res: Vec<E> = Vec::new();
        let mut n: ChunkSize = 0;
        while n < count
            invariant
                data == old(self).data.content(),
                self.data.content() == data,
                self.image == old(self).image,
                self.reach == old(self).reach,
                0 <= start,
                0 <= n <= count,
                start + count <= data.len(),
                self.data.position() == start + n,
                res@ == data.subrange(start as int, start + n),
                self.img_matrix == old(self).img_matrix,
                old(self).reliable() ==> self.data.reliable() && self.data.whole() && self.data.limit() == old(self).data.limit(),
            decreases count - n,
        {
            let next = self.data.read_next_elem()?;
            match next {
                Some(e) => {
                    res.push(e);
                    proof {
                        assert(res@ =~= data.subrange(start as int, start + n + 1));
                    }
                },
                None => return Err(StreamError::new(ErrorKind::UnexpectedEof)),
            }
            n = n + 1;
        }
        Ok(res)
    }
}

} // verus!
