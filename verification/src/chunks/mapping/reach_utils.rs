//! Utilities of matrix-based reach mapping: paths of elements common to the
//! data and the image, found through a matrix that holds, for each pair of
//! elements, the positions of the image where the first is followed by the
//! second.
use vstd::prelude::*;

use crate::chunks::{ChunkIndex, ChunkSize};
use crate::elems::{Elem, ElemIndexesMatrix, ElemIndexesMatrixSlot};
use crate::error::{ErrorKind, StreamError, StreamResult};
use crate::streams::traits::{InputElemStream, Stream};

verus! {

/// A run of elements that exists in both the image and the data;
/// `src_start` is its starting index in the image.
#[derive(Clone, Copy, Debug, PartialEq, Eq)]
pub struct Path {
    pub len: ChunkSize,
    pub src_start: ChunkIndex,
}

/// The `len` elements of the image from `src` on are those of the data from
/// `start` on.
pub open spec fn common_run<E>(image: Seq<E>, data: Seq<E>, src: int, start: int, len: int) -> bool {
    &&& 0 <= src
    &&& 0 <= start
    &&& 0 <= len
    &&& src + len <= image.len()
    &&& start + len <= data.len()
    &&& image.subrange(src, src + len) == data.subrange(start, start + len)
}

/// Positions of the image before `n` where `a` is immediately followed by `b`.
pub open spec fn bigrams_before<E>(image: Seq<E>, a: E, b: E, n: int) -> Set<ChunkIndex> {
    Set::new(
        |k: ChunkIndex|
            0 <= k && k < n && k + 1 < image.len() && image[k as int] == a && image[k + 1] == b,
    )
}

/// Positions of the image where `a` is immediately followed by `b`.
pub open spec fn bigram_positions<E>(image: Seq<E>, a: E, b: E) -> Set<ChunkIndex> {
    bigrams_before(image, a, b, image.len() as int)
}

/// Every slot (a, b) of the matrix holds exactly the positions of the image
/// where `a` is followed by `b` (and the image's positions fit a `ChunkIndex`).
pub open spec fn is_bigram_matrix<E: Elem, M: ElemIndexesMatrix<E, ChunkIndex>>(
    matrix: M,
    image: Seq<E>,
) -> bool {
    &&& image.len() <= ChunkIndex::MAX
    &&& forall|a: E, b: E| #[trigger] matrix.slot_indexes(a, b) == bigram_positions(image, a, b)
}

/// Every position held by the matrix is a non-negative index below `ChunkIndex::MAX`.
pub open spec fn slots_bounded<E: Elem, M: ElemIndexesMatrix<E, ChunkIndex>>(matrix: M) -> bool {
    forall|a: E, b: E, x: ChunkIndex|
        #[trigger] matrix.slot_indexes(a, b).contains(x) ==> 0 <= x < ChunkIndex::MAX
}

/// The matrix links the `t`-th element of a run of the data from `start`
/// to the next one at image position `src + t`.
pub open spec fn link<E: Elem, M: ElemIndexesMatrix<E, ChunkIndex>>(
    matrix: M,
    data: Seq<E>,
    start: int,
    src: int,
    t: int,
) -> bool {
    matrix.slot_indexes(data[start + t], data[start + t + 1]).contains((src + t) as ChunkIndex)
}

/// The `len` elements of the data from `start` on are chained through the
/// matrix from image position `src` on: each pair of consecutive elements
/// is found at the matching position.
pub open spec fn chained<E: Elem, M: ElemIndexesMatrix<E, ChunkIndex>>(
    matrix: M,
    data: Seq<E>,
    start: int,
    src: int,
    len: int,
) -> bool {
    &&& 1 <= len
    &&& 0 <= start
    &&& 0 <= src
    &&& start + len <= data.len()
    &&& src + len - 1 <= ChunkIndex::MAX
    &&& forall|t: int| 0 <= t < len - 1 ==> #[trigger] link(matrix, data, start, src, t)
}

/// Image positions where the given paths start.
pub open spec fn path_starts(paths: Seq<Path>) -> Set<ChunkIndex> {
    paths.map_values(|p: Path| p.src_start).to_set()
}

/// With a matrix of bigram positions, runs of two or more elements chained
/// through the matrix are exactly the runs common to the data and the image.
pub proof fn lemma_chained_iff_common<E: Elem, M: ElemIndexesMatrix<E, ChunkIndex>>(
    matrix: M,
    image: Seq<E>,
    data: Seq<E>,
    start: int,
    src: int,
    len: int,
)
    requires
        is_bigram_matrix(matrix, image),
        2 <= len,
    ensures
        chained(matrix, data, start, src, len) <==> common_run(image, data, src, start, len),
{
    if chained(matrix, data, start, src, len) {
        assert forall|j: int| 0 <= j < len - 1 && #[trigger] link(matrix, data, start, src, j) implies {
            &&& image[src + j] == data[start + j]
            &&& image[src + j + 1] == data[start + j + 1]
            &&& src + j + 1 < image.len()
        } by {
            assert(link(matrix, data, start, src, j));
            let a = data[start + j];
            let b = data[start + j + 1];
            assert(matrix.slot_indexes(a, b) == bigram_positions(image, a, b));
        }
        assert(src + len <= image.len()) by {
            assert(link(matrix, data, start, src, len - 2));
        }
        assert forall|j: int| 0 <= j < len implies #[trigger] image.subrange(src, src + len)[j]
            == data.subrange(start, start + len)[j] by {
            if j < len - 1 {
                assert(link(matrix, data, start, src, j));
            } else {
                assert(link(matrix, data, start, src, len - 2));
            }
        }
        assert(image.subrange(src, src + len) =~= data.subrange(start, start + len));
    }
    if common_run(image, data, src, start, len) {
        assert forall|t: int| 0 <= t < len - 1 implies #[trigger] link(matrix, data, start, src, t) by {
            assert(image.subrange(src, src + len)[t] == data.subrange(start, start + len)[t]);
            assert(image.subrange(src, src + len)[t + 1] == data.subrange(start, start + len)[t + 1]);
            let a = data[start + t];
            let b = data[start + t + 1];
            assert(bigram_positions(image, a, b).contains((src + t) as ChunkIndex));
        }
    }
}

/// A run chained through the matrix stays chained when cut shorter.
pub proof fn lemma_chained_prefix<E: Elem, M: ElemIndexesMatrix<E, ChunkIndex>>(
    matrix: M,
    data: Seq<E>,
    start: int,
    src: int,
    len: int,
    shorter: int,
)
    requires
        chained(matrix, data, start, src, len),
        1 <= shorter <= len,
    ensures
        chained(matrix, data, start, src, shorter),
{
    assert forall|t: int| 0 <= t < shorter - 1 implies #[trigger] link(matrix, data, start, src, t) by {
        assert(link(matrix, data, start, src, t));
    }
}

/// Fills a matrix whose slots are all empty so that every slot i,j holds
/// all indexes of the image where element i is followed by element j.
///
/// * `image` - Stream of the image (read from its start).
/// * `img_matrix` - Matrix to fill.
///
/// Returns error if occurred.
pub fn init_img_matrix<E: Elem, S: InputElemStream<E>, M: ElemIndexesMatrix<E, ChunkIndex>>(
    image: &mut S,
    img_matrix: &mut M,
) -> (r: StreamResult<()>)
    requires
        forall|a: E, b: E| #[trigger] old(img_matrix).slot_indexes(a, b) == Set::<ChunkIndex>::empty(),
    ensures
        r is Ok ==> {
            &&& final(image).content() == old(image).content()
            &&& is_bigram_matrix(*final(img_matrix), old(image).content())
        },
        r is Ok && old(image).reliable() ==> final(image).reliable(),
        r is Ok && old(image).whole() ==> final(image).whole(),
        final(image).limit() == old(image).limit(),
        r is Ok && old(img_matrix).reliable() ==> final(img_matrix).reliable(),
        r is Ok ==> old(image).content().len() <= ChunkIndex::MAX,
        old(image).reliable() && old(image).whole() && old(image).content().len() <= old(image).limit() && old(
            img_matrix,
        ).reliable() ==> r is Ok,
{
    let ghost content = image.content();
    let size = image.get_size()?;
    image.rewind()?;
    let first = image.read_next_elem()?;
    let mut prev = match first {
        None => {
            proof {
                assert forall|a: E, b: E| #[trigger]
                    img_matrix.slot_indexes(a, b) == bigram_positions(content, a, b) by {
                    assert(bigram_positions(content, a, b) =~= Set::<ChunkIndex>::empty());
                }
            }
            return Ok(());
        },
        Some(e) => e,
    };
    let mut k: ChunkIndex = 0;
    proof {
        assert forall|a: E, b: E| #[trigger]
            img_matrix.slot_indexes(a, b) == bigrams_before(content, a, b, 0) by {
            assert(bigrams_before(content, a, b, 0) =~= Set::<ChunkIndex>::empty());
        }
    }
    loop
        invariant
            content == old(image).content(),
            image.content() == content,
            size == content.len(),
            0 <= k,
            k + 1 <= content.len(),
            image.position() == k + 1,
            prev == content[k as int],
            forall|a: E, b: E| #[trigger]
                img_matrix.slot_indexes(a, b) == bigrams_before(content, a, b, k as int),
            old(image).reliable() ==> image.reliable(),
            old(image).whole() ==> image.whole(),
            image.limit() == old(image).limit(),
            old(img_matrix).reliable() ==> img_matrix.reliable(),
        ensures
            image.content() == content,
            old(image).reliable() ==> image.reliable(),
            image.limit() == old(image).limit(),
            old(img_matrix).reliable() ==> img_matrix.reliable(),
            forall|a: E, b: E| #[trigger]
                img_matrix.slot_indexes(a, b) == bigram_positions(content, a, b),
        decreases content.len() - k,
    {
        let next = image.read_next_elem()?;
        match next {
            None => {
                proof {
                    assert forall|a: E, b: E| #[trigger]
                        img_matrix.slot_indexes(a, b) == bigram_positions(content, a, b) by {
                        assert(bigrams_before(content, a, b, k as int) =~= bigram_positions(content, a, b));
                    }
                }
                break ;
            },
            Some(cur) => {
                let ghost before = *img_matrix;
                img_matrix.insert_at(prev, cur, k)?;
                proof {
                    assert forall|a: E, b: E| #[trigger]
                        img_matrix.slot_indexes(a, b) == bigrams_before(content, a, b, k + 1) by {
                        assert(before.slot_indexes(a, b) == bigrams_before(content, a, b, k as int));
                        if a == prev && b == cur {
                            assert(bigrams_before(content, a, b, k + 1) =~= bigrams_before(
                                content,
                                a,
                                b,
                                k as int,
                            ).insert(k));
                        } else {
                            assert(bigrams_before(content, a, b, k + 1) =~= bigrams_before(
                                content,
                                a,
                                b,
                                k as int,
                            ));
                        }
                    }
                }
                prev = cur;
                k = k + 1;
            },
        }
    }
    Ok(())
}

/// For a given `data_start` index, gets all possible starts of paths common
/// to data and image: the positions where the image holds the two elements
/// that the data holds from `data_start` on.
///
/// * `data` - Stream of the data.
/// * `img_matrix` - Matrix of the image (see `init_img_matrix`).
/// * `data_start` - Index in data to find possible path starts for.
///
/// Returns the paths, each of length two and each starting at a different
/// position (none when fewer than two elements follow `data_start`).
/// Returns error if occurred.
pub fn get_path_starts_vec<E: Elem, D: InputElemStream<E>, M: ElemIndexesMatrix<E, ChunkIndex>>(
    data: &mut D,
    img_matrix: &M,
    data_start: ChunkIndex,
) -> (r: StreamResult<Vec<Path>>)
    requires
        0 <= data_start,
    ensures
        r is Ok ==> final(data).content() == old(data).content(),
        r matches Ok(paths) ==> {
            &&& forall|t: int| 0 <= t < paths@.len() ==> (#[trigger] paths@[t]).len == 2
            &&& paths@.map_values(|p: Path| p.src_start).no_duplicates()
            &&& path_starts(paths@) == if data_start + 1 < old(data).content().len() {
                img_matrix.slot_indexes(
                    old(data).content()[data_start as int],
                    old(data).content()[data_start + 1],
                )
            } else {
                Set::<ChunkIndex>::empty()
            }
        },
        r is Ok && old(data).reliable() ==> final(data).reliable(),
        r is Ok && old(data).whole() ==> final(data).whole(),
        final(data).limit() == old(data).limit(),
        old(data).reliable() && old(data).whole() && old(data).content().len() <= old(data).limit()
            && data_start <= old(data).content().len() && img_matrix.reliable() ==> r is Ok,
{
    let ghost content = data.content();
    let mut res: Vec<Path> = Vec::new();
    data.set_pos(data_start)?;
    let first = data.read_next_elem()?;
    let a = match first {
        None => {
            assert(res@.map_values(|p: Path| p.src_start) =~= Seq::<ChunkIndex>::empty());
            assert(path_starts(res@) =~= Set::<ChunkIndex>::empty());
            return Ok(res);
        },
        Some(e) => e,
    };
    let second = data.read_next_elem()?;
    let b = match second {
        None => {
            assert(res@.map_values(|p: Path| p.src_start) =~= Seq::<ChunkIndex>::empty());
            assert(path_starts(res@) =~= Set::<ChunkIndex>::empty());
            return Ok(res);
        },
        Some(e) => e,
    };
    let slot = img_matrix.at(a, b)?;
    let starts = slot.iter()?;
    let mut t: usize = 0;
    while t < starts.len()
        invariant
            t <= starts@.len(),
            res@.len() == t,
            forall|u: int| 0 <= u < t ==> (#[trigger] res@[u]).len == 2,
            res@.map_values(|p: Path| p.src_start) == starts@.take(t as int),
        decreases starts@.len() - t,
    {
        res.push(Path { len: 2, src_start: starts[t] });
        proof {
            assert(res@.map_values(|p: Path| p.src_start) =~= starts@.take(t + 1));
        }
        t = t + 1;
    }
    proof {
        assert(starts@.take(starts@.len() as int) =~= starts@);
    }
    Ok(res)
}

/// Extends a path chained through the matrix for as long as the data and the
/// image go on agreeing.
fn extend_path<E: Elem, D: InputElemStream<E>, M: ElemIndexesMatrix<E, ChunkIndex>>(
    data: &mut D,
    img_matrix: &M,
    data_start: ChunkIndex,
    path: Path,
) -> (r: StreamResult<Path>)
    requires
        slots_bounded(*img_matrix),
        old(data).content().len() <= ChunkIndex::MAX,
        chained(*img_matrix, old(data).content(), data_start as int, path.src_start as int, path.len as int),
    ensures
        r is Ok ==> final(data).content() == old(data).content(),
        r matches Ok(q) ==> {
            &&& q.src_start == path.src_start
            &&& path.len <= q.len
            &&& chained(*img_matrix, old(data).content(), data_start as int, q.src_start as int, q.len as int)
            &&& forall|len: int|
                #[trigger] chained(*img_matrix, old(data).content(), data_start as int, path.src_start as int, len)
                    ==> len <= q.len
        },
        r is Ok && old(data).reliable() ==> final(data).reliable(),
        r is Ok && old(data).whole() ==> final(data).whole(),
        final(data).limit() == old(data).limit(),
        old(data).reliable() && old(data).whole() && old(data).content().len() <= old(data).limit()
            && img_matrix.reliable() ==> r is Ok,
{
    let ghost content = data.content();
    let src = path.src_start;
    let mut len = path.len;
    data.set_pos(data_start + len - 1)?;
    let last = data.read_next_elem()?;
    let mut prev = match last {
        None => return Err(StreamError::new(ErrorKind::UnexpectedEof)),
        Some(e) => e,
    };
    loop
        invariant_except_break
            data.position() == data_start + len,
            prev == content[data_start + len - 1],
        invariant
            content == old(data).content(),
            data.content() == content,
            slots_bounded(*img_matrix),
            content.len() <= ChunkIndex::MAX,
            path.len <= len,
            chained(*img_matrix, content, data_start as int, src as int, len as int),
            old(data).reliable() ==> data.reliable(),
            old(data).whole() ==> data.whole(),
            data.limit() == old(data).limit(),
        ensures
            old(data).reliable() ==> data.reliable(),
            old(data).whole() ==> data.whole(),
            data.limit() == old(data).limit(),
            data.content() == content,
            path.len <= len,
            chained(*img_matrix, content, data_start as int, src as int, len as int),
            forall|l: int| #[trigger] chained(*img_matrix, content, data_start as int, src as int, l) ==> l <= len,
        decreases content.len() - len,
    {
        let next = data.read_next_elem()?;
        match next {
            None => {
                assert forall|l: int| #[trigger]
                    chained(*img_matrix, content, data_start as int, src as int, l) implies l <= len by {}
                break ;
            },
            Some(cur) => {
                if len >= 2 {
                    assert(link(*img_matrix, content, data_start as int, src as int, len - 2));
                }
                let slot = img_matrix.at(prev, cur)?;
                let found = slot.contains(&(src + (len - 1)))?;
                if found {
                    assert forall|t: int| 0 <= t < len implies #[trigger] link(
                        *img_matrix,
                        content,
                        data_start as int,
                        src as int,
                        t,
                    ) by {
                        if t < len - 1 {
                            assert(link(*img_matrix, content, data_start as int, src as int, t));
                        }
                    }
                    len = len + 1;
                    prev = cur;
                } else {
                    assert forall|l: int| #[trigger]
                        chained(*img_matrix, content, data_start as int, src as int, l) implies l <= len by {
                        if l > len {
                            assert(link(*img_matrix, content, data_start as int, src as int, len - 1));
                        }
                    }
                    break ;
                }
            },
        }
    }
    Ok(Path { len, src_start: src })
}

/// Given a `data_start` index and the starts of paths common to data and
/// image, walks through full paths and finds the longest one.
///
/// * `data` - Stream of the data.
/// * `img_matrix` - Matrix of the image (see `init_img_matrix`).
/// * `data_start` - Starting index of the paths in data.
/// * `paths` - Starts of the paths to walk through.
///
/// Returns the longest path, or `None` if no
/// paths were provided.
/// Returns error if occurred.
pub fn walk_paths<E: Elem, D: InputElemStream<E>, M: ElemIndexesMatrix<E, ChunkIndex>>(
    data: &mut D,
    img_matrix: &M,
    data_start: ChunkIndex,
    paths: Vec<Path>,
) -> (r: StreamResult<Option<Path>>)
    requires
        slots_bounded(*img_matrix),
        old(data).content().len() <= ChunkIndex::MAX,
        forall|t: int|
            0 <= t < paths@.len() ==> chained(
                *img_matrix,
                old(data).content(),
                data_start as int,
                (#[trigger] paths@[t]).src_start as int,
                paths@[t].len as int,
            ),
    ensures
        r is Ok ==> final(data).content() == old(data).content(),
        r matches Ok(None) ==> paths@.len() == 0,
        r matches Ok(Some(p)) ==> {
            &&& exists|t: int|
                0 <= t < paths@.len() && (#[trigger] paths@[t]).src_start == p.src_start
                    && paths@[t].len <= p.len
            &&& chained(*img_matrix, old(data).content(), data_start as int, p.src_start as int, p.len as int)
            &&& forall|t: int, len: int|
                0 <= t < paths@.len() && #[trigger] chained(
                    *img_matrix,
                    old(data).content(),
                    data_start as int,
                    (#[trigger] paths@[t]).src_start as int,
                    len,
                ) ==> len <= p.len
        },
        r is Ok && old(data).reliable() ==> final(data).reliable(),
        r is Ok && old(data).whole() ==> final(data).whole(),
        final(data).limit() == old(data).limit(),
        old(data).reliable() && old(data).whole() && old(data).content().len() <= old(data).limit()
            && img_matrix.reliable() ==> r is Ok,
{
    let ghost content = data.content();
    let mut best: Option<Path> = None;
    let mut n: usize = 0;
    while n < paths.len()
        invariant
            content == old(data).content(),
            data.content() == content,
            slots_bounded(*img_matrix),
            content.len() <= ChunkIndex::MAX,
            n <= paths@.len(),
            forall|t: int|
                0 <= t < paths@.len() ==> chained(
                    *img_matrix,
                    content,
                    data_start as int,
                    (#[trigger] paths@[t]).src_start as int,
                    paths@[t].len as int,
                ),
            best is None <==> n == 0,
            old(data).reliable() ==> data.reliable(),
            old(data).whole() ==> data.whole(),
            data.limit() == old(data).limit(),
            best matches Some(p) ==> {
                &&& exists|t: int|
                    0 <= t < n && (#[trigger] paths@[t]).src_start == p.src_start && paths@[t].len <= p.len
                &&& chained(*img_matrix, content, data_start as int, p.src_start as int, p.len as int)
                &&& forall|t: int, len: int|
                    0 <= t < n && #[trigger] chained(
                        *img_matrix,
                        content,
                        data_start as int,
                        (#[trigger] paths@[t]).src_start as int,
                        len,
                    ) ==> len <= p.len
            },
        decreases paths@.len() - n,
    {
        let p = paths[n];
        let ext = extend_path(data, img_matrix, data_start, p)?;
        let ghost old_best = best;
        best = match best {
            None => Some(ext),
            Some(b) => if ext.len > b.len {
                Some(ext)
            } else {
                Some(b)
            },
        };
        proof {
            let bp = best->0;
            assert(paths@[n as int] == p);
            if old_best is None {
                assert(0 <= n < n + 1 && paths@[n as int].src_start == bp.src_start && paths@[n as int].len <= bp.len);
            } else if bp == ext {
                assert(0 <= n < n + 1 && paths@[n as int].src_start == bp.src_start && paths@[n as int].len <= bp.len);
            } else {
                let t0 = choose|t: int|
                    0 <= t < n && (#[trigger] paths@[t]).src_start == old_best->0.src_start && paths@[t].len <= old_best->0.len;
                assert(0 <= t0 < n + 1 && paths@[t0].src_start == bp.src_start && paths@[t0].len <= bp.len);
            }
        }
        n = n + 1;
    }
    Ok(best)
}

} // verus!
