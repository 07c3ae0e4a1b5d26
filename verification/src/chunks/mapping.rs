//! Mapping data onto chunks of an image.
use vstd::prelude::*;

use crate::chunks::mapping::reach::{best_match, valid_match, MatchInfo, ReachMapper};
use crate::chunks::mapping::reach_utils::common_run;
use crate::chunks::{
    chunk_elems, chunk_spec, chunk_valid, expand, lemma_expand_len, lemma_expand_push, total_len,
    ChunkIndex, ChunkInfo, ChunkSize, ChunkSpec,
};
use crate::elems::Elem;
use crate::error::{ErrorKind, StreamError, StreamResult};

pub mod reach;
pub mod reach_utils;

verus! {

/// Every reference chunk respects the caps: with a maximum, no reference is
/// longer than it; without one, every reference is longer than the minimum.
pub open spec fn refs_capped<E>(
    chunks: Seq<ChunkInfo<E>>,
    min_cap: Option<ChunkSize>,
    max_cap: Option<ChunkSize>,
) -> bool {
    forall|k: int|
        0 <= k < chunks.len() ==> match #[trigger] chunks[k] {
            ChunkInfo::Reference { size, .. } => {
                &&& (max_cap matches Some(c) ==> size <= c)
                &&& (max_cap is None ==> (min_cap matches Some(m) ==> m < size))
            },
            ChunkInfo::Literal(_) => true,
        }
}

/// `chunks` cover exactly the first `end` elements of the data: each is
/// valid, respects the caps, and together they expand to those elements.
pub open spec fn covers<E>(
    chunks: Seq<ChunkInfo<E>>,
    data: Seq<E>,
    image: Seq<E>,
    end: int,
    min_cap: Option<ChunkSize>,
    max_cap: Option<ChunkSize>,
) -> bool {
    &&& 0 <= end <= data.len()
    &&& expand(chunks, image) == data.subrange(0, end)
    &&& forall|k: int| 0 <= k < chunks.len() ==> chunk_valid(#[trigger] chunks[k], image.len() as int)
    &&& refs_capped(chunks, min_cap, max_cap)
}

/// Coverage: chunks that cover the data (as `ChunkMapper::map_chunks` maps
/// them) have sizes that add up to exactly the data's length, with no gap
/// and no overlap.
pub proof fn lemma_covered_total_len<E>(
    chunks: Seq<ChunkInfo<E>>,
    data: Seq<E>,
    image: Seq<E>,
    min_cap: Option<ChunkSize>,
    max_cap: Option<ChunkSize>,
)
    requires
        covers(chunks, data, image, data.len() as int, min_cap, max_cap),
    ensures
        total_len(chunks) == data.len(),
{
    lemma_expand_len(chunks, image);
}

/// Part of a match is a match of the matching parts.
proof fn lemma_sub_match<E>(image: Seq<E>, data: Seq<E>, src: int, start: int, len: int, a: int, b: int)
    requires
        0 <= src,
        0 <= start,
        src + len <= image.len(),
        start + len <= data.len(),
        image.subrange(src, src + len) == data.subrange(start, start + len),
        0 <= a <= b <= len,
    ensures
        image.subrange(src + a, src + b) == data.subrange(start + a, start + b),
{
    let l = image.subrange(src + a, src + b);
    let r = data.subrange(start + a, start + b);
    assert forall|t: int| 0 <= t < b - a implies #[trigger] l[t] == r[t] by {
        assert(l[t] == image[src + a + t]);
        assert(r[t] == data[start + a + t]);
        assert(image.subrange(src, src + len)[a + t] == image[src + a + t]);
        assert(data.subrange(start, start + len)[a + t] == data[start + a + t]);
    }
    assert(image.subrange(src + a, src + b) =~= data.subrange(start + a, start + b));
}

/// Covering one more chunk that stands for the next elements of the data.
proof fn lemma_covers_push<E>(
    chunks: Seq<ChunkInfo<E>>,
    c: ChunkInfo<E>,
    data: Seq<E>,
    image: Seq<E>,
    end: int,
    len: int,
    min_cap: Option<ChunkSize>,
    max_cap: Option<ChunkSize>,
)
    requires
        covers(chunks, data, image, end, min_cap, max_cap),
        end + len <= data.len(),
        chunk_valid(c, image.len() as int),
        chunk_elems(c, image) == data.subrange(end, end + len),
        refs_capped(seq![c], min_cap, max_cap),
        0 <= len,
    ensures
        covers(chunks.push(c), data, image, end + len, min_cap, max_cap),
{
    lemma_expand_push(chunks, c, image);
    assert(data.subrange(0, end) + data.subrange(end, end + len) =~= data.subrange(0, end + len));
    let pushed = chunks.push(c);
    assert forall|k: int| 0 <= k < pushed.len() implies chunk_valid(#[trigger] pushed[k], image.len() as int) by {
        if k < chunks.len() {
            assert(pushed[k] == chunks[k]);
        }
    }
    assert forall|k: int| 0 <= k < pushed.len() implies match #[trigger] pushed[k] {
        ChunkInfo::Reference { size, .. } => {
            &&& (max_cap matches Some(cap) ==> size <= cap)
            &&& (max_cap is None ==> (min_cap matches Some(m) ==> m < size))
        },
        ChunkInfo::Literal(_) => true,
    } by {
        if k < chunks.len() {
            assert(pushed[k] == chunks[k]);
        } else {
            assert(seq![c][0] == c);
        }
    }
}

/// The reference's length clears the minimum (when there is one).
pub open spec fn above_min(min_cap: Option<ChunkSize>, size: int) -> bool {
    match min_cap {
        Some(m) => m < size,
        None => true,
    }
}

/// Matches of a reach mapper, by data position.
pub open spec fn matches_of<E: Elem, R: ReachMapper<E>>(r: R) -> spec_fn(int) -> MatchInfo {
    |k: int| r.match_at(k)
}

/// Chunks as contracts see them.
pub open spec fn chunk_specs<E>(chunks: Seq<ChunkInfo<E>>) -> Seq<ChunkSpec<E>> {
    chunks.map_values(|c: ChunkInfo<E>| chunk_spec(c))
}

/// The furthest reaching match among data positions `from..to` (the first
/// of them on ties), with the position it starts at; without one reaching
/// beyond `from`, a match that covers nothing at `from`.
pub open spec fn farthest_in(matches: spec_fn(int) -> MatchInfo, from: int, to: int) -> (MatchInfo, int)
    decreases to - from,
{
    if to <= from {
        (MatchInfo { reach: from as ChunkIndex, src_start: from as ChunkIndex }, from)
    } else {
        let prev = farthest_in(matches, from, to - 1);
        if matches(to - 1).reach > prev.0.reach {
            (matches(to - 1), to - 1)
        } else {
            prev
        }
    }
}

/// First data position from `p` on whose match reaches beyond it (the end of
/// the data when there is none).
pub open spec fn literal_end(matches: spec_fn(int) -> MatchInfo, p: int, len: int) -> int
    decreases len - p,
{
    if p >= len || matches(p).reach > p {
        p
    } else {
        literal_end(matches, p + 1, len)
    }
}

/// References to the `size` image elements from `index` on, split into
/// pieces no longer than `max_cap` (when there is one).
pub open spec fn ref_pieces<E>(index: int, size: int, max_cap: Option<ChunkSize>) -> Seq<ChunkSpec<E>>
    decreases size,
{
    let piece = match max_cap {
        Some(c) => if size < c {
            size
        } else {
            c as int
        },
        None => size,
    };
    if size <= 0 || piece <= 0 {
        Seq::empty()
    } else {
        seq![ChunkSpec::Reference { index, size: piece }] + ref_pieces(index + piece, size - piece, max_cap)
    }
}

/// Chunks the data is mapped onto from position `e` on, the matches that
/// start from position `from` on still counting.
///
/// At `e`, the furthest reaching of those matches that start up to `e` is
/// taken. When it reaches beyond `e`, its part from `e` on becomes
/// references (split by `max_cap`) if longer than `min_cap`, and a literal of
/// the one element at `e` otherwise (after which only matches from `e + 1` on
/// count). When it does not, the positions from `e` on that no match reaches
/// beyond become one literal (after which only matches from its end on count).
pub open spec fn greedy_chunks<E>(
    matches: spec_fn(int) -> MatchInfo,
    data: Seq<E>,
    from: int,
    e: int,
    min_cap: Option<ChunkSize>,
    max_cap: Option<ChunkSize>,
) -> Seq<ChunkSpec<E>>
    decreases data.len() - e,
{
    if e < 0 || e >= data.len() || e < from {
        Seq::empty()
    } else {
        let f = farthest_in(matches, from, e + 1);
        let m = f.0;
        if e < m.reach && m.reach <= data.len() {
            if above_min(min_cap, m.reach - e) {
                ref_pieces(m.src_start + (e - f.1), m.reach - e, max_cap) + greedy_chunks(
                    matches,
                    data,
                    from,
                    m.reach as int,
                    min_cap,
                    max_cap,
                )
            } else {
                seq![ChunkSpec::Literal(data.subrange(e, e + 1))] + greedy_chunks(
                    matches,
                    data,
                    e + 1,
                    e + 1,
                    min_cap,
                    max_cap,
                )
            }
        } else if m.reach <= e {
            let k = literal_end(matches, e, data.len() as int);
            let end = if e < k <= data.len() {
                k
            } else {
                e + 1
            };
            seq![ChunkSpec::Literal(data.subrange(e, end))] + greedy_chunks(
                matches,
                data,
                end,
                end,
                min_cap,
                max_cap,
            )
        } else {
            Seq::empty()
        }
    }
}

/// `literal_end` stays within the data and past positions no match reaches beyond.
proof fn lemma_literal_end(matches: spec_fn(int) -> MatchInfo, p: int, len: int)
    requires
        p <= len,
    ensures
        p <= literal_end(matches, p, len) <= len,
    decreases len - p,
{
    if !(p >= len || matches(p).reach > p) {
        lemma_literal_end(matches, p + 1, len);
    }
}

/// Chunks as contracts see them, one more pushed.
proof fn lemma_chunk_specs_push<E>(chunks: Seq<ChunkInfo<E>>, c: ChunkInfo<E>)
    ensures
        chunk_specs(chunks.push(c)) == chunk_specs(chunks).push(chunk_spec(c)),
{
    assert(chunk_specs(chunks.push(c)) =~= chunk_specs(chunks).push(chunk_spec(c)));
}

/// A reach longer than `min_cap` is referenced, wherever it stands: at any
/// point `e` of the mapping, when the furthest reaching of the matches that
/// still count reaches `size` elements beyond `e` (within the data) and
/// `min_cap` is absent or below `size`, the chunks from `e` on start with
/// references to those `size` elements of the image (split by `max_cap`),
/// and the mapping goes on from the end of that reach.
pub proof fn lemma_long_reach_is_referenced<E>(
    matches: spec_fn(int) -> MatchInfo,
    data: Seq<E>,
    from: int,
    e: int,
    min_cap: Option<ChunkSize>,
    max_cap: Option<ChunkSize>,
)
    requires
        0 <= from <= e < data.len(),
        e < farthest_in(matches, from, e + 1).0.reach <= data.len(),
        min_cap matches Some(m) ==> m < farthest_in(matches, from, e + 1).0.reach - e,
    ensures
        ({
            let f = farthest_in(matches, from, e + 1);
            greedy_chunks(matches, data, from, e, min_cap, max_cap) == ref_pieces::<E>(
                f.0.src_start + (e - f.1),
                f.0.reach - e,
                max_cap,
            ) + greedy_chunks(matches, data, from, f.0.reach as int, min_cap, max_cap)
        }),
{
}

/// Data found whole in the image is one reference: when the data (of two
/// elements or more) occurs as a run of the image and each position's match
/// is its best match, the data is mapped (as `ChunkMapper::map_chunks` maps
/// it) onto a single reference to the best match's run of the image,
/// whenever the data is longer than `min_cap` and no longer than `max_cap`
/// (each when given).
pub proof fn lemma_whole_match_is_referenced<E>(
    matches: spec_fn(int) -> MatchInfo,
    image: Seq<E>,
    data: Seq<E>,
    src: int,
    min_cap: Option<ChunkSize>,
    max_cap: Option<ChunkSize>,
)
    requires
        data.len() >= 2,
        common_run(image, data, src, 0, data.len() as int),
        best_match(image, data, 0, matches(0)),
        min_cap matches Some(m) ==> m < data.len(),
        max_cap matches Some(c) ==> data.len() <= c,
    ensures
        greedy_chunks(matches, data, 0, 0, min_cap, max_cap) == seq![
            ChunkSpec::<E>::Reference { index: matches(0).src_start as int, size: data.len() as int },
        ],
{
    let n = data.len() as int;
    let m = matches(0);
    assert(m.reach == n);
    assert(farthest_in(matches, 0, 0).0.reach == 0);
    assert(farthest_in(matches, 0, 1) == (m, 0int));
    assert(greedy_chunks(matches, data, 0, n, min_cap, max_cap) =~= Seq::<ChunkSpec<E>>::empty());
    let rest = ref_pieces::<E>(m.src_start + n, 0, max_cap);
    assert(rest =~= Seq::<ChunkSpec<E>>::empty());
    assert(ref_pieces::<E>(m.src_start as int, n, max_cap) =~= seq![
        ChunkSpec::<E>::Reference { index: m.src_start as int, size: n },
    ]);
    assert(greedy_chunks(matches, data, 0, 0, min_cap, max_cap) =~= seq![
        ChunkSpec::<E>::Reference { index: m.src_start as int, size: n },
    ]);
}

/// Maps chunks from input data to chunks in input image.
/// For more information, see documentation of `ChunkInfo` variants.
///
/// * `E` - Element type (each chunk is made of elements).
/// * `Reach` - An implementation of `ReachMapper<E>`, used as utility.
pub struct ChunkMapper<'a, E, Reach> {
    pub reach: &'a mut Reach,
    pub phantom: core::marker::PhantomData<E>,
}

impl<'a, E: Elem, Reach: ReachMapper<E>> ChunkMapper<'a, E, Reach> {
    /// Constructs a new instance.
    ///
    /// * `reach` - Borrowed `Reach` instance to use as utility.
    pub fn new(reach: &'a mut Reach) -> (r: Self)
        ensures
            *r.reach == *old(reach),
            *final(r.reach) == *final(reach),
    {
        Self { reach, phantom: core::marker::PhantomData }
    }

    /// Computes mapping from data chunks to image chunks.
    ///
    /// * `min_cap` - Optional lower bound for length of a reference chunk (exclusive).
    /// * `max_cap` - Optional upper bound for length of a reference chunk (inclusive).
    ///
    /// A single forward pass keeps the furthest-reaching match seen so far and
    /// commits a chunk whenever the scan catches up with the data already
    /// covered. A match whose (remaining) length is not above `min_cap` is
    /// discarded in favour of a literal; a longer one is split into
    /// references no longer than `max_cap`; runs of positions without a match
    /// become one literal chunk.
    ///
    /// Returns the mapped chunks, which stand exactly for the data; fails when
    /// the reach mapper does.
    pub fn map_chunks(&mut self, min_cap: Option<ChunkSize>, max_cap: Option<ChunkSize>) -> (r:
        StreamResult<Vec<ChunkInfo<E>>>)
        requires
            old(self).reach.inv(),
            max_cap matches Some(c) ==> c > 0,
        ensures
            *final(final(self).reach) == *final(old(self).reach),
            r is Ok ==> {
                &&& final(self).reach.inv()
                &&& final(self).reach.data() == old(self).reach.data()
                &&& final(self).reach.image() == old(self).reach.image()
            },
            r matches Ok(chunks) ==> covers(
                chunks@,
                old(self).reach.data(),
                old(self).reach.image(),
                old(self).reach.data().len() as int,
                min_cap,
                max_cap,
            ),
            r matches Ok(chunks) ==> chunk_specs(chunks@) == greedy_chunks(
                matches_of(*old(self).reach),
                old(self).reach.data(),
                0,
                0,
                min_cap,
                max_cap,
            ),
            old(self).reach.reliable() ==> r is Ok,
    {
        let ghost data = self.reach.data();
        let ghost ms = matches_of(*old(self).reach);
        let ghost mut from: int = 0;
        let ghost image = self.reach.image();
        let len = self.reach.len()?;
        let mut chunks: Vec<ChunkInfo<E>> = Vec::new();
        let mut cur_end: ChunkIndex = 0;
        let mut farthest = MatchInfo { reach: 0, src_start: 0 };
        let mut farthest_data_start: ChunkIndex = 0;
        let mut i: ChunkIndex = 0;
        proof {
            assert(data.subrange(0, 0) =~= Seq::<E>::empty());
            assert(chunk_specs(chunks@) + greedy_chunks(ms, data, 0, 0, min_cap, max_cap) =~= greedy_chunks(
                ms,
                data,
                0,
                0,
                min_cap,
                max_cap,
            ));
        }
        while i < len
            invariant
                *final(self.reach) == *final(old(self).reach),
                self.reach.inv(),
                self.reach.data() == data,
                self.reach.image() == image,
                data == old(self).reach.data(),
                image == old(self).reach.image(),
                forall|k: int| #[trigger] self.reach.match_at(k) == old(self).reach.match_at(k),
                len == data.len(),
                max_cap matches Some(c) ==> c > 0,
                0 <= i <= cur_end <= len,
                covers(chunks@, data, image, cur_end as int, min_cap, max_cap),
                farthest.reach <= len,
                farthest.reach > cur_end ==> {
                    &&& farthest_data_start <= cur_end
                    &&& 0 <= farthest_data_start
                    &&& valid_match(data, image, farthest_data_start as int, farthest)
                },
                ms == matches_of(*old(self).reach),
                0 <= from <= i,
                farthest == farthest_in(ms, from, i as int).0,
                farthest.reach > from ==> farthest_data_start == farthest_in(ms, from, i as int).1,
                chunk_specs(chunks@) + greedy_chunks(ms, data, from, cur_end as int, min_cap, max_cap)
                    == greedy_chunks(ms, data, 0, 0, min_cap, max_cap),
                old(self).reach.reliable() ==> self.reach.reliable(),
            decreases len - i,
        {
            let mi = self.reach.get(i)?;
            if mi.reach > farthest.reach {
                farthest = mi;
                farthest_data_start = i;
            }
            proof {
                assert(ms(i as int) == mi);
                assert(farthest == farthest_in(ms, from, i + 1).0);
            }
            if i == cur_end {
                let ghost before = chunk_specs(chunks@);
                if cur_end < farthest.reach {
                    // the furthest match reaches beyond the data covered so far
                    let ghost e = cur_end as int;
                    let ghost f = farthest;
                    let ghost fds = farthest_data_start as int;
                    self.map_reference_chunk(
                        min_cap,
                        max_cap,
                        &mut chunks,
                        &mut cur_end,
                        &mut farthest,
                        farthest_data_start,
                    )?;
                    proof {
                        assert(greedy_chunks(ms, data, from, e, min_cap, max_cap) == if above_min(
                            min_cap,
                            f.reach - e,
                        ) {
                            ref_pieces(f.src_start + (e - fds), f.reach - e, max_cap) + greedy_chunks(
                                ms,
                                data,
                                from,
                                f.reach as int,
                                min_cap,
                                max_cap,
                            )
                        } else {
                            seq![ChunkSpec::Literal(data.subrange(e, e + 1))] + greedy_chunks(
                                ms,
                                data,
                                e + 1,
                                e + 1,
                                min_cap,
                                max_cap,
                            )
                        });
                        if above_min(min_cap, f.reach - e) {
                            assert(before + ref_pieces(f.src_start + (e - fds), f.reach - e, max_cap)
                                + greedy_chunks(ms, data, from, f.reach as int, min_cap, max_cap) =~= before
                                + (ref_pieces(f.src_start + (e - fds), f.reach - e, max_cap) + greedy_chunks(
                                ms,
                                data,
                                from,
                                f.reach as int,
                                min_cap,
                                max_cap,
                            )));
                        } else {
                            assert(before + seq![ChunkSpec::Literal(data.subrange(e, e + 1))] + greedy_chunks(
                                ms,
                                data,
                                e + 1,
                                e + 1,
                                min_cap,
                                max_cap,
                            ) =~= before + (seq![ChunkSpec::Literal(data.subrange(e, e + 1))] + greedy_chunks(
                                ms,
                                data,
                                e + 1,
                                e + 1,
                                min_cap,
                                max_cap,
                            )));
                            from = e + 1;
                        }
                    }
                } else {
                    // this position is not representable as a reference chunk at all
                    let ghost e = cur_end as int;
                    proof {
                        assert(matches_of(*self.reach) =~= ms);
                    }
                    self.map_literal_chunk(min_cap, max_cap, &mut chunks, &mut cur_end, &mut farthest)?;
                    farthest_data_start = cur_end;
                    proof {
                        let k = cur_end as int;
                        lemma_literal_end(ms, e, len as int);
                        assert(farthest_in(ms, from, e + 1).0.reach <= e);
                        assert(greedy_chunks(ms, data, from, e, min_cap, max_cap) == seq![
                            ChunkSpec::Literal(data.subrange(e, k)),
                        ] + greedy_chunks(ms, data, k, k, min_cap, max_cap));
                        assert(before + seq![ChunkSpec::Literal(data.subrange(e, k))] + greedy_chunks(
                            ms,
                            data,
                            k,
                            k,
                            min_cap,
                            max_cap,
                        ) =~= before + (seq![ChunkSpec::Literal(data.subrange(e, k))] + greedy_chunks(
                            ms,
                            data,
                            k,
                            k,
                            min_cap,
                            max_cap,
                        )));
                        from = k;
                    }
                    i = cur_end;
                    continue ;
                }
            }
            i = i + 1;
        }
        proof {
            assert(chunk_specs(chunks@) + greedy_chunks(ms, data, from, cur_end as int, min_cap, max_cap)
                =~= chunk_specs(chunks@));
        }
        Ok(chunks)
    }

    /// Utility of `map_chunks`: maps the unclaimed part of the furthest match
    /// as reference chunk(s), or the next element as a literal chunk when that
    /// part is not longer than `min_cap`.
    fn map_reference_chunk(
        &mut self,
        min_cap: Option<ChunkSize>,
        max_cap: Option<ChunkSize>,
        chunks: &mut Vec<ChunkInfo<E>>,
        cur_end: &mut ChunkIndex,
        farthest: &mut MatchInfo,
        farthest_data_start: ChunkIndex,
    ) -> (r: StreamResult<()>)
        requires
            old(self).reach.inv(),
            max_cap matches Some(c) ==> c > 0,
            covers(old(chunks)@, old(self).reach.data(), old(self).reach.image(), *old(cur_end) as int, min_cap, max_cap),
            *old(cur_end) < old(farthest).reach <= old(self).reach.data().len(),
            0 <= farthest_data_start <= *old(cur_end),
            valid_match(old(self).reach.data(), old(self).reach.image(), farthest_data_start as int, *old(farthest)),
        ensures
            *final(final(self).reach) == *final(old(self).reach),
            r is Ok ==> {
                &&& final(self).reach.inv()
                &&& final(self).reach.data() == old(self).reach.data()
                &&& final(self).reach.image() == old(self).reach.image()
                &&& forall|k: int| #[trigger] final(self).reach.match_at(k) == old(self).reach.match_at(k)
                &&& covers(final(chunks)@, old(self).reach.data(), old(self).reach.image(), *final(cur_end) as int, min_cap, max_cap)
                &&& *old(cur_end) < *final(cur_end)
                &&& final(farthest).reach <= *final(cur_end)
                &&& if above_min(min_cap, old(farthest).reach - *old(cur_end)) {
                    &&& chunk_specs(final(chunks)@) == chunk_specs(old(chunks)@) + ref_pieces(
                        old(farthest).src_start + (*old(cur_end) - farthest_data_start),
                        old(farthest).reach - *old(cur_end),
                        max_cap,
                    )
                    &&& *final(cur_end) == old(farthest).reach
                    &&& *final(farthest) == *old(farthest)
                } else {
                    &&& chunk_specs(final(chunks)@) == chunk_specs(old(chunks)@).push(
                        ChunkSpec::Literal(old(self).reach.data().subrange(*old(cur_end) as int, *old(cur_end) + 1)),
                    )
                    &&& *final(cur_end) == *old(cur_end) + 1
                    &&& *final(farthest) == MatchInfo { reach: *final(cur_end), src_start: *final(cur_end) }
                }
            },
            r is Ok && old(self).reach.reliable() ==> final(self).reach.reliable(),
            old(self).reach.reliable() ==> r is Ok,
            above_min(min_cap, old(farthest).reach - *old(cur_end)) ==> r is Ok,
    {
        let ghost data = self.reach.data();
        let ghost image = self.reach.image();
        let ghost specs0 = chunk_specs(chunks@);
        proof {
            self.reach.lemma_image_len();
        }
        // trim the winning match down to its unclaimed suffix, since it may
        // have started before cur_end
        let offset = *cur_end - farthest_data_start;
        let size = farthest.reach - *cur_end;
        let index = match farthest.src_start.checked_add(offset) {
            Some(x) => x,
            None => return Err(StreamError::new(ErrorKind::InvalidData)),
        };
        if index.checked_add(size).is_none() {
            return Err(StreamError::new(ErrorKind::InvalidData));
        }
        proof {
            let src = farthest.src_start as int;
            let mlen = farthest.reach - farthest_data_start;
            lemma_sub_match(image, data, src, farthest_data_start as int, mlen, offset as int, mlen);
        }
        let above_min = match min_cap {
            None => true,
            Some(m) => m < size,
        };
        if above_min {
            // split into pieces no larger than max_cap, if given
            let mut remaining: ChunkSize = size;
            let mut piece_index: ChunkIndex = index;
            let start = *cur_end;
            while remaining > 0
                invariant
                    max_cap matches Some(c) ==> c > 0,
                    0 <= remaining <= size,
                    piece_index == index + (size - remaining),
                    0 <= index,
                    index + size <= image.len(),
                    index + size <= ChunkIndex::MAX,
                    start + size <= data.len(),
                    0 <= start,
                    image.subrange(index as int, index + size) == data.subrange(start as int, start + size),
                    max_cap is None && min_cap is Some ==> min_cap->0 < size,
                    max_cap is None ==> remaining == size || remaining == 0,
                    covers(chunks@, data, image, start + (size - remaining), min_cap, max_cap),
                    specs0 + ref_pieces(index as int, size as int, max_cap) == chunk_specs(chunks@)
                        + ref_pieces(piece_index as int, remaining as int, max_cap),
                decreases remaining,
            {
                let piece_size = match max_cap {
                    Some(cap) => if remaining < cap {
                        remaining
                    } else {
                        cap
                    },
                    None => remaining,
                };
                let c = ChunkInfo::Reference { index: piece_index, size: piece_size };
                proof {
                    let done = size - remaining;
                    lemma_sub_match(image, data, index as int, start as int, size as int, done, done + piece_size);
                    lemma_covers_push(chunks@, c, data, image, start + done, piece_size as int, min_cap, max_cap);
                    lemma_chunk_specs_push(chunks@, c);
                    let rest = ref_pieces::<E>(piece_index + piece_size, remaining - piece_size, max_cap);
                    assert(ref_pieces::<E>(piece_index as int, remaining as int, max_cap) == seq![
                        ChunkSpec::Reference { index: piece_index as int, size: piece_size as int },
                    ] + rest);
                    assert(chunk_specs(chunks@) + (seq![
                        ChunkSpec::Reference { index: piece_index as int, size: piece_size as int },
                    ] + rest) =~= chunk_specs(chunks@).push(chunk_spec(c)) + rest);
                }
                chunks.push(c);
                piece_index = piece_index + piece_size;
                remaining = remaining - piece_size;
            }
            proof {
                assert(ref_pieces::<E>(piece_index as int, 0, max_cap) =~= Seq::<ChunkSpec<E>>::empty());
                assert(chunk_specs(chunks@) + Seq::<ChunkSpec<E>>::empty() =~= chunk_specs(chunks@));
            }
            *cur_end = farthest.reach;
        } else {
            // not longer than min_cap: use a literal chunk instead
            let elem = self.reach.get_elems(*cur_end, 1)?;
            let c = ChunkInfo::Literal(elem);
            proof {
                lemma_covers_push(chunks@, c, data, image, *cur_end as int, 1, min_cap, max_cap);
                lemma_chunk_specs_push(chunks@, c);
            }
            chunks.push(c);
            *cur_end = *cur_end + 1;
            *farthest = MatchInfo { reach: *cur_end, src_start: *cur_end };
        }
        Ok(())
    }

    /// Utility of `map_chunks`: maps a literal chunk over the positions from
    /// `cur_end` on that have no match (there is at least one), then moves
    /// `cur_end` and `farthest` past it.
    fn map_literal_chunk(
        &mut self,
        min_cap: Option<ChunkSize>,
        max_cap: Option<ChunkSize>,
        chunks: &mut Vec<ChunkInfo<E>>,
        cur_end: &mut ChunkIndex,
        farthest: &mut MatchInfo,
    ) -> (r: StreamResult<()>)
        requires
            old(self).reach.inv(),
            covers(old(chunks)@, old(self).reach.data(), old(self).reach.image(), *old(cur_end) as int, min_cap, max_cap),
            *old(cur_end) < old(self).reach.data().len(),
            old(self).reach.match_at(*old(cur_end) as int).reach <= *old(cur_end),
        ensures
            *final(final(self).reach) == *final(old(self).reach),
            r is Ok ==> {
                &&& final(self).reach.inv()
                &&& final(self).reach.data() == old(self).reach.data()
                &&& final(self).reach.image() == old(self).reach.image()
                &&& forall|k: int| #[trigger] final(self).reach.match_at(k) == old(self).reach.match_at(k)
                &&& covers(final(chunks)@, old(self).reach.data(), old(self).reach.image(), *final(cur_end) as int, min_cap, max_cap)
                &&& *old(cur_end) < *final(cur_end)
                &&& *final(cur_end) == literal_end(
                    matches_of(*old(self).reach),
                    *old(cur_end) as int,
                    old(self).reach.data().len() as int,
                )
                &&& *final(farthest) == MatchInfo { reach: *final(cur_end), src_start: *final(cur_end) }
                &&& chunk_specs(final(chunks)@) == chunk_specs(old(chunks)@).push(
                    ChunkSpec::Literal(old(self).reach.data().subrange(*old(cur_end) as int, *final(cur_end) as int)),
                )
            },
            r is Ok && old(self).reach.reliable() ==> final(self).reach.reliable(),
            old(self).reach.reliable() ==> r is Ok,
    {
        let ghost data = self.reach.data();
        let ghost image = self.reach.image();
        let ghost ms = matches_of(*old(self).reach);
        // extend the literal chunk as long as consecutive positions also have no match
        let literal_start = *cur_end;
        let len = self.reach.len()?;
        loop
            invariant
                len == data.len(),
                self.reach.inv(),
                self.reach.data() == data,
                self.reach.image() == image,
                0 <= literal_start < len,
                literal_start <= *cur_end <= len,
                forall|k: int| #[trigger] self.reach.match_at(k) == old(self).reach.match_at(k),
                old(self).reach.match_at(literal_start as int).reach <= literal_start,
                ms == matches_of(*old(self).reach),
                literal_end(ms, literal_start as int, len as int) == literal_end(ms, *cur_end as int, len as int),
                *cur_end == literal_start || literal_start < *cur_end,
                self.reach == old(self).reach,
            ensures
                self.reach == old(self).reach,
                literal_start < *cur_end <= len,
                *cur_end as int == literal_end(ms, literal_start as int, len as int),
                self.reach.inv(),
                self.reach.data() == data,
                self.reach.image() == image,
                forall|k: int| #[trigger] self.reach.match_at(k) == old(self).reach.match_at(k),
            decreases len - *cur_end,
        {
            if *cur_end >= len {
                break;
            }
            let m = self.reach.get(*cur_end)?;
            assert(ms(*cur_end as int) == m);
            if m.reach > *cur_end {
                break;
            }
            *cur_end = *cur_end + 1;
        }
        let elems = self.reach.get_elems(literal_start, *cur_end - literal_start)?;
        let c = ChunkInfo::Literal(elems);
        proof {
            lemma_covers_push(chunks@, c, data, image, literal_start as int, *cur_end - literal_start, min_cap, max_cap);
            lemma_chunk_specs_push(chunks@, c);
        }
        chunks.push(c);
        *farthest = MatchInfo { reach: *cur_end, src_start: *cur_end };
        Ok(())
    }
}

} // verus!
