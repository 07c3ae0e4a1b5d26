//! Spans: windows over a binary stream, each with its own offset, optional
//! end and position, read and written either as bytes or as elements.
use vstd::prelude::*;

use crate::error::{ErrorKind, StreamError, StreamResult};
use crate::streams::traits::{
    written_at, ConstBinParsible, InputBinaryStream, InputElemStream, OutputBinaryStream,
    OutputElemStream, Stream, StreamPos,
};

verus! {

/// Amount of stream items covered by a span that starts at `offset`, with an
/// optional (exclusive) `end`, over a stream holding `stream_len` items.
pub open spec fn span_len(stream_len: int, offset: int, end: Option<StreamPos>) -> int {
    let avail = stream_len - offset;
    let lim = match end {
        Some(e) => if e - offset < avail {
            e - offset
        } else {
            avail
        },
        None => avail,
    };
    if lim < 0 {
        0
    } else {
        lim
    }
}

/// Largest position (counted from `offset`) a span can be moved to and
/// written up to, over a stream whose own limit is `stream_limit`: within
/// the range of stream positions, and not beyond the span's `end`.
pub open spec fn span_limit(stream_limit: int, offset: int, end: Option<StreamPos>) -> int {
    let cap = if stream_limit < StreamPos::MAX {
        stream_limit
    } else {
        StreamPos::MAX as int
    };
    let cap = match end {
        Some(e) => if e < cap {
            e as int
        } else {
            cap
        },
        None => cap,
    };
    cap - offset
}

/// The `len` items of `content` starting at `off` (nothing when `len` is not positive).
pub open spec fn window<T>(content: Seq<T>, off: int, len: int) -> Seq<T> {
    if len <= 0 {
        Seq::empty()
    } else {
        content.subrange(off, off + len)
    }
}

/// Copies a slice of optional positions into a vector (one per span).
pub fn opt_array(vals: &[Option<StreamPos>]) -> (r: Vec<Option<StreamPos>>)
    ensures
        r@ == vals@,
{
    let mut r: Vec<Option<StreamPos>> = Vec::new();
    let mut i: usize = 0;
    while i < vals.len()
        invariant
            0 <= i <= vals@.len(),
            r@ == vals@.take(i as int),
        decreases vals@.len() - i,
    {
        r.push(vals[i]);
        i = i + 1;
        assert(r@ =~= vals@.take(i as int));
    }
    assert(vals@.take(vals@.len() as int) =~= vals@);
    r
}

/// Spans of bytes over one binary stream.
///
/// Span `i` covers the stream's bytes from `offsets[i]` up to `ends[i]`
/// (exclusive, when given) or up to the stream's end; `poses[i]` is its
/// position, counted from its own start.
pub struct BinarySpans<'a, S> {
    pub stream: &'a mut S,
    pub offsets: Vec<StreamPos>,
    pub ends: Vec<Option<StreamPos>>,
    pub poses: Vec<StreamPos>,
}

impl<'a, S: Stream<u8>> BinarySpans<'a, S> {
    /// The layout vectors agree in length and hold no negative offset or position.
    pub open spec fn wf(&self) -> bool {
        &&& self.offsets@.len() == self.ends@.len()
        &&& self.offsets@.len() == self.poses@.len()
        &&& forall|i: int| 0 <= i < self.offsets@.len() ==> 0 <= #[trigger] self.offsets@[i]
        &&& forall|i: int| 0 <= i < self.poses@.len() ==> 0 <= #[trigger] self.poses@[i]
    }

    /// Amount of spans.
    pub open spec fn count(&self) -> nat {
        self.offsets@.len()
    }

    /// Amount of bytes covered by span `i`.
    pub open spec fn span_size(&self, i: int) -> int {
        span_len(self.stream.content().len() as int, self.offsets@[i] as int, self.ends@[i])
    }

    /// Bytes covered by span `i`.
    pub open spec fn span_content(&self, i: int) -> Seq<u8> {
        window(self.stream.content(), self.offsets@[i] as int, self.span_size(i))
    }

    /// Constructs a new instance; every span starts at local position 0.
    ///
    /// * `stream` - Base binary stream.
    /// * `offsets` - Optional starting byte offset of each span (0 when absent).
    /// * `ends` - Optional (exclusive) ending byte offset of each span.
    pub fn new(stream: &'a mut S, offsets: Vec<Option<StreamPos>>, ends: Vec<Option<StreamPos>>) -> (r: Self)
        requires
            offsets@.len() == ends@.len(),
            forall|i: int| 0 <= i < offsets@.len() ==> (#[trigger] offsets@[i] matches Some(o) ==> 0 <= o),
        ensures
            *r.stream == *old(stream),
            *final(r.stream) == *final(stream),
            r.wf(),
            r.count() == offsets@.len(),
            r.ends@ == ends@,
            forall|i: int| 0 <= i < offsets@.len() ==> #[trigger] r.offsets@[i] == match offsets@[i] {
                Some(o) => o,
                None => 0,
            },
            forall|i: int| 0 <= i < offsets@.len() ==> #[trigger] r.poses@[i] == 0,
    {
        let mut offs: Vec<StreamPos> = Vec::new();
        let mut poses: Vec<StreamPos> = Vec::new();
        let mut i: usize = 0;
        while i < offsets.len()
            invariant
                0 <= i <= offsets@.len(),
                offs@.len() == i,
                poses@.len() == i,
                forall|j: int| 0 <= j < offsets@.len() ==> (#[trigger] offsets@[j] matches Some(o) ==> 0 <= o),
                forall|j: int| 0 <= j < i ==> #[trigger] offs@[j] == match offsets@[j] {
                    Some(o) => o,
                    None => 0,
                },
                forall|j: int| 0 <= j < i ==> #[trigger] poses@[j] == 0,
            decreases offsets@.len() - i,
        {
            let o = match offsets[i] {
                Some(o) => o,
                None => 0,
            };
            offs.push(o);
            poses.push(0);
            i = i + 1;
        }
        BinarySpans { stream, offsets: offs, ends, poses }
    }

    /// Gets the position of span `i`.
    pub fn get_pos(&self, i: usize) -> (r: StreamResult<StreamPos>)
        requires
            self.wf(),
            i < self.count(),
        ensures
            r == Ok::<StreamPos, StreamError>(self.poses@[i as int]),
    {
        Ok(self.poses[i])
    }

    /// Moves span `i` (and the stream) to local position `pos`.
    ///
    /// Fails with `InvalidInput` (changing nothing) when the matching stream
    /// position is out of range.
    pub fn set_pos(&mut self, i: usize, pos: StreamPos) -> (r: StreamResult<()>)
        requires
            old(self).wf(),
            i < old(self).count(),
            0 <= pos,
        ensures
            final(self).wf(),
            *final(final(self).stream) == *final(old(self).stream),
            r is Ok && old(self).stream.reliable() ==> final(self).stream.reliable(),
            final(self).stream.limit() == old(self).stream.limit(),
            final(self).offsets@ == old(self).offsets@,
            final(self).ends@ == old(self).ends@,
            r is Ok ==> final(self).poses@ == old(self).poses@.update(i as int, pos),
            r is Err ==> final(self).poses@ == old(self).poses@,
            r is Ok ==> final(self).stream.content() == old(self).stream.content(),
            r is Ok ==> final(self).stream.position() == old(self).offsets@[i as int] + pos,
            old(self).offsets@[i as int] + pos > StreamPos::MAX ==> r is Err && *final(self).stream == *old(self).stream,
            old(self).stream.reliable() && old(self).offsets@[i as int] + pos <= StreamPos::MAX && old(
                self,
            ).offsets@[i as int] + pos <= old(self).stream.limit() ==> r is Ok,
    {
        let off = self.offsets[i];
        if pos > StreamPos::MAX - off {
            return Err(StreamError::new(ErrorKind::InvalidInput));
        }
        self.stream.set_pos(off + pos)?;
        self.poses.set(i, pos);
        Ok(())
    }

    /// Moves span `i` back to its start.
    pub fn rewind(&mut self, i: usize) -> (r: StreamResult<()>)
        requires
            old(self).wf(),
            i < old(self).count(),
        ensures
            final(self).wf(),
            *final(final(self).stream) == *final(old(self).stream),
            r is Ok && old(self).stream.reliable() ==> final(self).stream.reliable(),
            final(self).stream.limit() == old(self).stream.limit(),
            final(self).offsets@ == old(self).offsets@,
            final(self).ends@ == old(self).ends@,
            r is Ok ==> final(self).poses@ == old(self).poses@.update(i as int, 0),
            r is Err ==> final(self).poses@ == old(self).poses@,
            r is Ok ==> final(self).stream.content() == old(self).stream.content(),
            r is Ok ==> final(self).stream.position() == old(self).offsets@[i as int],
            old(self).stream.reliable() && old(self).offsets@[i as int] <= old(self).stream.limit() ==> r is Ok,
    {
        self.set_pos(i, 0)
    }

    /// Gets the amount of bytes covered by span `i`.
    pub fn get_size(&mut self, i: usize) -> (r: StreamResult<StreamPos>)
        requires
            old(self).wf(),
            i < old(self).count(),
        ensures
            final(self).wf(),
            *final(final(self).stream) == *final(old(self).stream),
            r is Ok && old(self).stream.reliable() ==> final(self).stream.reliable(),
            final(self).stream.limit() == old(self).stream.limit(),
            final(self).offsets@ == old(self).offsets@,
            final(self).ends@ == old(self).ends@,
            final(self).poses@ == old(self).poses@,
            r matches Ok(s) ==> {
                &&& s == old(self).span_size(i as int)
                &&& final(self).stream.content() == old(self).stream.content()
                &&& final(self).stream.position() == old(self).stream.position()
            },
            old(self).stream.reliable() ==> r is Ok,
    {
        let stream_size = self.stream.get_size()?;
        let off = self.offsets[i];
        let avail = stream_size - off;
        let lim = match self.ends[i] {
            Some(e) => if e <= off {
                0
            } else if e - off < avail {
                e - off
            } else {
                avail
            },
            None => avail,
        };
        Ok(if lim < 0 { 0 } else { lim })
    }

    /// Makes the stream's position match the cached position of span `i`.
    fn ensure_pos(&mut self, i: usize) -> (r: StreamResult<()>)
        requires
            old(self).wf(),
            i < old(self).count(),
        ensures
            final(self).wf(),
            *final(final(self).stream) == *final(old(self).stream),
            r is Ok && old(self).stream.reliable() ==> final(self).stream.reliable(),
            final(self).stream.limit() == old(self).stream.limit(),
            final(self).offsets@ == old(self).offsets@,
            final(self).ends@ == old(self).ends@,
            final(self).poses@ == old(self).poses@,
            r is Ok ==> final(self).stream.content() == old(self).stream.content(),
            r is Ok ==> final(self).stream.position() == old(self).offsets@[i as int] + old(
                self,
            ).poses@[i as int],
            old(self).stream.reliable() && old(self).offsets@[i as int] + old(self).poses@[i as int]
                <= StreamPos::MAX && old(self).offsets@[i as int] + old(self).poses@[i as int] <= old(
                self,
            ).stream.limit() ==> r is Ok,
    {
        let p = self.poses[i];
        self.set_pos(i, p)?;
        assert(self.poses@ =~= old(self).poses@);
        Ok(())
    }

    /// Makes the cached position of span `i` match the stream's position.
    fn update_pos(&mut self, i: usize) -> (r: StreamResult<()>)
        requires
            old(self).wf(),
            i < old(self).count(),
        ensures
            final(self).wf(),
            *final(final(self).stream) == *final(old(self).stream),
            r is Ok && old(self).stream.reliable() ==> final(self).stream.reliable(),
            final(self).stream.limit() == old(self).stream.limit(),
            final(self).offsets@ == old(self).offsets@,
            final(self).ends@ == old(self).ends@,
            r is Err ==> final(self).poses@ == old(self).poses@,
            r is Ok ==> {
                &&& final(self).poses@ == old(self).poses@.update(
                    i as int,
                    (old(self).stream.position() - old(self).offsets@[i as int]) as StreamPos,
                )
                &&& final(self).stream.content() == old(self).stream.content()
                &&& final(self).stream.position() == old(self).stream.position()
                &&& old(self).offsets@[i as int] <= old(self).stream.position() <= StreamPos::MAX
            },
            old(self).stream.position() < old(self).offsets@[i as int] ==> r is Err,
            old(self).stream.reliable() && old(self).offsets@[i as int] <= old(self).stream.position() ==> r is Ok,
    {
        let global = self.stream.get_pos()?;
        let off = self.offsets[i];
        if global < off {
            return Err(StreamError::new(ErrorKind::InvalidData));
        }
        self.poses.set(i, global - off);
        Ok(())
    }
}

impl<'a, S: InputBinaryStream> BinarySpans<'a, S> {
    /// Fills `buff` with the bytes of span `i` at its position and moves past them.
    ///
    /// Fails with `UnexpectedEof` when the span holds fewer bytes past its position.
    pub fn read_bytes(&mut self, i: usize, buff: &mut [u8]) -> (r: StreamResult<()>)
        requires
            old(self).wf(),
            i < old(self).count(),
        ensures
            final(self).wf(),
            *final(final(self).stream) == *final(old(self).stream),
            r is Ok && old(self).stream.reliable() ==> final(self).stream.reliable(),
            final(self).stream.limit() == old(self).stream.limit(),
            final(self).offsets@ == old(self).offsets@,
            final(self).ends@ == old(self).ends@,
            final(buff)@.len() == old(buff)@.len(),
            r is Err ==> final(self).poses@ == old(self).poses@,
            old(self).poses@[i as int] + old(buff)@.len() > old(self).span_size(i as int) ==> r is Err,
            old(self).stream.reliable() && old(self).offsets@[i as int] + old(self).poses@[i as int]
                <= StreamPos::MAX && old(self).offsets@[i as int] + old(self).poses@[i as int] <= old(
                self,
            ).stream.limit() && old(self).poses@[i as int] + old(buff)@.len() <= old(self).span_size(
                i as int,
            ) && old(self).offsets@[i as int] + old(self).poses@[i as int] + old(buff)@.len() <= old(
                self,
            ).stream.content().len() ==> r is Ok,
            r is Ok ==> {
                let p = old(self).poses@[i as int] as int;
                &&& p + old(buff)@.len() <= old(self).span_size(i as int)
                &&& p + old(buff)@.len() <= StreamPos::MAX
                &&& final(buff)@ == old(self).span_content(i as int).subrange(p, p + old(buff)@.len())
                &&& final(self).poses@ == old(self).poses@.update(i as int, (p + old(buff)@.len()) as StreamPos)
                &&& final(self).stream.content() == old(self).stream.content()
            },
    {
        self.ensure_pos(i)?;
        let size = self.get_size(i)?;
        let pos = self.poses[i];
        if size - pos < buff.len() as StreamPos || buff.len() as u64 > StreamPos::MAX as u64 {
            return Err(StreamError::new(ErrorKind::UnexpectedEof));
        }
        self.stream.read_bytes(buff)?;
        self.update_pos(i)?;
        proof {
            let off = old(self).offsets@[i as int] as int;
            let p = pos as int;
            let n = old(buff)@.len() as int;
            assert(buff@ =~= old(self).span_content(i as int).subrange(p, p + n));
        }
        Ok(())
    }
}

impl<'a, S: OutputBinaryStream> BinarySpans<'a, S> {
    /// Writes `buff` at the position of span `i` and moves past it.
    pub fn write_bytes(&mut self, i: usize, buff: &[u8]) -> (r: StreamResult<()>)
        requires
            old(self).wf(),
            i < old(self).count(),
        ensures
            final(self).wf(),
            *final(final(self).stream) == *final(old(self).stream),
            r is Ok && old(self).stream.reliable() ==> final(self).stream.reliable(),
            final(self).stream.limit() == old(self).stream.limit(),
            final(self).offsets@ == old(self).offsets@,
            final(self).ends@ == old(self).ends@,
            r is Err ==> final(self).poses@ == old(self).poses@,
            r is Ok ==> {
                let p = old(self).poses@[i as int] as int;
                let off = old(self).offsets@[i as int] as int;
                &&& final(self).stream.content() == written_at(old(self).stream.content(), off + p, buff@, 0u8)
                &&& final(self).poses@ == old(self).poses@.update(i as int, (p + buff@.len()) as StreamPos)
                &&& p + buff@.len() <= StreamPos::MAX
            },
            old(self).stream.reliable() && old(self).offsets@[i as int] + old(self).poses@[i as int]
                + buff@.len() <= StreamPos::MAX && old(self).offsets@[i as int] + old(self).poses@[i as int]
                + buff@.len() <= old(self).stream.limit() ==> r is Ok,
    {
        self.ensure_pos(i)?;
        self.stream.write_bytes(buff)?;
        self.update_pos(i)?;
        Ok(())
    }

    /// Bounds span `i` to `len` bytes (the stream itself is left as is); a
    /// position beyond `len` is moved back to `len`.
    ///
    /// Fails with `InvalidInput` (changing nothing) when the span's end would
    /// be out of range.
    pub fn truncate(&mut self, i: usize, len: StreamPos) -> (r: StreamResult<()>)
        requires
            old(self).wf(),
            i < old(self).count(),
            0 <= len,
        ensures
            final(self).wf(),
            *final(final(self).stream) == *final(old(self).stream),
            r is Ok && old(self).stream.reliable() ==> final(self).stream.reliable(),
            final(self).stream.limit() == old(self).stream.limit(),
            final(self).offsets@ == old(self).offsets@,
            r is Ok ==> final(self).ends@ == old(self).ends@.update(
                i as int,
                Some((old(self).offsets@[i as int] + len) as StreamPos),
            ),
            r is Ok ==> final(self).stream.content() == old(self).stream.content(),
            r is Ok ==> final(self).poses@ == old(self).poses@.update(
                i as int,
                if old(self).poses@[i as int] > len { len } else { old(self).poses@[i as int] },
            ),
            old(self).offsets@[i as int] + len > StreamPos::MAX ==> r is Err && *final(self) == *old(self),
            old(self).stream.reliable() && old(self).offsets@[i as int] + len <= StreamPos::MAX && old(
                self,
            ).offsets@[i as int] + len <= old(self).stream.limit() ==> r is Ok,
            final(self).ends@ == old(self).ends@ || final(self).ends@ == old(self).ends@.update(
                i as int,
                Some((old(self).offsets@[i as int] + len) as StreamPos),
            ),
    {
        let off = self.offsets[i];
        if len > StreamPos::MAX - off {
            return Err(StreamError::new(ErrorKind::InvalidInput));
        }
        self.ends.set(i, Some(off + len));
        if self.poses[i] > len {
            self.set_pos(i, len)?;
        } else {
            assert(self.poses@ =~= old(self).poses@.update(i as int, old(self).poses@[i as int]));
        }
        Ok(())
    }
}

} // verus!

verus! {

/// Writing within a span's window changes the window's bytes as writing into
/// the window itself would.
pub proof fn lemma_span_written_at(
    content: Seq<u8>,
    off: int,
    end: Option<StreamPos>,
    pos: int,
    data: Seq<u8>,
)
    requires
        0 <= off,
        0 <= pos,
        end matches Some(e) ==> off + pos + data.len() <= e,
    ensures
        ({
            let new = written_at(content, off + pos, data, 0u8);
            window(new, off, span_len(new.len() as int, off, end)) == written_at(
                window(content, off, span_len(content.len() as int, off, end)),
                pos,
                data,
                0u8,
            )
        }),
{
    let new = written_at(content, off + pos, data, 0u8);
    let lhs = window(new, off, span_len(new.len() as int, off, end));
    let win = window(content, off, span_len(content.len() as int, off, end));
    let rhs = written_at(win, pos, data, 0u8);
    let n = data.len() as int;
    let l = content.len() as int;
    // length of the rewritten stream
    assert(new.len() == if off + pos + n > l { off + pos + n } else { l });
    assert(rhs.len() == if pos + n > win.len() { pos + n } else { win.len() as int });
    assert(lhs.len() == rhs.len());
    assert forall|k: int| 0 <= k < lhs.len() implies lhs[k] == rhs[k] by {
        if k < pos {
            if off + k < l {
                assert(new[off + k] == content[off + k]);
            } else {
                assert(new[off + k] == 0u8);
            }
        } else if k < pos + n {
            assert(new[off + k] == data[k - pos]);
        } else {
            assert(new[off + k] == content[off + k]);
        }
    }
    assert(lhs =~= rhs);
}

/// Spans are independent: a write through one span leaves the bytes of a
/// sibling span's window as they were, when that window lies within the
/// stream and away from the written bytes.
pub proof fn lemma_sibling_window_kept(content: Seq<u8>, pos: int, data: Seq<u8>, off: int, len: int)
    requires
        0 <= pos,
        0 <= off,
        0 <= len,
        off + len <= content.len(),
        off + len <= pos || pos + data.len() <= off,
    ensures
        window(written_at(content, pos, data, 0u8), off, len) == window(content, off, len),
{
    let new = written_at(content, pos, data, 0u8);
    if len > 0 {
        assert forall|k: int| 0 <= k < len implies #[trigger] new.subrange(off, off + len)[k]
            == content.subrange(off, off + len)[k] by {
            crate::streams::traits::lemma_written_at_elsewhere(content, pos, data, 0u8, off + k);
        }
        assert(new.subrange(off, off + len) =~= content.subrange(off, off + len));
    }
}

/// A span of bytes over a binary stream.
///
/// The span covers the stream's bytes from its offset up to its (exclusive)
/// end, when given, or up to the stream's end; its position counts from its
/// own start.
pub struct BinarySpan<'a, S> {
    pub base: BinarySpans<'a, S>,
}

impl<'a, S: Stream<u8>> BinarySpan<'a, S> {
    /// The span's layout is one consistent window.
    pub open spec fn sound(&self) -> bool {
        self.base.wf() && self.base.count() == 1
    }

    /// Checks that the span's layout is one consistent window.
    fn check(&self) -> (b: bool)
        ensures
            b == self.sound(),
    {
        self.base.offsets.len() == 1 && self.base.ends.len() == 1 && self.base.poses.len() == 1
            && self.base.offsets[0] >= 0 && self.base.poses[0] >= 0
    }

    /// Constructs a new instance.
    ///
    /// * `stream` - Base binary stream.
    /// * `byte_offset` - Optional starting byte offset (0 when absent).
    /// * `byte_end` - Optional (exclusive) ending byte offset.
    pub fn new(stream: &'a mut S, byte_offset: Option<StreamPos>, byte_end: Option<StreamPos>) -> (r: Self)
        requires
            byte_offset matches Some(o) ==> 0 <= o,
        ensures
            *r.base.stream == *old(stream),
            *final(r.base.stream) == *final(stream),
            r.sound(),
            r.base.offsets@[0] == match byte_offset {
                Some(o) => o,
                None => 0,
            },
            r.base.ends@[0] == byte_end,
            r.position() == 0,
            r.content() == window(
                old(stream).content(),
                r.base.offsets@[0] as int,
                span_len(old(stream).content().len() as int, r.base.offsets@[0] as int, byte_end),
            ),
    {
        let offsets = vec![byte_offset];
        let ends = vec![byte_end];
        BinarySpan { base: BinarySpans::new(stream, offsets, ends) }
    }
}

impl<'a, S: Stream<u8>> Stream<u8> for BinarySpan<'a, S> {
    open spec fn content(&self) -> Seq<u8> {
        self.base.span_content(0)
    }

    open spec fn position(&self) -> int {
        self.base.poses@[0] as int
    }

    /// The span is sound, over a reliable stream that reaches its start.
    open spec fn reliable(&self) -> bool {
        &&& self.sound()
        &&& self.base.stream.reliable()
        &&& self.base.offsets@[0] <= self.base.stream.limit()
        &&& self.base.offsets@[0] <= self.base.stream.content().len()
    }

    open spec fn limit(&self) -> int {
        span_limit(self.base.stream.limit(), self.base.offsets@[0] as int, self.base.ends@[0])
    }

    /// Every byte is an item.
    open spec fn whole(&self) -> bool {
        true
    }

    fn rewind(&mut self) -> (r: StreamResult<()>)
        ensures
            *final(final(self).base.stream) == *final(old(self).base.stream),
            old(self).sound() ==> final(self).sound(),
    {
        if !self.check() {
            return Err(StreamError::new(ErrorKind::InvalidInput));
        }
        self.base.rewind(0)
    }

    fn get_pos(&mut self) -> (r: StreamResult<StreamPos>)
        ensures
            *final(self) == *old(self),
            old(self).sound() ==> r is Ok,
    {
        if !self.check() {
            return Err(StreamError::new(ErrorKind::InvalidInput));
        }
        self.base.get_pos(0)
    }

    fn set_pos(&mut self, pos: StreamPos) -> (r: StreamResult<()>)
        ensures
            *final(final(self).base.stream) == *final(old(self).base.stream),
            old(self).sound() ==> final(self).sound(),
    {
        if !self.check() {
            return Err(StreamError::new(ErrorKind::InvalidInput));
        }
        self.base.set_pos(0, pos)
    }

    fn get_size(&mut self) -> (r: StreamResult<StreamPos>)
        ensures
            *final(final(self).base.stream) == *final(old(self).base.stream),
            old(self).sound() ==> final(self).sound(),
    {
        if !self.check() {
            return Err(StreamError::new(ErrorKind::InvalidInput));
        }
        self.base.get_size(0)
    }
}

impl<'a, S: InputBinaryStream> InputBinaryStream for BinarySpan<'a, S> {
    /// Fails when the span holds fewer bytes past its position than `buff` does.
    fn read_bytes(&mut self, buff: &mut [u8]) -> (r: StreamResult<()>)
        ensures
            *final(final(self).base.stream) == *final(old(self).base.stream),
            old(self).sound() ==> final(self).sound(),
            old(self).position() + old(buff)@.len() > old(self).content().len() ==> r is Err,
    {
        if !self.check() {
            return Err(StreamError::new(ErrorKind::InvalidInput));
        }
        self.base.read_bytes(0, buff)
    }
}

impl<'a, S: OutputBinaryStream> OutputBinaryStream for BinarySpan<'a, S> {
    /// Fails with `WriteZero` (changing nothing) when the bytes would reach
    /// beyond the span's end.
    fn write_bytes(&mut self, buff: &[u8]) -> (r: StreamResult<()>)
        ensures
            *final(final(self).base.stream) == *final(old(self).base.stream),
            old(self).sound() ==> final(self).sound(),
            old(self).sound() && (old(self).base.ends@[0] matches Some(e) && old(self).base.offsets@[0]
                + old(self).position() + buff@.len() > e) ==> r is Err && *final(self) == *old(self),
    {
        if !self.check() {
            return Err(StreamError::new(ErrorKind::InvalidInput));
        }
        let off = self.base.offsets[0];
        let pos = self.base.poses[0];
        if let Some(e) = self.base.ends[0] {
            if buff.len() as u64 > StreamPos::MAX as u64 || pos > StreamPos::MAX - off || off + pos > e
                || buff.len() as StreamPos > e - (off + pos) {
                return Err(StreamError::new(ErrorKind::WriteZero));
            }
        }
        let ghost old_content = self.base.stream.content();
        let r = self.base.write_bytes(0, buff);
        proof {
            if r is Ok {
                lemma_span_written_at(old_content, off as int, self.base.ends@[0], pos as int, buff@);
            }
        }
        r
    }

    /// Bounds the span to `len` bytes (the stream itself is left as is).
    fn truncate(&mut self, len: StreamPos) -> (r: StreamResult<()>)
        ensures
            *final(final(self).base.stream) == *final(old(self).base.stream),
            old(self).sound() ==> final(self).sound(),
    {
        if !self.check() {
            return Err(StreamError::new(ErrorKind::InvalidInput));
        }
        self.base.truncate(0, len)
    }
}

} // verus!

verus! {

/// The `count` elements parsed from `bytes`, starting at byte `off`, each
/// taking `E::spec_buff_size()` bytes.
pub open spec fn parse_elems<E: ConstBinParsible>(bytes: Seq<u8>, off: int, count: int) -> Seq<E> {
    Seq::new(
        count as nat,
        |k: int|
            E::spec_parse(
                bytes.subrange(off + k * E::spec_buff_size(), off + (k + 1) * E::spec_buff_size()),
            ),
    )
}

/// Byte bounds of element `k` of a window of `count == bsize / esz` elements.
proof fn lemma_elem_bounds(k: int, count: int, esz: int, bsize: int)
    requires
        0 < esz,
        0 <= bsize,
        count == bsize / esz,
        0 <= k < count,
    ensures
        0 <= k * esz,
        (k + 1) * esz == k * esz + esz,
        (k + 1) * esz <= bsize,
        count * esz <= bsize < (count + 1) * esz,
{
    vstd::arithmetic::div_mod::lemma_fundamental_div_mod(bsize, esz);
    assert(0 <= k * esz) by (nonlinear_arith)
        requires
            0 <= k,
            0 < esz,
    ;
    assert((k + 1) * esz == k * esz + esz) by (nonlinear_arith);
    assert((k + 1) * esz <= count * esz) by (nonlinear_arith)
        requires
            k + 1 <= count,
            0 < esz,
    ;
    assert((count + 1) * esz == count * esz + esz) by (nonlinear_arith);
}

/// Elements `k` and `p` of a window occupy disjoint bytes.
proof fn lemma_elems_disjoint(k: int, p: int, esz: int)
    requires
        0 < esz,
        0 <= k,
        0 <= p,
        k != p,
    ensures
        (k + 1) * esz <= p * esz || (p + 1) * esz <= k * esz,
{
    if k < p {
        assert((k + 1) * esz <= p * esz) by (nonlinear_arith)
            requires
                k + 1 <= p,
                0 < esz,
        ;
    } else {
        assert((p + 1) * esz <= k * esz) by (nonlinear_arith)
            requires
                p + 1 <= k,
                0 < esz,
        ;
    }
}

/// Spans of elements over one binary stream.
///
/// Span `i` covers the stream's bytes from `offsets[i]` up to `ends[i]`
/// (exclusive, when given) or up to the stream's end, and holds the whole
/// elements that fit in them; `poses[i]` is its position, counted in
/// elements from its own start.
pub struct BinaryElemSpans<'a, E, S> {
    pub stream: &'a mut S,
    pub offsets: Vec<StreamPos>,
    pub ends: Vec<Option<StreamPos>>,
    pub poses: Vec<StreamPos>,
    pub phantom: core::marker::PhantomData<E>,
}

impl<'a, E: ConstBinParsible, S: Stream<u8>> BinaryElemSpans<'a, E, S> {
    /// The layout vectors agree in length and hold no negative offset or position.
    pub open spec fn wf(&self) -> bool {
        &&& self.offsets@.len() == self.ends@.len()
        &&& self.offsets@.len() == self.poses@.len()
        &&& forall|i: int| 0 <= i < self.offsets@.len() ==> 0 <= #[trigger] self.offsets@[i]
        &&& forall|i: int| 0 <= i < self.poses@.len() ==> 0 <= #[trigger] self.poses@[i]
    }

    /// Amount of spans.
    pub open spec fn count(&self) -> nat {
        self.offsets@.len()
    }

    /// Amount of bytes covered by span `i`.
    pub open spec fn byte_size(&self, i: int) -> int {
        span_len(self.stream.content().len() as int, self.offsets@[i] as int, self.ends@[i])
    }

    /// Amount of whole elements held by span `i`.
    pub open spec fn elem_count(&self, i: int) -> int {
        self.byte_size(i) / (E::spec_buff_size() as int)
    }

    /// Elements held by span `i`.
    pub open spec fn elem_content(&self, i: int) -> Seq<E> {
        parse_elems::<E>(self.stream.content(), self.offsets@[i] as int, self.elem_count(i))
    }

    /// Constructs a new instance; every span starts at local position 0.
    ///
    /// * `stream` - Base binary stream.
    /// * `byte_offsets` - Optional starting byte offset of each span (0 when absent).
    /// * `byte_ends` - Optional (exclusive) ending byte offset of each span.
    pub fn new(
        stream: &'a mut S,
        byte_offsets: Vec<Option<StreamPos>>,
        byte_ends: Vec<Option<StreamPos>>,
    ) -> (r: Self)
        requires
            byte_offsets@.len() == byte_ends@.len(),
            forall|i: int|
                0 <= i < byte_offsets@.len() ==> (#[trigger] byte_offsets@[i] matches Some(o) ==> 0 <= o),
        ensures
            *r.stream == *old(stream),
            *final(r.stream) == *final(stream),
            r.wf(),
            r.count() == byte_offsets@.len(),
            r.ends@ == byte_ends@,
            forall|i: int| 0 <= i < byte_offsets@.len() ==> #[trigger] r.offsets@[i] == match byte_offsets@[i] {
                Some(o) => o,
                None => 0,
            },
            forall|i: int| 0 <= i < byte_offsets@.len() ==> #[trigger] r.poses@[i] == 0,
    {
        let spans = BinarySpans::new(stream, byte_offsets, byte_ends);
        let BinarySpans { stream, offsets, ends, poses } = spans;
        BinaryElemSpans { stream, offsets, ends, poses, phantom: core::marker::PhantomData }
    }

    /// Gets the position (in elements) of span `i`.
    pub fn get_pos(&self, i: usize) -> (r: StreamResult<StreamPos>)
        requires
            self.wf(),
            i < self.count(),
        ensures
            r == Ok::<StreamPos, StreamError>(self.poses@[i as int]),
    {
        Ok(self.poses[i])
    }

    /// Moves span `i` (and the stream) to element position `pos`.
    ///
    /// Fails with `InvalidInput` (changing nothing) when the matching stream
    /// position is out of range.
    pub fn set_pos(&mut self, i: usize, pos: StreamPos) -> (r: StreamResult<()>)
        requires
            old(self).wf(),
            i < old(self).count(),
            0 <= pos,
        ensures
            final(self).wf(),
            *final(final(self).stream) == *final(old(self).stream),
            r is Ok && old(self).stream.reliable() ==> final(self).stream.reliable(),
            final(self).stream.limit() == old(self).stream.limit(),
            final(self).offsets@ == old(self).offsets@,
            final(self).ends@ == old(self).ends@,
            r is Ok ==> final(self).poses@ == old(self).poses@.update(i as int, pos),
            r is Err ==> final(self).poses@ == old(self).poses@,
            r is Ok ==> final(self).stream.content() == old(self).stream.content(),
            r is Ok ==> final(self).stream.position() == old(self).offsets@[i as int] + pos
                * E::spec_buff_size(),
            old(self).offsets@[i as int] + pos * E::spec_buff_size() > StreamPos::MAX ==> r is Err
                && *final(self).stream == *old(self).stream,
            old(self).stream.reliable() && old(self).offsets@[i as int] + pos * E::spec_buff_size()
                <= StreamPos::MAX && old(self).offsets@[i as int] + pos * E::spec_buff_size() <= old(
                self,
            ).stream.limit() ==> r is Ok,
    {
        let esz = E::buff_size();
        let off = self.offsets[i];
        proof {
            E::lemma_parse_unparse(arbitrary());
        }
        if esz as u64 > StreamPos::MAX as u64 {
            proof {
                assert(pos * E::spec_buff_size() >= 0) by (nonlinear_arith)
                    requires 0 <= pos, 0 <= E::spec_buff_size();
                if pos > 0 {
                    assert(pos * E::spec_buff_size() >= E::spec_buff_size()) by (nonlinear_arith)
                        requires 1 <= pos, 0 <= E::spec_buff_size();
                }
            }
            if pos == 0 {
                proof {
                    vstd::arithmetic::mul::lemma_mul_basics(E::spec_buff_size() as int);
                }
                self.stream.set_pos(off)?;
                self.poses.set(i, pos);
                return Ok(());
            }
            return Err(StreamError::new(ErrorKind::InvalidInput));
        }
        let esz = esz as StreamPos;
        if pos > (StreamPos::MAX - off) / esz {
            proof {
                let q = (StreamPos::MAX - off) / (esz as int);
                vstd::arithmetic::div_mod::lemma_fundamental_div_mod(StreamPos::MAX - off, esz as int);
                assert(pos * esz >= (q + 1) * esz) by (nonlinear_arith)
                    requires pos >= q + 1, esz > 0;
                assert((q + 1) * esz == q * esz + esz) by (nonlinear_arith);
                vstd::arithmetic::div_mod::lemma_mod_pos_bound(StreamPos::MAX - off, esz as int);
                vstd::arithmetic::mul::lemma_mul_is_commutative(q, esz as int);
                assert(off + pos * esz > StreamPos::MAX);
            }
            return Err(StreamError::new(ErrorKind::InvalidInput));
        }
        proof {
            let q = (StreamPos::MAX - off) / (esz as int);
            vstd::arithmetic::div_mod::lemma_fundamental_div_mod(StreamPos::MAX - off, esz as int);
            assert(pos * esz <= q * esz) by (nonlinear_arith)
                requires pos <= q, esz > 0;
            assert(pos * esz >= 0) by (nonlinear_arith)
                requires pos >= 0, esz > 0;
            vstd::arithmetic::div_mod::lemma_mod_pos_bound(StreamPos::MAX - off, esz as int);
            vstd::arithmetic::mul::lemma_mul_is_commutative(q, esz as int);
            assert(q * esz <= StreamPos::MAX - off);
        }
        self.stream.set_pos(off + pos * esz)?;
        self.poses.set(i, pos);
        Ok(())
    }

    /// Moves span `i` back to its start.
    pub fn rewind(&mut self, i: usize) -> (r: StreamResult<()>)
        requires
            old(self).wf(),
            i < old(self).count(),
        ensures
            final(self).wf(),
            *final(final(self).stream) == *final(old(self).stream),
            r is Ok && old(self).stream.reliable() ==> final(self).stream.reliable(),
            final(self).stream.limit() == old(self).stream.limit(),
            final(self).offsets@ == old(self).offsets@,
            final(self).ends@ == old(self).ends@,
            r is Ok ==> final(self).poses@ == old(self).poses@.update(i as int, 0),
            r is Err ==> final(self).poses@ == old(self).poses@,
            r is Ok ==> final(self).stream.content() == old(self).stream.content(),
            old(self).stream.reliable() && old(self).offsets@[i as int] <= old(self).stream.limit() ==> r is Ok,
    {
        self.set_pos(i, 0)
    }

    /// Gets the amount of whole elements held by span `i`.
    pub fn get_size(&mut self, i: usize) -> (r: StreamResult<StreamPos>)
        requires
            old(self).wf(),
            i < old(self).count(),
        ensures
            final(self).wf(),
            *final(final(self).stream) == *final(old(self).stream),
            r is Ok && old(self).stream.reliable() ==> final(self).stream.reliable(),
            final(self).stream.limit() == old(self).stream.limit(),
            final(self).offsets@ == old(self).offsets@,
            final(self).ends@ == old(self).ends@,
            final(self).poses@ == old(self).poses@,
            r matches Ok(s) ==> {
                &&& s == old(self).elem_count(i as int)
                &&& final(self).stream.content() == old(self).stream.content()
                &&& final(self).stream.position() == old(self).stream.position()
            },
            old(self).stream.reliable() ==> r is Ok,
    {
        let stream_size = self.stream.get_size()?;
        let off = self.offsets[i];
        let avail = stream_size - off;
        let lim = match self.ends[i] {
            Some(e) => if e <= off {
                0
            } else if e - off < avail {
                e - off
            } else {
                avail
            },
            None => avail,
        };
        let bytes = if lim < 0 { 0 } else { lim };
        let esz = E::buff_size();
        proof {
            E::lemma_parse_unparse(arbitrary());
        }
        if esz as u64 > StreamPos::MAX as u64 {
            proof {
                vstd::arithmetic::div_mod::lemma_basic_div(bytes as int, esz as int);
            }
            return Ok(0);
        }
        Ok(bytes / (esz as StreamPos))
    }

    /// Makes the stream's position match the cached position of span `i`.
    fn ensure_pos(&mut self, i: usize) -> (r: StreamResult<()>)
        requires
            old(self).wf(),
            i < old(self).count(),
        ensures
            final(self).wf(),
            *final(final(self).stream) == *final(old(self).stream),
            r is Ok && old(self).stream.reliable() ==> final(self).stream.reliable(),
            final(self).stream.limit() == old(self).stream.limit(),
            final(self).offsets@ == old(self).offsets@,
            final(self).ends@ == old(self).ends@,
            final(self).poses@ == old(self).poses@,
            r is Ok ==> final(self).stream.content() == old(self).stream.content(),
            r is Ok ==> final(self).stream.position() == old(self).offsets@[i as int] + old(
                self,
            ).poses@[i as int] * E::spec_buff_size(),
            r is Ok ==> old(self).offsets@[i as int] + old(self).poses@[i as int] * E::spec_buff_size()
                <= StreamPos::MAX,
            old(self).stream.reliable() && old(self).offsets@[i as int] + old(self).poses@[i as int]
                * E::spec_buff_size() <= StreamPos::MAX && old(self).offsets@[i as int] + old(
                self,
            ).poses@[i as int] * E::spec_buff_size() <= old(self).stream.limit() ==> r is Ok,
    {
        let p = self.poses[i];
        self.set_pos(i, p)?;
        assert(self.poses@ =~= old(self).poses@);
        Ok(())
    }
}

} // verus!

verus! {

/// Writing the bytes of element `e` at element position `pos` of a window of
/// elements (within the window, or just past its last whole element) replaces
/// or appends that element.
proof fn lemma_elem_written_at<E: ConstBinParsible>(
    bytes: Seq<u8>,
    off: int,
    end: Option<StreamPos>,
    pos: int,
    e: E,
)
    requires
        0 <= off,
        0 <= pos,
        end matches Some(x) ==> off + (pos + 1) * E::spec_buff_size() <= x,
        pos <= span_len(bytes.len() as int, off, end) / (E::spec_buff_size() as int),
    ensures
        ({
            let esz = E::spec_buff_size() as int;
            let count = span_len(bytes.len() as int, off, end) / esz;
            let new = written_at(bytes, off + pos * esz, e.spec_unparse(), 0u8);
            let count2 = span_len(new.len() as int, off, end) / esz;
            let old_elems = parse_elems::<E>(bytes, off, count);
            &&& parse_elems::<E>(new, off, count2) == if pos < count {
                old_elems.update(pos, e)
            } else {
                old_elems.push(e)
            }
            &&& pos < count ==> count2 == count
            &&& pos == count ==> count2 == count + 1
        }),
{
    E::lemma_parse_unparse(e);
    let esz = E::spec_buff_size() as int;
    let data = e.spec_unparse();
    let bsize = span_len(bytes.len() as int, off, end);
    let count = bsize / esz;
    let g = off + pos * esz;
    let new = written_at(bytes, g, data, 0u8);
    let l = bytes.len() as int;
    vstd::arithmetic::div_mod::lemma_fundamental_div_mod(bsize, esz);
    vstd::arithmetic::div_mod::lemma_mod_pos_bound(bsize, esz);
    vstd::arithmetic::mul::lemma_mul_is_commutative(count, esz);
    assert((pos + 1) * esz == pos * esz + esz) by (nonlinear_arith);
    assert((count + 1) * esz == count * esz + esz) by (nonlinear_arith);
    assert(pos * esz >= 0) by (nonlinear_arith)
        requires
            pos >= 0,
            esz > 0,
    ;
    assert(count >= 0) by {
        vstd::arithmetic::div_mod::lemma_div_pos_is_pos(bsize, esz);
    }
    assert(new.len() == if g + esz > l { g + esz } else { l });
    let bsize2 = span_len(new.len() as int, off, end);
    let count2 = bsize2 / esz;
    if pos < count {
        assert(pos * esz + esz <= count * esz) by (nonlinear_arith)
            requires
                pos + 1 <= count,
                esz > 0,
                (pos + 1) * esz == pos * esz + esz,
        ;
        assert(new.len() == l);
        assert(bsize2 == bsize);
    } else {
        assert(pos == count);
        assert(bsize2 == count * esz + esz);
        vstd::arithmetic::div_mod::lemma_div_multiples_vanish(count + 1, esz);
        vstd::arithmetic::mul::lemma_mul_is_commutative(count + 1, esz);
        assert(count2 == count + 1);
    }
    let old_elems = parse_elems::<E>(bytes, off, count);
    let new_elems = parse_elems::<E>(new, off, count2);
    let expected = if pos < count {
        old_elems.update(pos, e)
    } else {
        old_elems.push(e)
    };
    assert(new_elems.len() == expected.len());
    assert forall|k: int| 0 <= k < new_elems.len() implies new_elems[k] == expected[k] by {
        if k == pos {
            assert(new.subrange(off + k * esz, off + (k + 1) * esz) =~= data);
        } else {
            lemma_elems_disjoint(k, pos, esz);
            lemma_elem_bounds(k, count, esz, bsize);
            assert(new.subrange(off + k * esz, off + (k + 1) * esz) =~= bytes.subrange(
                off + k * esz,
                off + (k + 1) * esz,
            ));
        }
    }
    assert(new_elems =~= expected);
}

impl<'a, E: ConstBinParsible, S: InputBinaryStream> BinaryElemSpans<'a, E, S> {
    /// Reads the element at the position of span `i` and moves past it.
    ///
    /// Returns `None` at (or beyond) the span's end; fails with
    /// `UnexpectedEof` when only part of an element is left.
    pub fn read_next_elem(&mut self, i: usize) -> (r: StreamResult<Option<E>>)
        requires
            old(self).wf(),
            i < old(self).count(),
        ensures
            final(self).wf(),
            *final(final(self).stream) == *final(old(self).stream),
            r is Ok && old(self).stream.reliable() ==> final(self).stream.reliable(),
            final(self).stream.limit() == old(self).stream.limit(),
            final(self).offsets@ == old(self).offsets@,
            final(self).ends@ == old(self).ends@,
            r is Err ==> final(self).poses@ == old(self).poses@,
            r matches Ok(Some(e)) ==> {
                let p = old(self).poses@[i as int] as int;
                &&& p < old(self).elem_count(i as int)
                &&& p + 1 <= StreamPos::MAX
                &&& e == old(self).elem_content(i as int)[p]
                &&& final(self).poses@ == old(self).poses@.update(i as int, (p + 1) as StreamPos)
                &&& final(self).stream.content() == old(self).stream.content()
            },
            r matches Ok(None) ==> {
                &&& old(self).poses@[i as int] >= old(self).elem_count(i as int)
                &&& final(self).poses@ == old(self).poses@
                &&& final(self).stream.content() == old(self).stream.content()
            },
            old(self).stream.reliable() && old(self).offsets@[i as int] + old(self).poses@[i as int]
                * E::spec_buff_size() <= StreamPos::MAX && old(self).offsets@[i as int] + old(
                self,
            ).poses@[i as int] * E::spec_buff_size() <= old(self).stream.limit() && (old(
                self,
            ).poses@[i as int] < old(self).elem_count(i as int) || old(self).poses@[i as int]
                * E::spec_buff_size() >= old(self).byte_size(i as int)) ==> r is Ok,
    {
        self.ensure_pos(i)?;
        let esz = E::buff_size();
        proof {
            E::lemma_parse_unparse(arbitrary());
        }
        let stream_size = self.stream.get_size()?;
        let off = self.offsets[i];
        let pos = self.poses[i];
        let avail = stream_size - off;
        let lim = match self.ends[i] {
            Some(e) => if e <= off {
                0
            } else if e - off < avail {
                e - off
            } else {
                avail
            },
            None => avail,
        };
        let bsize = if lim < 0 { 0 } else { lim };
        let ghost esz_i = esz as int;
        let ghost count = (bsize as int) / esz_i;
        proof {
            assert(pos * esz_i >= 0) by (nonlinear_arith)
                requires pos >= 0, esz_i > 0;
            vstd::arithmetic::div_mod::lemma_fundamental_div_mod(bsize as int, esz_i);
            vstd::arithmetic::div_mod::lemma_mod_pos_bound(bsize as int, esz_i);
            vstd::arithmetic::mul::lemma_mul_is_commutative(count, esz_i);
        }
        // start of the element, in bytes from the span's start (fits: see ensure_pos)
        proof {
            if pos >= 1 {
                assert(pos * esz_i >= esz_i) by (nonlinear_arith)
                    requires pos >= 1, esz_i > 0;
            }
        }
        let start: StreamPos = if pos == 0 { 0 } else { pos * (esz as StreamPos) };
        assert(start == pos * esz_i) by {
            if pos == 0 {
                vstd::arithmetic::mul::lemma_mul_basics(esz_i);
            }
        }
        if start >= bsize {
            proof {
                if pos < count {
                    assert(pos * esz_i + esz_i <= count * esz_i) by (nonlinear_arith)
                        requires pos + 1 <= count, esz_i > 0;
                }
            }
            return Ok(None);
        }
        if ((bsize - start) as u64) < esz as u64 {
            proof {
                if (pos as int) < count {
                    lemma_elem_bounds(pos as int, count, esz_i, bsize as int);
                }
            }
            return Err(StreamError::new(ErrorKind::UnexpectedEof));
        }
        proof {
            if pos >= count {
                assert(pos * esz_i >= count * esz_i) by (nonlinear_arith)
                    requires pos >= count, esz_i > 0;
                assert(false);
            }
            lemma_elem_bounds(pos as int, count, esz_i, bsize as int);
        }
        let mut buff: Vec<u8> = vec![0u8; esz];
        self.stream.read_bytes(buff.as_mut_slice())?;
        let elem = E::const_bin_parse(buff.as_slice());
        self.poses.set(i, pos + 1);
        proof {
            let lo = off + pos * esz_i;
            assert(buff@ =~= old(self).stream.content().subrange(lo, lo + esz_i));
        }
        Ok(Some(elem))
    }
}

} // verus!

verus! {

impl<'a, E: ConstBinParsible, S: OutputBinaryStream> BinaryElemSpans<'a, E, S> {
    /// Writes `elem` at the position of span `i` and moves past it.
    ///
    /// Fails with `WriteZero` (changing nothing) when the element would reach
    /// beyond the span's end, and with `InvalidInput` when the position cannot
    /// move any further.
    pub fn write_next_elem(&mut self, i: usize, elem: E) -> (r: StreamResult<()>)
        requires
            old(self).wf(),
            i < old(self).count(),
        ensures
            final(self).wf(),
            *final(final(self).stream) == *final(old(self).stream),
            r is Ok && old(self).stream.reliable() ==> final(self).stream.reliable(),
            final(self).stream.limit() == old(self).stream.limit(),
            final(self).offsets@ == old(self).offsets@,
            final(self).ends@ == old(self).ends@,
            r is Err ==> final(self).poses@ == old(self).poses@,
            (old(self).ends@[i as int] matches Some(x) && old(self).offsets@[i as int] + (old(
                self,
            ).poses@[i as int] + 1) * E::spec_buff_size() > x) ==> r is Err,
            old(self).stream.reliable() && old(self).offsets@[i as int] + (old(self).poses@[i as int]
                + 1) * E::spec_buff_size() <= StreamPos::MAX && old(self).offsets@[i as int] + (old(
                self,
            ).poses@[i as int] + 1) * E::spec_buff_size() <= old(self).stream.limit() && (old(
                self,
            ).ends@[i as int] matches Some(x) ==> old(self).offsets@[i as int] + (old(self).poses@[i as int]
                + 1) * E::spec_buff_size() <= x) ==> r is Ok,
            r is Ok ==> {
                let p = old(self).poses@[i as int] as int;
                let off = old(self).offsets@[i as int] as int;
                &&& final(self).stream.content() == written_at(
                    old(self).stream.content(),
                    off + p * E::spec_buff_size(),
                    elem.spec_unparse(),
                    0u8,
                )
                &&& final(self).poses@ == old(self).poses@.update(i as int, (p + 1) as StreamPos)
                &&& p + 1 <= StreamPos::MAX
                &&& p < old(self).elem_count(i as int) ==> final(self).elem_count(i as int)
                    == old(self).elem_count(i as int) && final(self).elem_content(i as int) == old(
                    self,
                ).elem_content(i as int).update(p, elem)
                &&& p == old(self).elem_count(i as int) ==> final(self).elem_count(i as int) == old(
                    self,
                ).elem_count(i as int) + 1 && final(self).elem_content(i as int) == old(
                    self,
                ).elem_content(i as int).push(elem)
            },
    {
        let esz = E::buff_size();
        proof {
            E::lemma_parse_unparse(elem);
        }
        let mut buff: Vec<u8> = vec![0u8; esz];
        elem.const_bin_unparse(buff.as_mut_slice());
        proof {
            let p0 = self.poses@[i as int] as int;
            let e0 = E::spec_buff_size() as int;
            assert((p0 + 1) * e0 == p0 * e0 + e0) by (nonlinear_arith);
        }
        self.ensure_pos(i)?;
        let off = self.offsets[i];
        let pos = self.poses[i];
        let ghost esz_i = esz as int;
        proof {
            assert(pos * esz_i >= 0) by (nonlinear_arith)
                requires pos >= 0, esz_i > 0;
            assert((pos + 1) * esz_i == pos * esz_i + esz_i) by (nonlinear_arith);
            if pos >= 1 {
                assert(pos * esz_i >= esz_i) by (nonlinear_arith)
                    requires pos >= 1, esz_i > 0;
            }
        }
        proof {
            assert((pos + 1) * esz_i >= pos + 1) by (nonlinear_arith)
                requires pos >= 0, esz_i > 0;
        }
        if pos == StreamPos::MAX {
            return Err(StreamError::new(ErrorKind::InvalidInput));
        }
        if let Some(e) = self.ends[i] {
            // byte offset of the element's start within the stream (fits: see ensure_pos)
            let start: StreamPos = if pos == 0 { off } else { off + pos * (esz as StreamPos) };
            assert(start == off + pos * esz_i) by {
                if pos == 0 {
                    vstd::arithmetic::mul::lemma_mul_basics(esz_i);
                }
            }
            if start > e || (esz as u64) > (e - start) as u64 {
                return Err(StreamError::new(ErrorKind::WriteZero));
            }
        }
        let ghost old_content = self.stream.content();
        self.stream.write_bytes(buff.as_slice())?;
        self.poses.set(i, pos + 1);
        proof {
            let bsize = span_len(old_content.len() as int, off as int, old(self).ends@[i as int]);
            vstd::arithmetic::div_mod::lemma_div_pos_is_pos(bsize, esz_i);
            if pos as int <= bsize / esz_i {
                lemma_elem_written_at::<E>(old_content, off as int, old(self).ends@[i as int], pos as int, elem);
            }
        }
        Ok(())
    }

    /// Bounds span `i` to `len` elements (the stream itself is left as is); a
    /// position beyond `len` is moved back to `len`.
    ///
    /// Fails with `InvalidInput` (changing nothing) when the span's end would
    /// be out of range.
    pub fn truncate(&mut self, i: usize, len: StreamPos) -> (r: StreamResult<()>)
        requires
            old(self).wf(),
            i < old(self).count(),
            0 <= len,
        ensures
            final(self).wf(),
            *final(final(self).stream) == *final(old(self).stream),
            r is Ok && old(self).stream.reliable() ==> final(self).stream.reliable(),
            final(self).stream.limit() == old(self).stream.limit(),
            final(self).offsets@ == old(self).offsets@,
            r is Ok ==> final(self).ends@ == old(self).ends@.update(
                i as int,
                Some((old(self).offsets@[i as int] + len * E::spec_buff_size()) as StreamPos),
            ),
            r is Ok ==> final(self).stream.content() == old(self).stream.content(),
            r is Ok ==> final(self).poses@ == old(self).poses@.update(
                i as int,
                if old(self).poses@[i as int] > len { len } else { old(self).poses@[i as int] },
            ),
            r is Ok && len <= old(self).elem_count(i as int) ==> final(self).elem_content(i as int)
                == old(self).elem_content(i as int).take(len as int),
            r is Ok && len > old(self).elem_count(i as int) ==> {
                &&& old(self).elem_count(i as int) <= final(self).elem_count(i as int) <= len
                &&& final(self).elem_content(i as int).take(old(self).elem_count(i as int))
                    == old(self).elem_content(i as int)
            },
            old(self).stream.reliable() && E::spec_buff_size() <= StreamPos::MAX && old(self).offsets@[i as int]
                + len * E::spec_buff_size() <= StreamPos::MAX && old(self).offsets@[i as int] + len
                * E::spec_buff_size() <= old(self).stream.limit() ==> r is Ok,
            final(self).ends@ == old(self).ends@ || final(self).ends@ == old(self).ends@.update(
                i as int,
                Some((old(self).offsets@[i as int] + len * E::spec_buff_size()) as StreamPos),
            ),
            final(self).ends@ != old(self).ends@ ==> old(self).offsets@[i as int] + len
                * E::spec_buff_size() <= StreamPos::MAX,
    {
        let esz = E::buff_size();
        proof {
            E::lemma_parse_unparse(arbitrary());
        }
        let off = self.offsets[i];
        let ghost esz_i = esz as int;
        proof {
            if len * esz_i <= StreamPos::MAX - off {
                vstd::arithmetic::div_mod::lemma_div_is_ordered(len * esz_i, StreamPos::MAX - off, esz_i);
                vstd::arithmetic::mul::lemma_mul_is_commutative(len as int, esz_i);
                vstd::arithmetic::div_mod::lemma_div_multiples_vanish(len as int, esz_i);
            }
        }
        if esz as u64 > StreamPos::MAX as u64 || len > (StreamPos::MAX - off) / (esz as StreamPos) {
            return Err(StreamError::new(ErrorKind::InvalidInput));
        }
        proof {
            let q = (StreamPos::MAX - off) / esz_i;
            vstd::arithmetic::div_mod::lemma_fundamental_div_mod(StreamPos::MAX - off, esz_i);
            vstd::arithmetic::div_mod::lemma_mod_pos_bound(StreamPos::MAX - off, esz_i);
            vstd::arithmetic::mul::lemma_mul_is_commutative(q, esz_i);
            assert(len * esz_i <= q * esz_i) by (nonlinear_arith)
                requires len <= q, esz_i > 0;
            assert(len * esz_i >= 0) by (nonlinear_arith)
                requires len >= 0, esz_i > 0;
        }
        let end = off + len * (esz as StreamPos);
        let ghost before = *self;
        self.ends.set(i, Some(end));
        proof {
            let l = before.stream.content().len() as int;
            let b0 = before.byte_size(i as int);
            let c0 = b0 / esz_i;
            let b1 = self.byte_size(i as int);
            let c1 = b1 / esz_i;
            vstd::arithmetic::div_mod::lemma_fundamental_div_mod(b0, esz_i);
            vstd::arithmetic::div_mod::lemma_mod_pos_bound(b0, esz_i);
            vstd::arithmetic::mul::lemma_mul_is_commutative(c0, esz_i);
            vstd::arithmetic::div_mod::lemma_fundamental_div_mod(b1, esz_i);
            vstd::arithmetic::div_mod::lemma_mod_pos_bound(b1, esz_i);
            vstd::arithmetic::mul::lemma_mul_is_commutative(c1, esz_i);
            vstd::arithmetic::div_mod::lemma_div_pos_is_pos(b0, esz_i);
            if len <= c0 {
                assert(len * esz_i <= c0 * esz_i) by (nonlinear_arith)
                    requires len <= c0, esz_i > 0;
                assert(b1 == len * esz_i);
                vstd::arithmetic::div_mod::lemma_div_multiples_vanish(len as int, esz_i);
                vstd::arithmetic::mul::lemma_mul_is_commutative(len as int, esz_i);
                assert(c1 == len);
            } else {
                assert(c0 * esz_i <= len * esz_i) by (nonlinear_arith)
                    requires c0 <= len, esz_i > 0;
                assert(c0 * esz_i <= b1);
                vstd::arithmetic::div_mod::lemma_div_is_ordered(c0 * esz_i, b1, esz_i);
                vstd::arithmetic::div_mod::lemma_div_multiples_vanish(c0, esz_i);
                vstd::arithmetic::mul::lemma_mul_is_commutative(c0, esz_i);
                assert(b1 <= len * esz_i);
                vstd::arithmetic::div_mod::lemma_div_is_ordered(b1, len * esz_i, esz_i);
                vstd::arithmetic::div_mod::lemma_div_multiples_vanish(len as int, esz_i);
                vstd::arithmetic::mul::lemma_mul_is_commutative(len as int, esz_i);
            }
            let e0 = before.elem_content(i as int);
            let e1 = self.elem_content(i as int);
            if len <= c0 {
                assert(e1 =~= e0.take(len as int));
            } else {
                assert(e1.take(c0) =~= e0);
            }
        }
        if self.poses[i] > len {
            self.set_pos(i, len)?;
        } else {
            assert(self.poses@ =~= old(self).poses@.update(i as int, old(self).poses@[i as int]));
        }
        Ok(())
    }
}

} // verus!

verus! {

/// A span of elements over a binary stream.
///
/// The span covers the stream's bytes from its offset up to its (exclusive)
/// end, when given, or up to the stream's end, and holds the whole elements
/// that fit in them; its position counts elements from its own start.
pub struct BinaryElemSpan<'a, E, S> {
    pub base: BinaryElemSpans<'a, E, S>,
    /// The error the last read failed with, when it failed.
    pub failure: Ghost<Option<StreamError>>,
}

impl<'a, E: ConstBinParsible, S: Stream<u8>> BinaryElemSpan<'a, E, S> {
    /// The span's layout is one consistent window.
    pub open spec fn sound(&self) -> bool {
        self.base.wf() && self.base.count() == 1
    }

    /// Checks that the span's layout is one consistent window.
    fn check(&self) -> (b: bool)
        ensures
            b == self.sound(),
    {
        self.base.offsets.len() == 1 && self.base.ends.len() == 1 && self.base.poses.len() == 1
            && self.base.offsets[0] >= 0 && self.base.poses[0] >= 0
    }

    /// Constructs a new instance.
    ///
    /// * `stream` - Base binary stream.
    /// * `byte_offset` - Optional starting byte offset (0 when absent).
    /// * `byte_end` - Optional (exclusive) ending byte offset.
    pub fn new(stream: &'a mut S, byte_offset: Option<StreamPos>, byte_end: Option<StreamPos>) -> (r: Self)
        requires
            byte_offset matches Some(o) ==> 0 <= o,
        ensures
            *r.base.stream == *old(stream),
            *final(r.base.stream) == *final(stream),
            r.sound(),
            r.base.offsets@[0] == match byte_offset {
                Some(o) => o,
                None => 0,
            },
            r.base.ends@[0] == byte_end,
            r.position() == 0,
    {
        let offsets = vec![byte_offset];
        let ends = vec![byte_end];
        BinaryElemSpan { base: BinaryElemSpans::new(stream, offsets, ends), failure: Ghost(None) }
    }
}

/// A position at most `lim / esz` covers at most `lim` bytes.
proof fn lemma_within_limit(p: int, lim: int, esz: int)
    requires
        0 < esz,
        0 <= p,
        p <= lim / esz,
    ensures
        p * esz <= lim,
        0 <= p * esz,
{
    vstd::arithmetic::div_mod::lemma_fundamental_div_mod(lim, esz);
    vstd::arithmetic::div_mod::lemma_mod_pos_bound(lim, esz);
    assert(p * esz <= (lim / esz) * esz) by (nonlinear_arith)
        requires p <= lim / esz, esz > 0;
    vstd::arithmetic::mul::lemma_mul_is_commutative(lim / esz, esz);
    assert(0 <= p * esz) by (nonlinear_arith)
        requires p >= 0, esz > 0;
}

impl<'a, E: ConstBinParsible, S: Stream<u8>> Stream<E> for BinaryElemSpan<'a, E, S> {
    open spec fn content(&self) -> Seq<E> {
        self.base.elem_content(0)
    }

    open spec fn position(&self) -> int {
        self.base.poses@[0] as int
    }

    /// The span is sound, over a reliable stream that reaches its start.
    open spec fn reliable(&self) -> bool {
        &&& self.sound()
        &&& self.base.stream.reliable()
        &&& E::spec_buff_size() <= StreamPos::MAX
        &&& self.base.offsets@[0] <= self.base.stream.limit()
    }

    /// The bytes the span covers make whole elements.
    open spec fn whole(&self) -> bool {
        self.base.byte_size(0) == self.base.elem_count(0) * (E::spec_buff_size() as int)
    }

    /// Element positions whose bytes stay within the span's byte limit.
    open spec fn limit(&self) -> int {
        span_limit(self.base.stream.limit(), self.base.offsets@[0] as int, self.base.ends@[0])
            / (E::spec_buff_size() as int)
    }

    fn rewind(&mut self) -> (r: StreamResult<()>)
        ensures
            *final(final(self).base.stream) == *final(old(self).base.stream),
            old(self).sound() ==> final(self).sound(),
            final(self).base.offsets@ == old(self).base.offsets@,
            final(self).base.ends@ == old(self).base.ends@,
    {
        if !self.check() {
            return Err(StreamError::new(ErrorKind::InvalidInput));
        }
        self.base.rewind(0)
    }

    fn get_pos(&mut self) -> (r: StreamResult<StreamPos>)
        ensures
            *final(self) == *old(self),
            old(self).sound() ==> r is Ok,
    {
        if !self.check() {
            return Err(StreamError::new(ErrorKind::InvalidInput));
        }
        self.base.get_pos(0)
    }

    fn set_pos(&mut self, pos: StreamPos) -> (r: StreamResult<()>)
        ensures
            *final(final(self).base.stream) == *final(old(self).base.stream),
            old(self).sound() ==> final(self).sound(),
            final(self).base.offsets@ == old(self).base.offsets@,
            final(self).base.ends@ == old(self).base.ends@,
            r is Ok ==> final(self).base.stream.position() == old(self).base.offsets@[0] + pos
                * E::spec_buff_size(),
    {
        if !self.check() {
            return Err(StreamError::new(ErrorKind::InvalidInput));
        }
        proof {
            E::lemma_parse_unparse(arbitrary());
            if self.reliable() && pos <= self.limit() {
                let lim = span_limit(self.base.stream.limit(), self.base.offsets@[0] as int, self.base.ends@[0]);
                lemma_within_limit(pos as int, lim, E::spec_buff_size() as int);
            }
        }
        self.base.set_pos(0, pos)
    }

    fn get_size(&mut self) -> (r: StreamResult<StreamPos>)
        ensures
            *final(final(self).base.stream) == *final(old(self).base.stream),
            old(self).sound() ==> final(self).sound(),
            final(self).base.offsets@ == old(self).base.offsets@,
            final(self).base.ends@ == old(self).base.ends@,
    {
        if !self.check() {
            return Err(StreamError::new(ErrorKind::InvalidInput));
        }
        let r = self.base.get_size(0);
        proof {
            E::lemma_parse_unparse(arbitrary());
            if r is Ok {
                vstd::arithmetic::div_mod::lemma_div_pos_is_pos(old(self).base.byte_size(0), E::spec_buff_size() as int);
            }
        }
        r
    }
}

impl<'a, E: ConstBinParsible, S: InputBinaryStream> InputElemStream<E> for BinaryElemSpan<'a, E, S> {
    open spec fn read_failure(&self) -> Option<StreamError> {
        self.failure@
    }

    /// Fails with `UnexpectedEof` when only part of an element is left.
    fn read_next_elem(&mut self) -> (r: StreamResult<Option<E>>)
        ensures
            *final(final(self).base.stream) == *final(old(self).base.stream),
            old(self).sound() ==> final(self).sound(),
            final(self).base.offsets@ == old(self).base.offsets@,
            final(self).base.ends@ == old(self).base.ends@,
            r is Ok ==> final(self).base.stream.content() == old(self).base.stream.content(),
    {
        if !self.check() {
            let e = StreamError::new(ErrorKind::InvalidInput);
            self.failure = Ghost(Some(e));
            return Err(e);
        }
        proof {
            E::lemma_parse_unparse(arbitrary());
            if self.reliable() && self.position() <= self.limit() && (self.position() < self.content().len()
                || self.whole()) {
                let esz = E::spec_buff_size() as int;
                let off = self.base.offsets@[0] as int;
                let lim = span_limit(self.base.stream.limit(), off, self.base.ends@[0]);
                let p = self.position();
                lemma_within_limit(p, lim, esz);
                let b = self.base.byte_size(0);
                if p >= b / esz {
                    assert(p * esz >= (b / esz) * esz) by (nonlinear_arith)
                        requires p >= b / esz, esz > 0;
                    vstd::arithmetic::mul::lemma_mul_is_commutative(b / esz, esz);
                }
            }
        }
        let r = self.base.read_next_elem(0);
        self.failure = Ghost(
            match r {
                Err(e) => Some(e),
                Ok(_) => None,
            },
        );
        proof {
            E::lemma_parse_unparse(arbitrary());
            vstd::arithmetic::div_mod::lemma_div_pos_is_pos(old(self).base.byte_size(0), E::spec_buff_size() as int);
        }
        r
    }
}

impl<'a, E: ConstBinParsible, S: OutputBinaryStream> OutputElemStream<E> for BinaryElemSpan<'a, E, S> {
    open spec fn truncatable(&self, len: int) -> bool {
        true
    }

    /// Fails with `WriteZero` (changing nothing) when the element would reach
    /// beyond the span's end.
    fn write_next_elem(&mut self, elem: E) -> (r: StreamResult<()>)
        ensures
            *final(final(self).base.stream) == *final(old(self).base.stream),
            old(self).sound() ==> final(self).sound(),
            final(self).base.offsets@ == old(self).base.offsets@,
            final(self).base.ends@ == old(self).base.ends@,
            r is Ok ==> final(self).base.stream.content() == written_at(
                old(self).base.stream.content(),
                old(self).base.offsets@[0] + old(self).position() * E::spec_buff_size(),
                elem.spec_unparse(),
                0u8,
            ),
    {
        if !self.check() {
            return Err(StreamError::new(ErrorKind::InvalidInput));
        }
        proof {
            E::lemma_parse_unparse(arbitrary());
            if self.reliable() && self.position() < self.limit() {
                let esz = E::spec_buff_size() as int;
                let off = self.base.offsets@[0] as int;
                let lim = span_limit(self.base.stream.limit(), off, self.base.ends@[0]);
                lemma_within_limit(self.position() + 1, lim, esz);
            }
        }
        let r = self.base.write_next_elem(0, elem);
        proof {
            E::lemma_parse_unparse(arbitrary());
            vstd::arithmetic::div_mod::lemma_div_pos_is_pos(old(self).base.byte_size(0), E::spec_buff_size() as int);
        }
        r
    }

    /// Bounds the span to `len` elements (the stream itself is left as is).
    fn truncate(&mut self, len: StreamPos) -> (r: StreamResult<()>)
        ensures
            *final(final(self).base.stream) == *final(old(self).base.stream),
            old(self).sound() ==> final(self).sound(),
    {
        if !self.check() {
            return Err(StreamError::new(ErrorKind::InvalidInput));
        }
        proof {
            E::lemma_parse_unparse(arbitrary());
            if self.reliable() && len <= self.limit() {
                let esz = E::spec_buff_size() as int;
                let off = self.base.offsets@[0] as int;
                let lim = span_limit(self.base.stream.limit(), off, self.base.ends@[0]);
                lemma_within_limit(len as int, lim, esz);
            }
        }
        let ghost before = *self;
        let r = self.base.truncate(0, len);
        proof {
            E::lemma_parse_unparse(arbitrary());
            let esz = E::spec_buff_size() as int;
            let off = before.base.offsets@[0] as int;
            assert(len * esz >= 0) by (nonlinear_arith)
                requires len >= 0, esz > 0;
            vstd::arithmetic::div_mod::lemma_mod_multiples_basic(len as int, esz);
            vstd::arithmetic::mul::lemma_mul_is_commutative(len as int, esz);
            if self.base.ends@ != before.base.ends@ {
                let lim0 = span_limit(before.base.stream.limit(), off, before.base.ends@[0]);
                let lim1 = span_limit(self.base.stream.limit(), off, self.base.ends@[0]);
                let m = span_limit(before.base.stream.limit(), off, None);
                assert(lim0 <= m);
                if len * esz <= m {
                    assert(lim1 == len * esz);
                    vstd::arithmetic::div_mod::lemma_div_multiples_vanish(len as int, esz);
                } else {
                    assert(lim1 == m);
                    vstd::arithmetic::div_mod::lemma_div_is_ordered(lim0, lim1, esz);
                }
            }
            vstd::arithmetic::div_mod::lemma_div_pos_is_pos(old(self).base.byte_size(0), E::spec_buff_size() as int);
        }
        r
    }
}

} // verus!
