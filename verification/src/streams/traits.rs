//! Traits shared by all streams: positioned sequences of items that can be
//! read, written, sought and truncated.
use vstd::prelude::*;

use crate::error::{StreamError, StreamResult};

verus! {

/// Position within a stream (counted in the stream's own items).
pub type StreamPos = i64;

/// `content` after `data` was written at `pos`; a gap between the end of
/// `content` and `pos` is filled with `fill`.
pub open spec fn written_at<T>(content: Seq<T>, pos: int, data: Seq<T>, fill: T) -> Seq<T> {
    let padded = if pos > content.len() {
        content + Seq::new((pos - content.len()) as nat, |_i: int| fill)
    } else {
        content
    };
    if pos + data.len() >= padded.len() {
        padded.take(pos) + data
    } else {
        padded.take(pos) + data + padded.skip(pos + data.len())
    }
}

/// `content` with `data` written over it from `pos` on (`pos` being within
/// the content or at its end), growing it where `data` goes past its end.
pub open spec fn overwritten<T>(content: Seq<T>, pos: int, data: Seq<T>) -> Seq<T> {
    if pos + data.len() >= content.len() {
        content.take(pos) + data
    } else {
        content.take(pos) + data + content.skip(pos + data.len())
    }
}

/// Writing one run after another is writing both at once.
pub proof fn lemma_overwritten_concat<T>(content: Seq<T>, pos: int, a: Seq<T>, b: Seq<T>)
    requires
        0 <= pos <= content.len(),
    ensures
        overwritten(overwritten(content, pos, a), pos + a.len(), b) == overwritten(content, pos, a + b),
{
    let mid = overwritten(content, pos, a);
    assert(mid.len() == if pos + a.len() >= content.len() { pos + a.len() } else { content.len() as int });
    assert(overwritten(mid, pos + a.len(), b) =~= overwritten(content, pos, a + b));
}

/// Writing one element at the position (within the content or at its end).
pub proof fn lemma_overwritten_one<T>(content: Seq<T>, pos: int, e: T)
    requires
        0 <= pos <= content.len(),
    ensures
        pos < content.len() ==> overwritten(content, pos, seq![e]) == content.update(pos, e),
        pos == content.len() ==> overwritten(content, pos, seq![e]) == content.push(e),
        overwritten(content, pos, Seq::empty()) == content,
{
    assert(pos < content.len() ==> overwritten(content, pos, seq![e]) =~= content.update(pos, e));
    assert(pos == content.len() ==> overwritten(content, pos, seq![e]) =~= content.push(e));
    assert(overwritten(content, pos, Seq::empty()) =~= content);
}

/// Writing one run of bytes after another is writing both at once.
pub proof fn lemma_written_at_concat(content: Seq<u8>, pos: int, a: Seq<u8>, b: Seq<u8>)
    requires
        0 <= pos,
    ensures
        written_at(written_at(content, pos, a, 0u8), pos + a.len(), b, 0u8) == written_at(
            content,
            pos,
            a + b,
            0u8,
        ),
{
    let mid = written_at(content, pos, a, 0u8);
    let lhs = written_at(mid, pos + a.len(), b, 0u8);
    let rhs = written_at(content, pos, a + b, 0u8);
    let l = content.len() as int;
    assert(mid.len() == if pos + a.len() > l { pos + a.len() } else { l });
    assert(lhs.len() == rhs.len());
    assert forall|k: int| 0 <= k < lhs.len() implies lhs[k] == rhs[k] by {
        if k < pos {
        } else if k < pos + a.len() {
        } else if k < pos + a.len() + b.len() {
        } else {
        }
    }
    assert(lhs =~= rhs);
}

/// Reading back what was written: after `data` is written at `pos`, the
/// items from `pos` on are `data`.
pub proof fn lemma_written_at_read_back<T>(content: Seq<T>, pos: int, data: Seq<T>, fill: T)
    requires
        0 <= pos,
    ensures
        written_at(content, pos, data, fill).len() >= pos + data.len(),
        written_at(content, pos, data, fill).subrange(pos, pos + data.len()) == data,
{
    assert(written_at(content, pos, data, fill).subrange(pos, pos + data.len()) =~= data);
}

/// A write changes no item outside the written range: the items before
/// `pos` and after the written ones are kept (the stream never shrinks).
pub proof fn lemma_written_at_elsewhere<T>(content: Seq<T>, pos: int, data: Seq<T>, fill: T, k: int)
    requires
        0 <= pos,
        0 <= k < content.len(),
        k < pos || pos + data.len() <= k,
    ensures
        written_at(content, pos, data, fill).len() >= content.len(),
        written_at(content, pos, data, fill)[k] == content[k],
{
}

/// Reading back what was written over elements: after `data` is written at
/// `pos`, the elements from `pos` on are `data`, and those before are kept.
pub proof fn lemma_overwritten_read_back<T>(content: Seq<T>, pos: int, data: Seq<T>)
    requires
        0 <= pos <= content.len(),
    ensures
        overwritten(content, pos, data).subrange(pos, pos + data.len()) == data,
        overwritten(content, pos, data).take(pos) == content.take(pos),
{
    assert(overwritten(content, pos, data).subrange(pos, pos + data.len()) =~= data);
    assert(overwritten(content, pos, data).take(pos) =~= content.take(pos));
}

/// `content` cut or extended (with `fill`) to exactly `len` items.
pub open spec fn resized<T>(content: Seq<T>, len: int, fill: T) -> Seq<T> {
    if len <= content.len() {
        content.take(len)
    } else {
        content + Seq::new((len - content.len()) as nat, |_i: int| fill)
    }
}

/// The largest position that both a stream position and a memory index can hold.
pub open spec fn pos_limit() -> int {
    if (usize::MAX as int) < (StreamPos::MAX as int) {
        usize::MAX as int
    } else {
        StreamPos::MAX as int
    }
}

/// A positioned stream of items of type `T`.
///
/// A stream is modelled by its content (the items it holds) and its position
/// (the index of the next item to be read or written). Operations that
/// succeed behave as stated. A stream whose medium is reliable fails only
/// where its own conditions say so: positions beyond its limit, reads past
/// its end; another one may fail anywhere, and a failed operation promises
/// nothing but what its contract states.
pub trait Stream<T> {
    /// Items held by the stream.
    spec fn content(&self) -> Seq<T>;

    /// Index of the next item to read or write.
    spec fn position(&self) -> int;

    /// The medium behind the stream never fails.
    spec fn reliable(&self) -> bool;

    /// Largest position the stream can be moved to, and written up to.
    spec fn limit(&self) -> int;

    /// Nothing but whole items is held: reading at the end of the content
    /// finds the end.
    spec fn whole(&self) -> bool;

    /// Moves the stream back to its start.
    fn rewind(&mut self) -> (r: StreamResult<()>)
        ensures
            r is Ok ==> final(self).position() == 0 && final(self).content() == old(self).content(),
            old(self).reliable() ==> r is Ok,
            r is Ok && old(self).reliable() ==> final(self).reliable(),
            final(self).limit() == old(self).limit(),
            r is Ok && old(self).whole() ==> final(self).whole(),
    ;

    /// Gets the current position.
    fn get_pos(&mut self) -> (r: StreamResult<StreamPos>)
        ensures
            r matches Ok(p) ==> {
                &&& p == old(self).position()
                &&& final(self).position() == old(self).position()
                &&& final(self).content() == old(self).content()
            },
            old(self).reliable() ==> r is Ok,
            r is Ok && old(self).reliable() ==> final(self).reliable(),
            final(self).limit() == old(self).limit(),
            r is Ok && old(self).whole() ==> final(self).whole(),
    ;

    /// Moves the stream to `pos`.
    fn set_pos(&mut self, pos: StreamPos) -> (r: StreamResult<()>)
        requires
            0 <= pos,
        ensures
            r is Ok ==> final(self).position() == pos && final(self).content() == old(self).content(),
            old(self).reliable() && pos <= old(self).limit() ==> r is Ok,
            r is Ok && old(self).reliable() ==> final(self).reliable(),
            final(self).limit() == old(self).limit(),
            r is Ok && old(self).whole() ==> final(self).whole(),
    ;

    /// Gets the amount of items held by the stream.
    fn get_size(&mut self) -> (r: StreamResult<StreamPos>)
        ensures
            r matches Ok(s) ==> {
                &&& s == old(self).content().len()
                &&& final(self).position() == old(self).position()
                &&& final(self).content() == old(self).content()
            },
            old(self).reliable() ==> r is Ok,
            r is Ok && old(self).reliable() ==> final(self).reliable(),
            final(self).limit() == old(self).limit(),
            r is Ok && old(self).whole() ==> final(self).whole(),
    ;
}

/// A stream of elements that can be read one at a time.
pub trait InputElemStream<E>: Stream<E> {
    /// The error the last read failed with, when the last read failed.
    spec fn read_failure(&self) -> Option<StreamError>;

    /// Reads the element at the current position and moves past it.
    ///
    /// Returns `None` at (or beyond) the end of the stream.
    fn read_next_elem(&mut self) -> (r: StreamResult<Option<E>>)
        ensures
            r matches Ok(Some(e)) ==> {
                &&& 0 <= old(self).position() < old(self).content().len()
                &&& e == old(self).content()[old(self).position()]
                &&& final(self).position() == old(self).position() + 1
                &&& final(self).content() == old(self).content()
            },
            r matches Ok(None) ==> {
                &&& old(self).position() >= old(self).content().len()
                &&& final(self).position() == old(self).position()
                &&& final(self).content() == old(self).content()
            },
            old(self).reliable() && old(self).position() <= old(self).limit() && (old(self).position() < old(
                self,
            ).content().len() || old(self).whole()) ==> r is Ok,
            r is Ok && old(self).reliable() ==> final(self).reliable(),
            r is Ok && old(self).whole() ==> final(self).whole(),
            final(self).limit() == old(self).limit(),
            r matches Err(e) ==> final(self).read_failure() == Some(e),
            r is Ok ==> final(self).read_failure() is None,
    ;
}

/// A stream of elements that can be written one at a time.
pub trait OutputElemStream<E>: Stream<E> {
    /// Whether the stream can be cut or extended to `len` elements.
    spec fn truncatable(&self, len: int) -> bool;

    /// Writes `elem` at the current position and moves past it.
    ///
    /// Within the stream's content the element replaces the one at the
    /// position; at the very end it is appended.
    fn write_next_elem(&mut self, elem: E) -> (r: StreamResult<()>)
        ensures
            r is Ok ==> final(self).position() == old(self).position() + 1,
            r is Ok && 0 <= old(self).position() < old(self).content().len()
                ==> final(self).content() == old(self).content().update(old(self).position(), elem),
            r is Ok && old(self).position() == old(self).content().len() ==> final(self).content()
                == old(self).content().push(elem),
            old(self).reliable() && old(self).position() < old(self).limit() ==> r is Ok,
            r is Ok && old(self).reliable() ==> final(self).reliable(),
            final(self).limit() == old(self).limit(),
    ;

    /// Cuts the stream's content to `len` elements, or lets it grow up to
    /// `len` elements, keeping the elements it already holds.
    fn truncate(&mut self, len: StreamPos) -> (r: StreamResult<()>)
        requires
            0 <= len,
            old(self).truncatable(len as int),
        ensures
            r is Ok && len <= old(self).content().len() ==> final(self).content() == old(
                self,
            ).content().take(len as int),
            r is Ok && len > old(self).content().len() ==> {
                &&& old(self).content().len() <= final(self).content().len() <= len
                &&& final(self).content().take(old(self).content().len() as int) == old(
                    self,
                ).content()
            },
            old(self).reliable() && len <= old(self).limit() ==> r is Ok,
            r is Ok && old(self).reliable() ==> final(self).reliable(),
            final(self).limit() >= if len < old(self).limit() {
                len as int
            } else {
                old(self).limit()
            },
    ;
}

/// A stream of bytes that can be read.
pub trait InputBinaryStream: Stream<u8> {
    /// Fills `buff` with the bytes at the current position and moves past them.
    fn read_bytes(&mut self, buff: &mut [u8]) -> (r: StreamResult<()>)
        ensures
            final(buff)@.len() == old(buff)@.len(),
            r is Ok ==> {
                &&& 0 <= old(self).position()
                &&& old(self).position() + old(buff)@.len() <= old(self).content().len()
                &&& final(buff)@ == old(self).content().subrange(
                    old(self).position(),
                    old(self).position() + old(buff)@.len(),
                )
                &&& final(self).position() == old(self).position() + old(buff)@.len()
                &&& final(self).content() == old(self).content()
            },
            old(self).reliable() && 0 <= old(self).position() <= old(self).limit() && old(self).position()
                + old(buff)@.len() <= old(self).content().len() ==> r is Ok,
            r is Ok && old(self).reliable() ==> final(self).reliable(),
            final(self).limit() == old(self).limit(),
    ;
}

/// A stream of bytes that can be written.
pub trait OutputBinaryStream: Stream<u8> {
    /// Writes `buff` at the current position and moves past it; a gap between
    /// the end of the stream and the position is filled with zeros.
    fn write_bytes(&mut self, buff: &[u8]) -> (r: StreamResult<()>)
        ensures
            r is Ok ==> {
                &&& final(self).content() == written_at(
                    old(self).content(),
                    old(self).position(),
                    buff@,
                    0u8,
                )
                &&& final(self).position() == old(self).position() + buff@.len()
            },
            old(self).reliable() && 0 <= old(self).position() && old(self).position() + buff@.len()
                <= old(self).limit() ==> r is Ok,
            r is Ok && old(self).reliable() ==> final(self).reliable(),
            final(self).limit() == old(self).limit(),
    ;

    /// Cuts the stream to `len` bytes, or lets it grow up to `len` bytes,
    /// keeping the bytes it already holds; a position beyond `len` is moved
    /// back to `len`.
    fn truncate(&mut self, len: StreamPos) -> (r: StreamResult<()>)
        requires
            0 <= len,
        ensures
            r is Ok && len <= old(self).content().len() ==> final(self).content() == old(
                self,
            ).content().take(len as int),
            r is Ok && len > old(self).content().len() ==> {
                &&& old(self).content().len() <= final(self).content().len() <= len
                &&& final(self).content().take(old(self).content().len() as int) == old(
                    self,
                ).content()
            },
            old(self).reliable() && len <= old(self).limit() ==> r is Ok,
            r is Ok && old(self).reliable() ==> final(self).reliable(),
            final(self).limit() >= if len < old(self).limit() {
                len as int
            } else {
                old(self).limit()
            },
            r is Ok ==> final(self).position() == if old(self).position() > len {
                len as int
            } else {
                old(self).position()
            },
    ;
}

/// Types that can be parsed from, and unparsed into, a fixed amount of bytes.
pub trait ConstBinParsible: Sized {
    /// Amount of bytes that hold one value.
    spec fn spec_buff_size() -> nat;

    /// Value held by `buff`.
    spec fn spec_parse(buff: Seq<u8>) -> Self;

    /// Bytes that hold `self`.
    spec fn spec_unparse(&self) -> Seq<u8>;

    /// Gets the amount of bytes that hold one value.
    fn buff_size() -> (n: usize)
        ensures
            n == Self::spec_buff_size(),
    ;

    /// Parses a value from `buff`.
    fn const_bin_parse(buff: &[u8]) -> (r: Self)
        requires
            buff@.len() == Self::spec_buff_size(),
        ensures
            r == Self::spec_parse(buff@),
    ;

    /// Unparses `self` into `buff`.
    fn const_bin_unparse(&self, buff: &mut [u8])
        requires
            old(buff)@.len() == Self::spec_buff_size(),
        ensures
            final(buff)@ == self.spec_unparse(),
    ;

    /// Parsing gives back what was unparsed.
    proof fn lemma_parse_unparse(x: Self)
        ensures
            0 < Self::spec_buff_size(),
            x.spec_unparse().len() == Self::spec_buff_size(),
            Self::spec_parse(x.spec_unparse()) == x,
    ;
}

impl ConstBinParsible for u8 {
    open spec fn spec_buff_size() -> nat {
        1
    }

    open spec fn spec_parse(buff: Seq<u8>) -> u8 {
        buff[0]
    }

    open spec fn spec_unparse(&self) -> Seq<u8> {
        seq![*self]
    }

    fn buff_size() -> (n: usize) {
        1
    }

    fn const_bin_parse(buff: &[u8]) -> (r: u8) {
        buff[0]
    }

    fn const_bin_unparse(&self, buff: &mut [u8]) {
        buff[0] = *self;
        assert(buff@ =~= seq![*self]);
    }

    proof fn lemma_parse_unparse(x: u8) {
    }
}

impl ConstBinParsible for u16 {
    open spec fn spec_buff_size() -> nat {
        2
    }

    /// Big-endian: the first byte is the most significant one.
    open spec fn spec_parse(buff: Seq<u8>) -> u16 {
        (buff[0] as int * 256 + buff[1] as int) as u16
    }

    open spec fn spec_unparse(&self) -> Seq<u8> {
        seq![(*self / 256) as u8, (*self % 256) as u8]
    }

    fn buff_size() -> (n: usize) {
        2
    }

    fn const_bin_parse(buff: &[u8]) -> (r: u16) {
        (buff[0] as u16) * 256 + (buff[1] as u16)
    }

    fn const_bin_unparse(&self, buff: &mut [u8]) {
        buff[0] = (*self / 256) as u8;
        buff[1] = (*self % 256) as u8;
        assert(buff@ =~= self.spec_unparse());
    }

    proof fn lemma_parse_unparse(x: u16) {
    }
}

} // verus!
