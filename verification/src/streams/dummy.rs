//! In-memory streams backed by vectors.
use vstd::prelude::*;

use crate::error::{ErrorKind, StreamError, StreamResult};
use crate::streams::traits::{
    pos_limit, resized, written_at, InputBinaryStream, InputElemStream, OutputBinaryStream, OutputElemStream,
    Stream, StreamPos,
};

verus! {

/// Input element stream over a vector of elements.
pub struct DummyInputElemStream<E: Copy> {
    elems: Vec<E>,
    pos: StreamPos,
}

impl<E: Copy> DummyInputElemStream<E> {
    #[verifier::type_invariant]
    spec fn inv(&self) -> bool {
        0 <= self.pos && self.elems@.len() <= StreamPos::MAX
    }

    /// Constructs a stream holding `elems`, positioned at its start.
    pub fn new(elems: Vec<E>) -> (r: Self)
        requires
            elems@.len() <= StreamPos::MAX,
        ensures
            r.content() == elems@,
            r.position() == 0,
    {
        Self { elems: elems, pos: 0 }
    }
}

impl<E: Copy> Stream<E> for DummyInputElemStream<E> {
    closed spec fn content(&self) -> Seq<E> {
        self.elems@
    }

    closed spec fn position(&self) -> int {
        self.pos as int
    }

    /// Memory does not fail.
    open spec fn reliable(&self) -> bool {
        true
    }

    open spec fn limit(&self) -> int {
        pos_limit()
    }

    open spec fn whole(&self) -> bool {
        true
    }

    fn rewind(&mut self) -> (r: StreamResult<()>)
        ensures
            r is Ok,
    {
        proof {
            use_type_invariant(&*self);
        }
        self.pos = 0;
        Ok(())
    }

    fn get_pos(&mut self) -> (r: StreamResult<StreamPos>)
        ensures
            r is Ok,
    {
        proof {
            use_type_invariant(&*self);
        }
        Ok(self.pos)
    }

    fn set_pos(&mut self, pos: StreamPos) -> (r: StreamResult<()>)
        ensures
            r is Ok,
    {
        proof {
            use_type_invariant(&*self);
        }
        self.pos = pos;
        Ok(())
    }

    fn get_size(&mut self) -> (r: StreamResult<StreamPos>)
        ensures
            r is Ok,
    {
        proof {
            use_type_invariant(&*self);
        }
        Ok(self.elems.len() as StreamPos)
    }
}

impl<E: Copy> InputElemStream<E> for DummyInputElemStream<E> {
    /// Reads from memory never fail.
    open spec fn read_failure(&self) -> Option<StreamError> {
        None
    }

    fn read_next_elem(&mut self) -> (r: StreamResult<Option<E>>)
        ensures
            r is Ok,
    {
        proof {
            use_type_invariant(&*self);
        }
        if self.pos >= self.elems.len() as StreamPos {
            return Ok(None);
        }
        let res = self.elems[self.pos as usize];
        self.pos = self.pos + 1;
        Ok(Some(res))
    }
}

/// Output element stream over a vector of elements.
pub struct DummyOutputElemStream<E: Copy> {
    elems: Vec<E>,
    pos: StreamPos,
}

impl<E: Copy> DummyOutputElemStream<E> {
    #[verifier::type_invariant]
    spec fn inv(&self) -> bool {
        0 <= self.pos && self.elems@.len() <= StreamPos::MAX
    }

    /// Constructs a stream holding `elems`, positioned at its start.
    pub fn new(elems: Vec<E>) -> (r: Self)
        requires
            elems@.len() <= StreamPos::MAX,
        ensures
            r.content() == elems@,
            r.position() == 0,
    {
        Self { elems: elems, pos: 0 }
    }

    /// Gets all elements held by the stream.
    pub fn get_all(&self) -> (r: &[E])
        ensures
            r@ == self.content(),
    {
        self.elems.as_slice()
    }
}

impl<E: Copy> Stream<E> for DummyOutputElemStream<E> {
    closed spec fn content(&self) -> Seq<E> {
        self.elems@
    }

    closed spec fn position(&self) -> int {
        self.pos as int
    }

    /// Memory does not fail.
    open spec fn reliable(&self) -> bool {
        true
    }

    open spec fn limit(&self) -> int {
        pos_limit()
    }

    open spec fn whole(&self) -> bool {
        true
    }

    fn rewind(&mut self) -> (r: StreamResult<()>)
        ensures
            r is Ok,
    {
        proof {
            use_type_invariant(&*self);
        }
        self.pos = 0;
        Ok(())
    }

    fn get_pos(&mut self) -> (r: StreamResult<StreamPos>)
        ensures
            r is Ok,
    {
        proof {
            use_type_invariant(&*self);
        }
        Ok(self.pos)
    }

    fn set_pos(&mut self, pos: StreamPos) -> (r: StreamResult<()>)
        ensures
            r is Ok,
    {
        proof {
            use_type_invariant(&*self);
        }
        self.pos = pos;
        Ok(())
    }

    fn get_size(&mut self) -> (r: StreamResult<StreamPos>)
        ensures
            r is Ok,
    {
        proof {
            use_type_invariant(&*self);
        }
        Ok(self.elems.len() as StreamPos)
    }
}

impl<E: Copy> OutputElemStream<E> for DummyOutputElemStream<E> {
    /// Growing an empty stream is impossible: new elements copy the first one.
    open spec fn truncatable(&self, len: int) -> bool {
        len <= self.content().len() || self.content().len() > 0
    }

    /// Beyond the end of the stream the element is appended (whatever the
    /// position), and the position still moves past the written slot.
    /// Fails with `InvalidInput` (changing nothing) when the position cannot
    /// move any further.
    fn write_next_elem(&mut self, elem: E) -> (r: StreamResult<()>)
        ensures
            r is Ok <==> old(self).position() < StreamPos::MAX,
            r matches Err(e) ==> e.kind == ErrorKind::InvalidInput && *final(self) == *old(self),
            r is Ok && old(self).position() >= old(self).content().len()
                ==> final(self).content() == old(self).content().push(elem),
    {
        proof {
            use_type_invariant(&*self);
        }
        if self.pos == StreamPos::MAX {
            return Err(StreamError::new(ErrorKind::InvalidInput));
        }
        let mut elems: Vec<E> = Vec::new();
        std::mem::swap(&mut elems, &mut self.elems);
        if self.pos >= elems.len() as StreamPos {
            elems.push(elem);
        } else {
            elems.set(self.pos as usize, elem);
        }
        self.elems = elems;
        self.pos = self.pos + 1;
        Ok(())
    }

    /// Grown slots copy the stream's first element; the position is kept.
    /// Fails with `InvalidInput` (changing nothing) when `len` is beyond the
    /// range of memory indexes.
    fn truncate(&mut self, len: StreamPos) -> (r: StreamResult<()>)
        ensures
            r is Ok <==> len <= usize::MAX,
            r is Err ==> *final(self) == *old(self),
            r is Ok ==> final(self).content() == resized(
                old(self).content(),
                len as int,
                old(self).content()[0],
            ),
            final(self).position() == old(self).position(),
    {
        proof {
            use_type_invariant(&*self);
        }
        if len as u64 > usize::MAX as u64 {
            return Err(StreamError::new(ErrorKind::InvalidInput));
        }
        let mut elems: Vec<E> = Vec::new();
        std::mem::swap(&mut elems, &mut self.elems);
        let ghost old_elems = elems@;
        let target = len as usize;
        if target <= elems.len() {
            elems.truncate(target);
        } else {
            let first = elems[0];
            while elems.len() < target
                invariant
                    old_elems.len() <= elems@.len() <= target,
                    old_elems.len() > 0,
                    first == old_elems[0],
                    elems@ == old_elems + Seq::new(
                        (elems@.len() - old_elems.len()) as nat,
                        |_i: int| old_elems[0],
                    ),
                decreases target - elems.len(),
            {
                elems.push(first);
                proof {
                    assert(elems@ =~= old_elems + Seq::new(
                        (elems@.len() - old_elems.len()) as nat,
                        |_i: int| old_elems[0],
                    ));
                }
            }
        }
        assert(elems@ =~= resized(old_elems, len as int, old_elems[0]));
        self.elems = elems;
        Ok(())
    }
}

/// Input & output binary stream over a vector of bytes.
pub struct DummyBinaryStream {
    data: Vec<u8>,
    pos: StreamPos,
}

impl DummyBinaryStream {
    #[verifier::type_invariant]
    spec fn inv(&self) -> bool {
        0 <= self.pos && self.data@.len() <= StreamPos::MAX
    }

    /// Constructs a stream holding `data`, positioned at its start.
    pub fn new(data: Vec<u8>) -> (r: Self)
        requires
            data@.len() <= StreamPos::MAX,
        ensures
            r.content() == data@,
            r.position() == 0,
    {
        Self { data, pos: 0 }
    }

    /// Gets all bytes held by the stream.
    pub fn get_all(&self) -> (r: &[u8])
        ensures
            r@ == self.content(),
    {
        self.data.as_slice()
    }
}

impl Stream<u8> for DummyBinaryStream {
    closed spec fn content(&self) -> Seq<u8> {
        self.data@
    }

    closed spec fn position(&self) -> int {
        self.pos as int
    }

    /// Memory does not fail.
    open spec fn reliable(&self) -> bool {
        true
    }

    open spec fn limit(&self) -> int {
        pos_limit()
    }

    open spec fn whole(&self) -> bool {
        true
    }

    fn rewind(&mut self) -> (r: StreamResult<()>)
        ensures
            r is Ok,
    {
        proof {
            use_type_invariant(&*self);
        }
        self.pos = 0;
        Ok(())
    }

    fn get_pos(&mut self) -> (r: StreamResult<StreamPos>)
        ensures
            r is Ok,
    {
        proof {
            use_type_invariant(&*self);
        }
        Ok(self.pos)
    }

    fn set_pos(&mut self, pos: StreamPos) -> (r: StreamResult<()>)
        ensures
            r is Ok,
    {
        proof {
            use_type_invariant(&*self);
        }
        self.pos = pos;
        Ok(())
    }

    fn get_size(&mut self) -> (r: StreamResult<StreamPos>)
        ensures
            r is Ok,
    {
        proof {
            use_type_invariant(&*self);
        }
        Ok(self.data.len() as StreamPos)
    }
}

impl InputBinaryStream for DummyBinaryStream {
    /// Fails with `UnexpectedEof` (moving nothing) when fewer bytes than
    /// `buff` holds are left.
    fn read_bytes(&mut self, buff: &mut [u8]) -> (r: StreamResult<()>)
        ensures
            r is Ok <==> old(self).position() + old(buff)@.len() <= old(self).content().len(),
            r matches Err(e) ==> e.kind == ErrorKind::UnexpectedEof && *final(self) == *old(self),
    {
        proof {
            use_type_invariant(&*self);
        }
        let n = buff.len();
        if self.pos as u64 > self.data.len() as u64 || n as u64 > self.data.len() as u64 - self.pos as u64 {
            return Err(StreamError::new(ErrorKind::UnexpectedEof));
        }
        let start = self.pos as usize;
        assert(start + n <= self.data@.len());
        let mut i: usize = 0;
        let data = &self.data;
        while i < n
            invariant
                n == buff@.len(),
                data@ == self.data@,
                start + n <= data.len(),
                0 <= i <= n,
                forall|j: int| 0 <= j < i ==> buff@[j] == self.data@[start + j],
            decreases n - i,
        {
            buff[i] = data[start + i];
            i = i + 1;
        }
        assert(buff@ =~= self.data@.subrange(start as int, start + n));
        self.pos = self.pos + n as StreamPos;
        Ok(())
    }
}

impl OutputBinaryStream for DummyBinaryStream {
    /// Fails with `InvalidInput` (changing nothing) when the end of the
    /// written bytes is beyond the range of stream positions or of memory
    /// indexes.
    fn write_bytes(&mut self, buff: &[u8]) -> (r: StreamResult<()>)
        ensures
            r is Ok <==> old(self).position() + buff@.len() <= StreamPos::MAX && old(self).position()
                + buff@.len() <= usize::MAX,
            r is Err ==> *final(self) == *old(self),
    {
        proof {
            use_type_invariant(&*self);
        }
        let n = buff.len();
        if (n as u64) > (StreamPos::MAX as u64) - (self.pos as u64) || (self.pos as u64) + (n as u64)
            > usize::MAX as u64 {
            return Err(StreamError::new(ErrorKind::InvalidInput));
        }
        let ghost old_data = self.data@;
        let start = self.pos as usize;
        let mut data: Vec<u8> = Vec::new();
        std::mem::swap(&mut data, &mut self.data);
        while data.len() < start
            invariant
                old_data.len() <= start ==> data@ == old_data + Seq::new(
                    (data@.len() - old_data.len()) as nat,
                    |_i: int| 0u8,
                ),
                old_data.len() > start ==> data@ == old_data,
                old_data.len() <= start ==> data@.len() <= start,
            decreases start - data.len(),
        {
            data.push(0);
        }
        let ghost padded = data@;
        assert(padded == if start > old_data.len() {
            old_data + Seq::new((start - old_data.len()) as nat, |_i: int| 0u8)
        } else {
            old_data
        }) by {
            if start > old_data.len() {
                assert(padded =~= old_data + Seq::new((start - old_data.len()) as nat, |_i: int| 0u8));
            }
        }
        let mut i: usize = 0;
        while i < n
            invariant
                n == buff@.len(),
                start + n <= usize::MAX,
                start <= padded.len(),
                0 <= i <= n,
                data@.len() == if start + i > padded.len() { start + i } else { padded.len() as int },
                forall|j: int| 0 <= j < start ==> data@[j] == padded[j],
                forall|j: int| 0 <= j < i ==> data@[start + j] == buff@[j],
                forall|j: int| start + i <= j < data@.len() ==> data@[j] == padded[j],
            decreases n - i,
        {
            if start + i < data.len() {
                data.set(start + i, buff[i]);
            } else {
                data.push(buff[i]);
            }
            i = i + 1;
        }
        assert(data@ =~= written_at(old_data, start as int, buff@, 0u8));
        self.data = data;
        self.pos = self.pos + n as StreamPos;
        Ok(())
    }

    /// Fails with `InvalidInput` (changing nothing) when `len` is beyond the
    /// range of memory indexes.
    fn truncate(&mut self, len: StreamPos) -> (r: StreamResult<()>)
        ensures
            r is Ok <==> len <= usize::MAX,
            r is Err ==> *final(self) == *old(self),
            r is Ok ==> final(self).content() == resized(old(self).content(), len as int, 0u8),
    {
        proof {
            use_type_invariant(&*self);
        }
        if len as u64 > usize::MAX as u64 {
            return Err(StreamError::new(ErrorKind::InvalidInput));
        }
        let ghost old_data = self.data@;
        let mut data: Vec<u8> = Vec::new();
        std::mem::swap(&mut data, &mut self.data);
        data.resize(len as usize, 0);
        assert(data@ =~= resized(old_data, len as int, 0u8));
        self.data = data;
        if self.pos > len {
            self.pos = len;
        }
        Ok(())
    }
}

} // verus!
