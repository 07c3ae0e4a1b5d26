//! Searching streams.
use vstd::prelude::*;

use crate::error::{ErrorKind, StreamError, StreamResult};
use crate::streams::traits::{InputElemStream, StreamPos};
use vstd::std_specs::cmp::PartialEqSpec;

verus! {

/// Whether `data` occurs in `s` starting at index `k`.
pub open spec fn occurs_at<E>(s: Seq<E>, k: int, data: Seq<E>) -> bool {
    0 <= k && k + data.len() <= s.len() && s.subrange(k, k + data.len()) == data
}

/// Items of `s` from index `pos` on (nothing when `pos` is beyond its end).
pub open spec fn rest_from<E>(s: Seq<E>, pos: int) -> Seq<E> {
    if 0 <= pos <= s.len() {
        s.skip(pos)
    } else {
        Seq::empty()
    }
}

/// Index of the first occurrence of `data` in `s`, if any.
pub open spec fn first_occurrence<E>(s: Seq<E>, data: Seq<E>) -> Option<int> {
    if exists|k: int| occurs_at(s, k, data) {
        Some(choose|k: int| occurs_at(s, k, data) && forall|j: int| 0 <= j < k ==> !occurs_at(s, j, data))
    } else {
        None
    }
}

proof fn lemma_first_occurrence<E>(s: Seq<E>, data: Seq<E>, k: int)
    requires
        occurs_at(s, k, data),
        forall|j: int| 0 <= j < k ==> !occurs_at(s, j, data),
    ensures
        first_occurrence(s, data) == Some(k),
{
    let w = choose|x: int| occurs_at(s, x, data) && forall|j: int| 0 <= j < x ==> !occurs_at(s, j, data);
    assert(occurs_at(s, w, data) && forall|j: int| 0 <= j < w ==> !occurs_at(s, j, data));
    if w < k {
        assert(!occurs_at(s, w, data));
    }
    if k < w {
        assert(!occurs_at(s, k, data));
    }
}

/// Sliding the window of the last (at most `n`) items by one item.
proof fn lemma_window_push<E>(rest: Seq<E>, n: int, count: int, w_old: Seq<E>, e: E, w_new: Seq<E>)
    requires
        n > 0,
        0 <= count < rest.len(),
        w_old.len() == if count < n { count } else { n },
        w_old == rest.subrange(count - w_old.len(), count),
        e == rest[count],
        w_new == if w_old.len() == n { w_old.remove(0).push(e) } else { w_old.push(e) },
    ensures
        w_new.len() == if count + 1 < n { count + 1 } else { n },
        w_new == rest.subrange(count + 1 - w_new.len(), count + 1),
{
    assert(w_new =~= rest.subrange(count + 1 - w_new.len(), count + 1));
}

/// No occurrence ends at `count + 1` when the last window differs from `data`.
proof fn lemma_window_step<E>(rest: Seq<E>, data: Seq<E>, count: int, window: Seq<E>)
    requires
        data.len() > 0,
        0 <= count < rest.len(),
        forall|j: int| 0 <= j && j + data.len() <= count ==> !occurs_at(rest, j, data),
        window.len() == if count + 1 < data.len() { count + 1 } else { data.len() as int },
        window == rest.subrange(count + 1 - window.len(), count + 1),
        !(window.len() == data.len() && window == data),
    ensures
        forall|j: int| 0 <= j && j + data.len() <= count + 1 ==> !occurs_at(rest, j, data),
{
    assert forall|j: int| 0 <= j && j + data.len() <= count + 1 implies !occurs_at(rest, j, data) by {
        if j + data.len() == count + 1 {
            assert(window.len() == data.len());
        }
    }
}

/// Without an occurrence among the first `count` items, a sequence of at
/// most `count` items holds none.
proof fn lemma_no_occurrence<E>(rest: Seq<E>, data: Seq<E>, count: int)
    requires
        rest.len() <= count,
        forall|j: int| 0 <= j && j + data.len() <= count ==> !occurs_at(rest, j, data),
    ensures
        first_occurrence(rest, data) is None,
{
    assert(!(exists|j: int| occurs_at(rest, j, data)));
}

/// Checks whether the two slices hold the same elements.
fn same_elems<E: PartialEq>(a: &[E], b: &[E]) -> (r: bool)
    requires
        vstd::laws_eq::obeys_concrete_eq::<E>(),
    ensures
        r == (a@ == b@),
{
    proof {
        reveal(vstd::laws_eq::obeys_concrete_eq);
    }
    if a.len() != b.len() {
        return false;
    }
    let mut i: usize = 0;
    while i < a.len()
        invariant
            vstd::laws_eq::obeys_concrete_eq::<E>(),
            forall|x: E, y: E| x.eq_spec(&y) <==> x == y,
            E::obeys_eq_spec(),
            a@.len() == b@.len(),
            0 <= i <= a@.len(),
            forall|j: int| 0 <= j < i ==> a@[j] == b@[j],
        decreases a@.len() - i,
    {
        if !(a[i] == b[i]) {
            return false;
        }
        i = i + 1;
    }
    assert(a@ =~= b@);
    true
}

/// Looks for `data` among the elements of `stream` from its position on.
///
/// * `stream_start` - Index within the stream where lookup is starting.
/// * `stream` - Stream to read elements from.
/// * `data` - Data to look for.
///
/// Returns the index (counted from `stream_start`) where the first occurrence
/// of `data` starts, or `None` if the stream holds no occurrence. The stream
/// is left past the occurrence found (or at its end).
/// Fails with `InvalidInput` when that index (or the amount of elements read)
/// is out of range; a read that fails ends the lookup, with the read's error.
#[verifier::rlimit(30)]
pub fn lookup<E: PartialEq + Copy, S: InputElemStream<E>>(
    stream_start: StreamPos,
    stream: &mut S,
    data: &[E],
) -> (r: StreamResult<Option<StreamPos>>)
    requires
        vstd::laws_eq::obeys_concrete_eq::<E>(),
        0 <= old(stream).position(),
    ensures
        r matches Ok(res) ==> {
            let rest = rest_from(old(stream).content(), old(stream).position());
            match first_occurrence(rest, data@) {
                Some(k) => res == Some((stream_start + k) as StreamPos) && stream_start + k
                    <= StreamPos::MAX,
                None => res is None,
            }
        },
        old(stream).reliable() && old(stream).whole() && old(stream).position() <= old(stream).limit() && old(stream).content().len()
            <= old(stream).limit() && old(stream).content().len() <= StreamPos::MAX && (first_occurrence(
            rest_from(old(stream).content(), old(stream).position()),
            data@,
        ) matches Some(k) ==> stream_start + k <= StreamPos::MAX) ==> r is Ok,
        r matches Err(e) ==> {
            let rest = rest_from(old(stream).content(), old(stream).position());
            ||| final(stream).read_failure() == Some(e)
            ||| e == StreamError { kind: ErrorKind::InvalidInput } && (rest.len() > StreamPos::MAX || (
                first_occurrence(rest, data@) matches Some(k) && stream_start + k > StreamPos::MAX))
        },
        data@.len() > 0 && final(stream).read_failure() is Some ==> r == Err::<Option<StreamPos>, _>(
            final(stream).read_failure()->0,
        ),
{
    let ghost rest = rest_from(stream.content(), stream.position());
    let ghost pos0 = stream.position();
    let ghost content = stream.content();
    let n = data.len();
    if n == 0 {
        proof {
            assert(rest.subrange(0, 0) =~= data@);
            lemma_first_occurrence(rest, data@, 0);
        }
        return Ok(Some(stream_start));
    }
    let mut window: Vec<E> = Vec::new();
    let mut count: u64 = 0;
    loop
        invariant
            vstd::laws_eq::obeys_concrete_eq::<E>(),
            n == data@.len(),
            n > 0,
            rest == rest_from(content, pos0),
            content == old(stream).content(),
            pos0 == old(stream).position(),
            0 <= pos0,
            stream.content() == content,
            stream.position() == pos0 + count,
            count <= rest.len(),
            window@.len() == if count < n { count as int } else { n as int },
            window@ == rest.subrange(count - window@.len(), count as int),
            forall|j: int| 0 <= j && j + n <= count ==> !occurs_at(rest, j, data@),
            old(stream).reliable() ==> stream.reliable(),
            old(stream).whole() ==> stream.whole(),
            count > 0 ==> stream.read_failure() is None,
            stream.limit() == old(stream).limit(),
        decreases content.len() - stream.position(),
    {
        let next = match stream.read_next_elem() {
            Ok(next) => next,
            Err(e) => return Err(e),
        };
        let e = match next {
            None => {
                proof {
                    lemma_no_occurrence(rest, data@, count as int);
                }
                return Ok(None);
            },
            Some(e) => e,
        };
        if count == u64::MAX {
            return Err(StreamError::new(ErrorKind::InvalidInput));
        }
        let ghost w_old = window@;
        if window.len() == n {
            window.remove(0);
        }
        window.push(e);
        proof {
            lemma_window_push(rest, n as int, count as int, w_old, e, window@);
        }
        count = count + 1;
        let found = window.len() == n && same_elems(window.as_slice(), data);
        if found {
            let k = count - n as u64;
            proof {
                assert(occurs_at(rest, k as int, data@));
                lemma_first_occurrence(rest, data@, k as int);
            }
            if k > StreamPos::MAX as u64 || (stream_start as i128) + (k as i128) > StreamPos::MAX as i128 {
                return Err(StreamError::new(ErrorKind::InvalidInput));
            }
            proof {
                assert(occurs_at(rest, k as int, data@));
                lemma_first_occurrence(rest, data@, k as int);
            }
            return Ok(Some(stream_start + k as StreamPos));
        }
        proof {
            lemma_window_step(rest, data@, (count - 1) as int, window@);
        }
    }
}

} // verus!
