use pngfier::error::ErrorKind;
use pngfier::streams::dummy::DummyInputElemStream;
use pngfier::streams::utils::lookup;
use pngfier::streams::dummy::DummyBinaryStream;
use pngfier::streams::spans::BinaryElemSpan;
use pngfier::streams::traits::{InputElemStream, OutputElemStream, Stream};

////////////////////////////////////////////////////////////////////////
// ---------------- Construction / whole-stream span ---------------- //
////////////////////////////////////////////////////////////////////////

#[test]
fn test_elem_span_span_with_no_bounds_covers_whole_stream() {
    let mut stream = DummyBinaryStream::new(vec![0x00, 0x01, 0x00, 0x02, 0x00, 0x03]); // elems 1, 2, 3
    let mut span = BinaryElemSpan::<u16, _>::new(&mut stream, None, None);

    assert_eq!(span.get_size().unwrap(), 3);
    assert_eq!(span.read_next_elem().unwrap(), Some(1u16));
    assert_eq!(span.read_next_elem().unwrap(), Some(2u16));
    assert_eq!(span.read_next_elem().unwrap(), Some(3u16));
    assert_eq!(span.read_next_elem().unwrap(), None);
}

///////////////////////////////////////////////////////////////
// ---------------- Stream trait forwarding ---------------- //
///////////////////////////////////////////////////////////////

#[test]
fn test_elem_span_get_pos_starts_at_zero_and_advances_on_read() {
    let mut stream = DummyBinaryStream::new(vec![0x00, 0x01, 0x00, 0x02]);
    let mut span = BinaryElemSpan::<u16, _>::new(&mut stream, None, None);

    assert_eq!(span.get_pos().unwrap(), 0);
    span.read_next_elem().unwrap();
    assert_eq!(span.get_pos().unwrap(), 1);
    span.read_next_elem().unwrap();
    assert_eq!(span.get_pos().unwrap(), 2);
}

#[test]
fn set_pos_seeks_to_element_index() {
    let mut stream = DummyBinaryStream::new(vec![0x00, 0x01, 0x00, 0x02, 0x00, 0x03, 0x00, 0x04]);
    let mut span = BinaryElemSpan::<u16, _>::new(&mut stream, None, None);

    span.set_pos(2).unwrap();
    assert_eq!(span.get_pos().unwrap(), 2);
    assert_eq!(span.read_next_elem().unwrap(), Some(3u16));
}

#[test]
fn rewind_resets_to_start() {
    let mut stream = DummyBinaryStream::new(vec![0x00, 0x01, 0x00, 0x02]);
    let mut span = BinaryElemSpan::<u16, _>::new(&mut stream, None, None);

    span.read_next_elem().unwrap();
    span.rewind().unwrap();
    assert_eq!(span.get_pos().unwrap(), 0);
    assert_eq!(span.read_next_elem().unwrap(), Some(1u16));
}

///////////////////////////////////////////////////////////////
// ---------------- Byte-range bounded span ---------------- //
///////////////////////////////////////////////////////////////

#[test]
fn test_elem_span_explicit_offset_skips_leading_bytes() {
    let mut stream = DummyBinaryStream::new(vec![0xFF, 0xFF, 0x00, 0x01, 0x00, 0x02]);
    let mut span = BinaryElemSpan::<u16, _>::new(&mut stream, Some(2), None);

    assert_eq!(span.read_next_elem().unwrap(), Some(1u16));
    assert_eq!(span.read_next_elem().unwrap(), Some(2u16));
    assert_eq!(span.read_next_elem().unwrap(), None);
}

#[test]
fn test_elem_span_explicit_end_stops_before_trailing_bytes() {
    // stream has 4 elements worth of data; span only covers the first 2 (bytes [0,4))
    let mut stream = DummyBinaryStream::new(vec![0x00, 0x01, 0x00, 0x02, 0x00, 0x03, 0x00, 0x04]);
    let mut span = BinaryElemSpan::<u16, _>::new(&mut stream, Some(0), Some(4));

    assert_eq!(span.get_size().unwrap(), 2);
    assert_eq!(span.read_next_elem().unwrap(), Some(1u16));
    assert_eq!(span.read_next_elem().unwrap(), Some(2u16));
    assert_eq!(span.read_next_elem().unwrap(), None); // stops at byte_end
}

#[test]
fn test_elem_span_explicit_offset_and_end_bound_a_middle_slice() {
    let mut stream = DummyBinaryStream::new(vec![
        0xFF, 0xFF,             // leading junk, excluded
        0x00, 0x01, 0x00, 0x02, // the span: elems 1, 2
        0xFF, 0xFF,             // trailing junk, excluded
    ]);
    let mut span = BinaryElemSpan::<u16, _>::new(&mut stream, Some(2), Some(6));

    assert_eq!(span.get_size().unwrap(), 2);
    assert_eq!(span.read_next_elem().unwrap(), Some(1u16));
    assert_eq!(span.read_next_elem().unwrap(), Some(2u16));
    assert_eq!(span.read_next_elem().unwrap(), None);
}

//////////////////////////////////////////////
// ---------------- Output ---------------- //
//////////////////////////////////////////////

#[test]
fn write_next_elem_writes_at_correct_offset_in_underlying_stream() {
    let mut stream = DummyBinaryStream::new(vec![0x00; 6]);
    let mut span = BinaryElemSpan::<u16, _>::new(&mut stream, Some(2), None);

    span.write_next_elem(0x0102u16).unwrap();
    span.write_next_elem(0x0304u16).unwrap();

    assert_eq!(stream.get_all(), &[0x00, 0x00, 0x01, 0x02, 0x03, 0x04]);
}

#[test]
fn write_next_elem_advances_pos() {
    let mut stream = DummyBinaryStream::new(vec![0x00; 4]);
    let mut span = BinaryElemSpan::<u16, _>::new(&mut stream, None, None);

    span.write_next_elem(1u16).unwrap();
    assert_eq!(span.get_pos().unwrap(), 1);
    span.write_next_elem(2u16).unwrap();
    assert_eq!(span.get_pos().unwrap(), 2);
}

#[test]
fn test_elem_span_write_then_rewind_then_read_back_roundtrip() {
    let mut stream = DummyBinaryStream::new(vec![0x00; 4]);
    let mut span = BinaryElemSpan::<u16, _>::new(&mut stream, None, None);

    span.write_next_elem(42u16).unwrap();
    span.write_next_elem(99u16).unwrap();
    span.rewind().unwrap();

    assert_eq!(span.read_next_elem().unwrap(), Some(42u16));
    assert_eq!(span.read_next_elem().unwrap(), Some(99u16));
}

#[test]
fn test_elem_span_truncate_shrinks_span_element_count() {
    let mut stream = DummyBinaryStream::new(vec![0x00, 0x01, 0x00, 0x02, 0x00, 0x03]); // 3 elems
    let mut span = BinaryElemSpan::<u16, _>::new(&mut stream, None, None);

    span.truncate(1).unwrap();

    assert_eq!(span.get_size().unwrap(), 1);
    span.rewind().unwrap();
    assert_eq!(span.read_next_elem().unwrap(), Some(1u16));
    assert_eq!(span.read_next_elem().unwrap(), None);
}

#[test]
fn test_elem_span_truncate_to_zero_empties_span() {
    let mut stream = DummyBinaryStream::new(vec![0x00, 0x01, 0x00, 0x02]);
    let mut span = BinaryElemSpan::<u16, _>::new(&mut stream, None, None);

    span.truncate(0).unwrap();

    assert_eq!(span.get_size().unwrap(), 0);
    assert_eq!(span.read_next_elem().unwrap(), None);
}

//////////////////////////////////////////////////////////////
// ---------------- Positions sanity check ---------------- //
//////////////////////////////////////////////////////////////

#[test]
fn test_elem_span_span_at_nonzero_offset_reports_local_not_global_pos() {
    // checking that BinaryElemSpan reports *local* element position
    // (relative to its own offset), not the underlying stream's
    // raw byte/element position
    let mut stream = DummyBinaryStream::new(vec![0xFF, 0xFF, 0x00, 0x01, 0x00, 0x02]);
    let mut span = BinaryElemSpan::<u16, _>::new(&mut stream, Some(2), None);

    assert_eq!(span.get_pos().unwrap(), 0); // local pos, not byte offset 2
    span.read_next_elem().unwrap();
    assert_eq!(span.get_pos().unwrap(), 1);
}

#[test]
fn lookup_gives_the_first_occurrence_from_the_start_given() {
    let mut s = DummyInputElemStream::new(vec![1u8, 2, 3, 2, 3]);
    assert_eq!(lookup(10, &mut s, &[2, 3]).unwrap(), Some(11));
    let mut s = DummyInputElemStream::new(vec![1u8, 2, 3]);
    assert_eq!(lookup(0, &mut s, &[3, 1]).unwrap(), None);
}

#[test]
fn lookup_hands_on_a_failing_read() {
    // two elements of two bytes, then a single byte: reading the third fails
    let mut bytes = DummyBinaryStream::new(vec![0, 1, 0, 2, 9]);
    let mut span: BinaryElemSpan<'_, u16, DummyBinaryStream> = BinaryElemSpan::new(&mut bytes, None, None);
    let err = lookup(0, &mut span, &[7u16]).unwrap_err();
    assert_eq!(err.kind, ErrorKind::UnexpectedEof);
}
