use pngfier::error::ErrorKind;
use pngfier::streams::dummy::DummyBinaryStream;
use pngfier::streams::spans::BinarySpan;
use pngfier::streams::traits::{InputBinaryStream, OutputBinaryStream, Stream};

////////////////////////////////////////////////////////////////////////
// ---------------- Construction / whole-stream span ---------------- //
////////////////////////////////////////////////////////////////////////

#[test]
fn test_binary_span_span_with_no_bounds_covers_whole_stream() {
	let mut stream = DummyBinaryStream::new(vec![0x01, 0x02, 0x03, 0x04]);
	let mut span = BinarySpan::new(&mut stream, None, None);

	assert_eq!(span.get_size().unwrap(), 4);
	let mut buf = [0x00u8; 4];
	span.read_bytes(&mut buf).unwrap();
	assert_eq!(buf, [0x01, 0x02, 0x03, 0x04]);
}

///////////////////////////////////////////////////////////////
// ---------------- Stream trait forwarding ---------------- //
///////////////////////////////////////////////////////////////

#[test]
fn test_binary_span_get_pos_starts_at_zero_and_advances_on_read() {
	let mut stream = DummyBinaryStream::new(vec![0x01, 0x02, 0x03, 0x04]);
	let mut span = BinarySpan::new(&mut stream, None, None);

	assert_eq!(span.get_pos().unwrap(), 0);
	let mut buf = [0x00u8; 2];
	span.read_bytes(&mut buf).unwrap();
	assert_eq!(span.get_pos().unwrap(), 2);
}

#[test]
fn set_pos_seeks_locally() {
	let mut stream = DummyBinaryStream::new(vec![0x0A, 0x0B, 0x0C, 0x0D]);
	let mut span = BinarySpan::new(&mut stream, None, None);

	span.set_pos(2).unwrap();
	assert_eq!(span.get_pos().unwrap(), 2);
	let mut buf = [0x00u8; 2];
	span.read_bytes(&mut buf).unwrap();
	assert_eq!(buf, [0x0C, 0x0D]);
}

#[test]
fn rewind_resets_to_local_zero() {
	let mut stream = DummyBinaryStream::new(vec![0x05, 0x06, 0x07]);
	let mut span = BinarySpan::new(&mut stream, None, None);

	let mut buf = [0x00u8; 1];
	span.read_bytes(&mut buf).unwrap();
	span.rewind().unwrap();
	assert_eq!(span.get_pos().unwrap(), 0);
	span.read_bytes(&mut buf).unwrap();
	assert_eq!(buf, [0x05]);
}

#[test]
fn read_past_bound_errors() {
	let mut stream = DummyBinaryStream::new(vec![0x01, 0x02]);
	let mut span = BinarySpan::new(&mut stream, None, None);

	let mut buf = [0x00u8; 5]; // more than the 2 bytes available
	let result = span.read_bytes(&mut buf);
	assert!(result.is_err());
	assert_eq!(result.unwrap_err().kind(), ErrorKind::UnexpectedEof);
}

// ---------------- Byte-range bounded span ----------------

#[test]
fn test_binary_span_explicit_offset_skips_leading_bytes() {
	let mut stream = DummyBinaryStream::new(vec![0xFF, 0xFF, 0x01, 0x02, 0x03]);
	let mut span = BinarySpan::new(&mut stream, Some(2), None);

	assert_eq!(span.get_size().unwrap(), 3);
	let mut buf = [0x00u8; 3];
	span.read_bytes(&mut buf).unwrap();
	assert_eq!(buf, [0x01, 0x02, 0x03]);
}

#[test]
fn test_binary_span_explicit_end_stops_before_trailing_bytes() {
	let mut stream = DummyBinaryStream::new(vec![0x01, 0x02, 0x03, 0x04, 0x05]);
	let mut span = BinarySpan::new(&mut stream, Some(0), Some(3)); // covers [0,3)

	assert_eq!(span.get_size().unwrap(), 3);
	let mut buf = [0x00u8; 3];
	span.read_bytes(&mut buf).unwrap();
	assert_eq!(buf, [0x01, 0x02, 0x03]);

	// eading beyond the span's end must fail even though the
	// underlying stream still has more bytes
	let mut extra = [0u8; 1];
	let result = span.read_bytes(&mut extra);
	assert!(result.is_err());
}

#[test]
fn test_binary_span_explicit_offset_and_end_bound_a_middle_slice() {
	let mut stream = DummyBinaryStream::new(vec![0xFF, 0xFF, 0x01, 0x02, 0xFF, 0xFF]);
	let mut span = BinarySpan::new(&mut stream, Some(2), Some(4));

	assert_eq!(span.get_size().unwrap(), 2);
	let mut buf = [0x00u8; 2];
	span.read_bytes(&mut buf).unwrap();
	assert_eq!(buf, [0x01, 0x02]);
}

//////////////////////////////////////////////
// ---------------- Output ---------------- //
//////////////////////////////////////////////

#[test]
fn test_binary_span_write_bytes_writes_at_correct_global_offset() {
	let mut stream = DummyBinaryStream::new(vec![0x00; 6]);
	let mut span = BinarySpan::new(&mut stream, Some(2), None);

	span.write_bytes(&[0x01, 0x02]).unwrap();
	span.write_bytes(&[0x03, 0x04]).unwrap();

	assert_eq!(stream.get_all(), &[0x00, 0x00, 0x01, 0x02, 0x03, 0x04]);
}

#[test]
fn write_bytes_advances_pos() {
	let mut stream = DummyBinaryStream::new(vec![0x00; 4]);
	let mut span = BinarySpan::new(&mut stream, None, None);

	span.write_bytes(&[0x01, 0x02]).unwrap();
	assert_eq!(span.get_pos().unwrap(), 2);
}

#[test]
fn test_binary_span_write_then_rewind_then_read_back_roundtrip() {
	let mut stream = DummyBinaryStream::new(vec![0x00; 4]);
	let mut span = BinarySpan::new(&mut stream, None, None);

	span.write_bytes(&[0x11, 0x99]).unwrap();
	span.rewind().unwrap();

	let mut buf = [0x00u8; 2];
	span.read_bytes(&mut buf).unwrap();
	assert_eq!(buf, [0x11, 0x99]);
}

#[test]
fn test_binary_span_truncate_shrinks_span_size() {
	let mut stream = DummyBinaryStream::new(vec![0x01, 0x02, 0x03, 0x04]);
	let mut span = BinarySpan::new(&mut stream, None, None);

	span.truncate(2).unwrap();

	assert_eq!(span.get_size().unwrap(), 2);
	span.rewind().unwrap();
	let mut buf = [0x00u8; 2];
	span.read_bytes(&mut buf).unwrap();
	assert_eq!(buf, [0x01, 0x02]);
}

#[test]
fn test_binary_span_truncate_to_zero_empties_span() {
	let mut stream = DummyBinaryStream::new(vec![0x01, 0x02, 0x03]);
	let mut span = BinarySpan::new(&mut stream, None, None);

	span.truncate(0).unwrap();

	assert_eq!(span.get_size().unwrap(), 0);
	let mut buf = [0x00u8; 1];
	let result = span.read_bytes(&mut buf);
	assert!(result.is_err());
}



//////////////////////////////////////////////////////////////
// ---------------- Positions sanity check ---------------- //
//////////////////////////////////////////////////////////////

#[test]
fn test_binary_span_span_at_nonzero_offset_reports_local_not_global_pos() {
    // checking that BinarySpan reports *local* position
    // (relative to its own offset), not the underlying stream's
    // global position
	let mut stream = DummyBinaryStream::new(vec![0xFF, 0xFF, 0x01, 0x02, 0x03]);
	let mut span = BinarySpan::new(&mut stream, Some(2), None);

	assert_eq!(span.get_pos().unwrap(), 0); // local pos, not byte offset 2
	let mut buf = [0x00u8; 1];
	span.read_bytes(&mut buf).unwrap();
	assert_eq!(span.get_pos().unwrap(), 1);
}

#[test]
fn write_past_span_end_is_refused() {
	let mut stream = DummyBinaryStream::new(vec![0x00; 4]);
	{
		let mut span = BinarySpan::new(&mut stream, Some(1), Some(3));
		let result = span.write_bytes(&[0x01, 0x02, 0x03]);
		assert_eq!(result.unwrap_err().kind(), ErrorKind::WriteZero);
		assert_eq!(span.get_pos().unwrap(), 0);
	}
	assert_eq!(stream.get_all(), &[0x00; 4]);
}

#[test]
fn write_outside_a_sibling_window_keeps_it() {
	let mut stream = DummyBinaryStream::new(vec![1, 2, 3, 4, 5, 6]);
	{
		let mut span = BinarySpan::new(&mut stream, Some(4), None);
		span.write_bytes(&[9, 9, 9]).unwrap();
	}
	let mut sibling = BinarySpan::new(&mut stream, Some(0), Some(4));
	let mut buf = [0u8; 4];
	sibling.read_bytes(&mut buf).unwrap();
	assert_eq!(buf, [1, 2, 3, 4]);
}
