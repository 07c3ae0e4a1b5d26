use pngfier::chunks::storage::utils::{extract_reference, read_chunk_info, write_chunk_info};
use pngfier::chunks::storage::{ChunkInfoWidths, ChunksReader, ChunksWriter};
use pngfier::chunks::ChunkInfo;
use pngfier::error::ErrorKind;
use pngfier::streams::dummy::{DummyBinaryStream, DummyInputElemStream, DummyOutputElemStream};
use pngfier::streams::traits::Stream;

#[test]
fn chunks_storage_round_trip() {
    let chunks: Vec<ChunkInfo<u8>> = vec![
        ChunkInfo::Literal(vec![0x04, 0x03, 0x05]),
        ChunkInfo::Reference { index: 0, size: 5 },
        ChunkInfo::Literal(vec![0x08]),
        ChunkInfo::Literal(vec![0x09]),
    ];

    let img = vec![0xAA, 0xBB, 0xCC, 0xDD, 0xEE, 0xFF];

    let expected = vec![
        0x04, 0x03, 0x05,
        0xAA, 0xBB, 0xCC, 0xDD, 0xEE,
        0x08, 0x09,
    ];

    let widths = ChunkInfoWidths { is_literal: 1, size: 15, index: 16 };
    let mut img_stream = DummyBinaryStream::new(img);
    let mut key_stream = DummyBinaryStream::new(vec![]);

    {
        let mut writer = ChunksWriter::new(widths, &chunks, &mut key_stream);
        writer.write().unwrap();
    }

    let mut output = DummyOutputElemStream::new(Vec::<u8>::new());
    {
        img_stream.rewind().unwrap();
        key_stream.rewind().unwrap();
        let mut reader = ChunksReader::new(widths, &mut img_stream, &mut key_stream, &mut output);
        reader.extract_all().unwrap();
    }

    assert_eq!(
        output.get_all(), expected,
        "Bad output. Key: {:?}", key_stream.get_all()
    );
}

const WIDTHS: ChunkInfoWidths = ChunkInfoWidths { is_literal: 1, size: 15, index: 16 };

#[test]
fn literal_record_is_header_then_elements() {
    let mut key = DummyBinaryStream::new(vec![]);
    write_chunk_info(&mut key, &WIDTHS, &ChunkInfo::Literal(vec![4u8, 3, 5])).unwrap();
    // is_literal = 1 (1 bit), size = 3 (15 bits), then the elements
    assert_eq!(key.get_all(), &[0x80, 0x03, 4, 3, 5]);
}

#[test]
fn reference_record_is_header_then_index() {
    let mut key = DummyBinaryStream::new(vec![]);
    write_chunk_info::<u8, _>(&mut key, &WIDTHS, &ChunkInfo::Reference { index: 2, size: 5 }).unwrap();
    // is_literal = 0 (1 bit), size = 5 (15 bits), index = 2 (16 bits)
    assert_eq!(key.get_all(), &[0x00, 0x05, 0x00, 0x02]);
}

#[test]
fn header_is_padded_to_whole_bytes() {
    let widths = ChunkInfoWidths { is_literal: 2, size: 3, index: 4 };
    let mut key = DummyBinaryStream::new(vec![]);
    write_chunk_info::<u8, _>(&mut key, &widths, &ChunkInfo::Reference { index: 9, size: 6 }).unwrap();
    // 00 110 1001 padded with three zero bits: 0011 0100 1000 0000
    assert_eq!(key.get_all(), &[0x34, 0x80]);
}

#[test]
fn records_are_read_back() {
    let mut key = DummyBinaryStream::new(vec![0x80, 0x03, 4, 3, 5, 0x00, 0x05, 0x00, 0x02]);
    let first = read_chunk_info::<u8, _>(&mut key, &WIDTHS).unwrap();
    assert_eq!(first, Some(ChunkInfo::Literal(vec![4, 3, 5])));
    let second = read_chunk_info::<u8, _>(&mut key, &WIDTHS).unwrap();
    assert_eq!(second, Some(ChunkInfo::Reference { index: 2, size: 5 }));
    assert_eq!(read_chunk_info::<u8, _>(&mut key, &WIDTHS).unwrap(), None);
}

#[test]
fn size_too_large_for_its_field_is_refused() {
    let mut key = DummyBinaryStream::new(vec![]);
    let err = write_chunk_info::<u8, _>(&mut key, &WIDTHS, &ChunkInfo::Reference { index: 0, size: 40000 })
        .unwrap_err();
    assert_eq!(err.kind(), ErrorKind::InvalidInput);
}

#[test]
fn negative_index_is_refused() {
    let mut key = DummyBinaryStream::new(vec![]);
    let err = write_chunk_info::<u8, _>(&mut key, &WIDTHS, &ChunkInfo::Reference { index: -1, size: 1 })
        .unwrap_err();
    assert_eq!(err.kind(), ErrorKind::InvalidInput);
}

#[test]
fn key_cut_within_a_header_is_unexpected_eof() {
    let mut key = DummyBinaryStream::new(vec![0x00, 0x05, 0x00]);
    let err = read_chunk_info::<u8, _>(&mut key, &WIDTHS).unwrap_err();
    assert_eq!(err.kind(), ErrorKind::UnexpectedEof);
}

#[test]
fn key_cut_within_literal_elements_is_an_error() {
    let mut key = DummyBinaryStream::new(vec![0x80, 0x03, 4]);
    assert!(read_chunk_info::<u8, _>(&mut key, &WIDTHS).is_err());
}

#[test]
fn is_literal_wider_than_a_byte_cannot_be_read() {
    let widths = ChunkInfoWidths { is_literal: 9, size: 15, index: 16 };
    let mut key = DummyBinaryStream::new(vec![0; 8]);
    let err = read_chunk_info::<u8, _>(&mut key, &widths).unwrap_err();
    assert_eq!(err.kind(), ErrorKind::InvalidInput);
}

#[test]
fn reader_uses_the_widths_the_key_starts_with() {
    // widths 1, 7, 8: a reference to 2 elements at index 1 takes two bytes
    let mut image = DummyBinaryStream::new(vec![1, 2, 3]);
    let mut key = DummyBinaryStream::new(vec![1, 7, 8, 0x02, 0x01]);
    let mut output = DummyOutputElemStream::new(Vec::<u8>::new());
    let mut reader = ChunksReader::new(WIDTHS, &mut image, &mut key, &mut output);
    reader.extract_all().unwrap();
    assert_eq!(reader.widths, ChunkInfoWidths { is_literal: 1, size: 7, index: 8 });
    assert_eq!(output.get_all(), &[2u8, 3]);
}

#[test]
fn key_shorter_than_its_widths_fails_extraction() {
    let mut image = DummyBinaryStream::new(vec![1, 2, 3]);
    let mut key = DummyBinaryStream::new(vec![1, 15]);
    let mut output = DummyOutputElemStream::new(Vec::<u8>::new());
    let mut reader = ChunksReader::new(WIDTHS, &mut image, &mut key, &mut output);
    assert_eq!(reader.extract_all().unwrap_err().kind(), ErrorKind::UnexpectedEof);
}

#[test]
fn reference_beyond_image_fails_extraction() {
    let chunks: Vec<ChunkInfo<u8>> = vec![ChunkInfo::Reference { index: 2, size: 5 }];
    let mut image = DummyBinaryStream::new(vec![1, 2, 3]);
    let mut key = DummyBinaryStream::new(vec![]);
    ChunksWriter::new(WIDTHS, &chunks, &mut key).write().unwrap();
    key.rewind().unwrap();
    let mut output = DummyOutputElemStream::new(Vec::<u8>::new());
    let mut reader = ChunksReader::new(WIDTHS, &mut image, &mut key, &mut output);
    assert_eq!(reader.extract_all().unwrap_err().kind(), ErrorKind::UnexpectedEof);
}

#[test]
fn references_count_from_the_image_position() {
    let chunks: Vec<ChunkInfo<u8>> = vec![ChunkInfo::Reference { index: 1, size: 2 }];
    let mut image = DummyBinaryStream::new(vec![10, 11, 12, 13, 14]);
    image.set_pos(2).unwrap();
    let mut key = DummyBinaryStream::new(vec![]);
    ChunksWriter::new(WIDTHS, &chunks, &mut key).write().unwrap();
    key.rewind().unwrap();
    let mut output = DummyOutputElemStream::new(Vec::<u8>::new());
    ChunksReader::new(WIDTHS, &mut image, &mut key, &mut output).extract_all().unwrap();
    assert_eq!(output.get_all(), &[13, 14]);
}

#[test]
fn consecutive_literals_are_stored_as_one_record() {
    let chunks: Vec<ChunkInfo<u8>> = vec![
        ChunkInfo::Literal(vec![1]),
        ChunkInfo::Literal(vec![]),
        ChunkInfo::Literal(vec![2, 3]),
    ];
    let mut key = DummyBinaryStream::new(vec![]);
    ChunksWriter::new(WIDTHS, &chunks, &mut key).write().unwrap();
    assert_eq!(key.get_all(), &[1, 15, 16, 0x80, 0x03, 1, 2, 3]);
}

#[test]
fn u16_elements_round_trip() {
    let chunks: Vec<ChunkInfo<u16>> = vec![
        ChunkInfo::Literal(vec![0x0102, 0xFFFE]),
        ChunkInfo::Reference { index: 1, size: 1 },
    ];
    let mut image = DummyBinaryStream::new(vec![0x00, 0x01, 0xAB, 0xCD]);
    let mut key = DummyBinaryStream::new(vec![]);
    ChunksWriter::new(WIDTHS, &chunks, &mut key).write().unwrap();
    key.rewind().unwrap();
    let mut output = DummyOutputElemStream::new(Vec::<u16>::new());
    ChunksReader::new(WIDTHS, &mut image, &mut key, &mut output).extract_all().unwrap();
    assert_eq!(output.get_all(), &[0x0102, 0xFFFE, 0xABCD]);
}

#[test]
fn empty_reference_extracts_nothing_wherever_it_points() {
    let mut img = DummyInputElemStream::new(vec![1u8, 2, 3]);
    let mut out = DummyOutputElemStream::new(vec![]);
    assert!(extract_reference(&mut img, &mut out, i64::MAX, 0).is_ok());
    assert_eq!(out.get_all(), &[] as &[u8]);
    assert!(extract_reference(&mut img, &mut out, 1, 2).is_ok());
    assert_eq!(out.get_all(), &[2u8, 3]);
    let err = extract_reference(&mut img, &mut out, 2, 2).unwrap_err();
    assert_eq!(err.kind, ErrorKind::UnexpectedEof);
}

#[test]
fn written_records_are_read_back_as_the_same_chunks() {
    let chunks: Vec<ChunkInfo<u8>> = vec![
        ChunkInfo::Literal(vec![]),
        ChunkInfo::Reference { index: 65535, size: 32767 },
        ChunkInfo::Literal(vec![7, 8, 9]),
        ChunkInfo::Reference { index: 0, size: 0 },
    ];
    let mut key = DummyBinaryStream::new(vec![]);
    for c in &chunks {
        write_chunk_info(&mut key, &WIDTHS, c).unwrap();
    }
    key.rewind().unwrap();
    for c in &chunks {
        assert_eq!(read_chunk_info::<u8, _>(&mut key, &WIDTHS).unwrap().as_ref(), Some(c));
    }
    assert_eq!(read_chunk_info::<u8, _>(&mut key, &WIDTHS).unwrap(), None);
}
