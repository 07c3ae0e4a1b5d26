use pngfier::chunks::storage::ChunkInfoWidths;
use pngfier::cli::callbacks::{compile, extract};
use pngfier::cli::configs::{select_compile, select_extract, ConfigError, PathWithKey};
use pngfier::cli::streams::{CompileStreams, ExtractStreams};
use pngfier::cli::{ImgSrc, ImgSrcError, OutputFile};
use pngfier::streams::dummy::{DummyBinaryStream, DummyInputElemStream, DummyOutputElemStream};

const WIDTHS: ChunkInfoWidths = ChunkInfoWidths { is_literal: 1, size: 15, index: 16 };

fn compile_then_extract(image: &[u8], data: &[u8]) -> (Vec<u8>, Vec<u8>) {
    let mut streams = [CompileStreams::new(
        DummyInputElemStream::new(image.to_vec()),
        DummyInputElemStream::new(data.to_vec()),
        DummyBinaryStream::new(vec![]),
        DummyBinaryStream::new(vec![]),
    )];
    compile(&WIDTHS, &mut streams).unwrap();
    let key = streams[0].out_key.get_all().to_vec();

    let mut extract_streams = ExtractStreams::new(
        DummyBinaryStream::new(image.to_vec()),
        DummyBinaryStream::new(key.clone()),
        DummyOutputElemStream::new(Vec::<u8>::new()),
    );
    extract(&mut extract_streams).unwrap();
    (key, extract_streams.out_data.get_all().to_vec())
}

#[test]
fn compiled_data_is_extracted_back() {
    let image = b"ABCDABEFABCD";
    let data = b"ABEFABCDZABCDDA";
    let (_, extracted) = compile_then_extract(image, data);
    assert_eq!(extracted, data.to_vec());
}

#[test]
fn compiled_key_starts_with_widths_and_references_the_image() {
    // "ABCDEFGH" is found whole in the image: one reference record
    let (key, extracted) = compile_then_extract(b"XXABCDEFGHYY", b"ABCDEFGH");
    assert_eq!(key, vec![1, 15, 16, 0x00, 0x08, 0x00, 0x02]);
    assert_eq!(extracted, b"ABCDEFGH".to_vec());
}

#[test]
fn short_matches_are_compiled_as_literals() {
    // a match of 4 elements is not longer than a reference record (4 bytes)
    let (key, extracted) = compile_then_extract(b"ABCD", b"ABCD");
    assert_eq!(key, vec![1, 15, 16, 0x80, 0x04, b'A', b'B', b'C', b'D']);
    assert_eq!(extracted, b"ABCD".to_vec());
}

#[test]
fn empty_data_compiles_to_widths_only() {
    let (key, extracted) = compile_then_extract(b"ABCD", b"");
    assert_eq!(key, vec![1, 15, 16]);
    assert!(extracted.is_empty());
}

#[test]
fn data_round_trips_over_varied_inputs() {
    let cases: &[(&[u8], &[u8])] = &[
        (b"", b"HELLO"),
        (b"AAAAAAAA", b"AAAAAAAAAAAAAAAAAAAAA"),
        (b"XYZXYZXYZXYZ", b"ABCXYZXYZXYZABC"),
        (b"the quick brown fox jumps over the lazy dog", b"the lazy dog jumps over the quick brown fox"),
    ];
    for (image, data) in cases {
        let (_, extracted) = compile_then_extract(image, data);
        assert_eq!(extracted, data.to_vec());
    }
}

#[test]
fn img_src_from_args() {
    assert_eq!(ImgSrc::from_args(None, None), Err(ImgSrcError::NotProvided));
    assert_eq!(
        ImgSrc::from_args(Some("q".to_string()), Some("p".to_string())),
        Err(ImgSrcError::Ambiguous)
    );
    assert_eq!(ImgSrc::from_args(None, Some("p".to_string())), Ok(ImgSrc::Path("p".to_string())));
    assert_eq!(ImgSrc::from_args(Some("q".to_string()), None), Ok(ImgSrc::Query("q".to_string())));
}

#[test]
fn compile_configuration_is_selected() {
    let path = ImgSrc::Path("in.png".to_string());
    let query = ImgSrc::Query("cats".to_string());
    let key = Some("out.key".to_string());
    assert_eq!(select_compile(&query, &key), Err(ConfigError::QueryUnsupported));
    assert_eq!(select_compile(&query, &None), Err(ConfigError::QueryUnsupported));
    assert_eq!(select_compile(&path, &None), Err(ConfigError::KeyFileMandatory));
    assert_eq!(
        select_compile(&path, &key),
        Ok(PathWithKey { in_img_path: "in.png".to_string(), out_key_path: "out.key".to_string() })
    );
    assert_eq!(ConfigError::QueryUnsupported.message(), "Query-based compiling is not supported yet.");
    assert_eq!(ConfigError::KeyFileMandatory.message(), "Key file is mandatory for now.");
}

#[test]
fn extract_configuration_is_selected() {
    assert_eq!(select_extract(&None), Err(ConfigError::KeyFileMandatory));
    assert_eq!(select_extract(&Some("k".to_string())), Ok("k".to_string()));
}

#[test]
fn output_file_path_str() {
    let file = OutputFile { path: "/tmp/pngfier_output_1_0".to_string() };
    assert_eq!(file.path_str(), "/tmp/pngfier_output_1_0");
}

#[test]
fn compiling_leaves_the_output_image_as_it_was() {
    let image = b"ABCDABEFABCD".to_vec();
    let mut streams = [CompileStreams::new(
        DummyInputElemStream::new(image.clone()),
        DummyInputElemStream::new(b"CDAB".to_vec()),
        DummyBinaryStream::new(image.clone()),
        DummyBinaryStream::new(vec![]),
    )];
    compile(&WIDTHS, &mut streams).unwrap();
    assert_eq!(streams[0].out_img.get_all(), image.as_slice());

    // extracting over the untouched output image gives the data back
    let key = streams[0].out_key.get_all().to_vec();
    let mut extract_streams = ExtractStreams::new(
        DummyBinaryStream::new(streams[0].out_img.get_all().to_vec()),
        DummyBinaryStream::new(key),
        DummyOutputElemStream::new(Vec::<u8>::new()),
    );
    extract(&mut extract_streams).unwrap();
    assert_eq!(extract_streams.out_data.get_all(), b"CDAB");
}
