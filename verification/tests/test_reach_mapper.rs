use pngfier::chunks::mapping::reach::{MatchInfo, MatrixBasedReachMapper, ReachMapper};
use pngfier::chunks::mapping::reach_utils::{get_path_starts_vec, init_img_matrix, walk_paths, Path};
use pngfier::elems::RuntimeElemIndexesMatrix;
use pngfier::streams::dummy::DummyInputElemStream;

// image: A B C D A B E F A B C D   (0..12)
// data:  A B E F A B C D Z A B C D D A  (0..15)
const IMAGE: &[u8] = b"ABCDABEFABCD";
const DATA: &[u8] = b"ABEFABCDZABCDDA";

#[test]
fn best_match_reaches_furthest() {
    let mut image = DummyInputElemStream::new(IMAGE.to_vec());
    let mut data = DummyInputElemStream::new(DATA.to_vec());
    let mut matrix = RuntimeElemIndexesMatrix::<u8, i64>::new();
    let reach = MatrixBasedReachMapper::new(&mut image, &mut data, &mut matrix).unwrap();

    assert_eq!(reach.len().unwrap(), 15);
    // "ABEFABCD" occurs from image position 4
    assert_eq!(reach.get(0).unwrap(), MatchInfo { reach: 8, src_start: 4 });
    // "Z" occurs nowhere: no match, no progress
    assert_eq!(reach.get(8).unwrap(), MatchInfo { reach: 8, src_start: 8 });
    // "ABCD" occurs from 0 and from 8
    let m = reach.get(9).unwrap();
    assert_eq!(m.reach, 13);
    assert!(m.src_start == 0 || m.src_start == 8);
    // "DA" occurs from 3
    assert_eq!(reach.get(13).unwrap(), MatchInfo { reach: 15, src_start: 3 });
    // the last element never starts a pair
    assert_eq!(reach.get(14).unwrap(), MatchInfo { reach: 14, src_start: 14 });
}

#[test]
fn get_elems_reads_data() {
    let mut image = DummyInputElemStream::new(IMAGE.to_vec());
    let mut data = DummyInputElemStream::new(DATA.to_vec());
    let mut matrix = RuntimeElemIndexesMatrix::<u8, i64>::new();
    let mut reach = MatrixBasedReachMapper::new(&mut image, &mut data, &mut matrix).unwrap();
    assert_eq!(reach.get_elems(8, 3).unwrap(), b"ZAB".to_vec());
    assert_eq!(reach.get_elems(0, 0).unwrap(), Vec::<u8>::new());
}

#[test]
fn walk_paths_finds_longest_path() {
    let mut image = DummyInputElemStream::new(IMAGE.to_vec());
    let mut matrix = RuntimeElemIndexesMatrix::<u8, i64>::new();
    init_img_matrix(&mut image, &mut matrix).unwrap();
    let mut data = DummyInputElemStream::new(DATA.to_vec());

    let paths = get_path_starts_vec(&mut data, &matrix, 0).unwrap();
    assert_eq!(walk_paths(&mut data, &matrix, 0, paths).unwrap(), Some(Path { len: 8, src_start: 4 }));

    let paths = get_path_starts_vec(&mut data, &matrix, 8).unwrap();
    assert_eq!(walk_paths(&mut data, &matrix, 8, paths).unwrap(), None);
}
