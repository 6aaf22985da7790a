use kv_store::utils::{files_with_ext, has_extension, sort_by_name, SegmentFile};
use kv_store::segment_name::{segment_file_name, wal_extension};

fn file(name: &[u8]) -> SegmentFile {
    SegmentFile { name: name.to_vec(), data: name.to_vec() }
}

fn names(files: &Vec<SegmentFile>) -> Vec<Vec<u8>> {
    files.iter().map(|f| f.name.clone()).collect()
}

#[test]
fn extension_is_what_follows_the_last_dot() {
    assert!(has_extension(b"1700000000000000.wal", b"wal"));
    assert!(has_extension(b"a.b.wal", b"wal"));
    assert!(has_extension(b"x.wal", b"wal"));
    assert!(!has_extension(b"x.wal", b"al"));
    assert!(!has_extension(b"x.wal", b"l"));
    assert!(!has_extension(b"x.wal.bak", b"wal"));
    assert!(!has_extension(b"x.tar.gz", b"tar.gz"));
    assert!(has_extension(b"x.tar.gz", b"gz"));
    assert!(!has_extension(b"x.WAL", b"wal"));
    assert!(!has_extension(b"xwal", b"wal"));
    assert!(!has_extension(b"wal", b"wal"));
    assert!(!has_extension(b"", b"wal"));
    assert!(!has_extension(b"", b""));
}

#[test]
fn extension_needs_a_stem() {
    assert!(!has_extension(b".wal", b"wal"));
    assert!(has_extension(b"..wal", b"wal"));
    assert!(has_extension(b"x.", b""));
    assert!(!has_extension(b".", b""));
    assert!(!has_extension(b"x", b""));
}

#[test]
fn the_segment_extension_is_wal() {
    assert_eq!(wal_extension(), b"wal".to_vec());
}

#[test]
fn files_with_ext_keeps_the_listed_order() {
    let dir = vec![
        file(b"3.wal"),
        file(b"readme.md"),
        file(b"1.wal"),
        file(b"2.wal.tmp"),
        file(b".wal"),
        file(b"2.wal"),
    ];
    let found = files_with_ext(dir, b"wal");
    assert_eq!(names(&found), vec![b"3.wal".to_vec(), b"1.wal".to_vec(), b"2.wal".to_vec()]);
    assert_eq!(found[0].data, b"3.wal".to_vec());
}

#[test]
fn files_with_ext_of_an_empty_directory() {
    assert_eq!(files_with_ext(Vec::new(), b"wal").len(), 0);
    assert_eq!(files_with_ext(vec![file(b"a.txt")], b"wal").len(), 0);
}

#[test]
fn sort_by_name_is_lexicographic_on_bytes() {
    let dir =
        vec![file(b"9.wal"), file(b"10.wal"), file(b"1.wal"), file(b"100.wal"), file(b"2.wal")];
    let sorted = sort_by_name(dir);
    assert_eq!(
        names(&sorted),
        vec![
            b"1.wal".to_vec(),
            b"10.wal".to_vec(),
            b"100.wal".to_vec(),
            b"2.wal".to_vec(),
            b"9.wal".to_vec()
        ]
    );
}

#[test]
fn sort_by_name_matches_creation_order_for_names_of_one_width() {
    let stamps: Vec<u128> = vec![
        1_700_000_000_000_005,
        1_700_000_000_000_001,
        1_700_000_000_000_009,
        1_700_000_000_000_003,
    ];
    let dir: Vec<SegmentFile> = stamps
        .iter()
        .map(|t| SegmentFile { name: segment_file_name(*t), data: Vec::new() })
        .collect();
    let sorted = sort_by_name(dir);
    let mut expected = stamps.clone();
    expected.sort();
    let expected: Vec<Vec<u8>> = expected.iter().map(|t| segment_file_name(*t)).collect();
    assert_eq!(names(&sorted), expected);
}

#[test]
fn sort_by_name_keeps_files_of_one_name_in_listed_order() {
    let dir = vec![
        SegmentFile { name: b"b".to_vec(), data: vec![1] },
        SegmentFile { name: b"a".to_vec(), data: vec![2] },
        SegmentFile { name: b"b".to_vec(), data: vec![3] },
        SegmentFile { name: b"a".to_vec(), data: vec![4] },
    ];
    let sorted = sort_by_name(dir);
    let data: Vec<u8> = sorted.iter().map(|f| f.data[0]).collect();
    assert_eq!(data, vec![2, 4, 1, 3]);
}

#[test]
fn sort_by_name_of_nothing_and_of_one() {
    assert_eq!(sort_by_name(Vec::new()).len(), 0);
    assert_eq!(names(&sort_by_name(vec![file(b"x")])), vec![b"x".to_vec()]);
}

#[test]
fn segment_file_name_is_decimal_timestamp_dot_wal() {
    assert_eq!(segment_file_name(0), b"0.wal".to_vec());
    assert_eq!(segment_file_name(7), b"7.wal".to_vec());
    assert_eq!(segment_file_name(10), b"10.wal".to_vec());
    assert_eq!(segment_file_name(1_700_000_000_123_456), b"1700000000123456.wal".to_vec());
    assert_eq!(
        segment_file_name(u128::MAX),
        b"340282366920938463463374607431768211455.wal".to_vec()
    );
}

#[test]
fn segment_file_name_has_the_segment_extension() {
    for t in [0u128, 9, 10, 99, 12345, u128::MAX] {
        assert!(has_extension(&segment_file_name(t), &wal_extension()));
        assert_eq!(segment_file_name(t), format!("{}.wal", t).into_bytes());
    }
}
