use kv_store::wal::WAL;
use kv_store::wal_iterator::{decode_record, Decoded, WALIterator};

/// Reads one record at `pos` by the layout of a frame, compares it with what
/// is expected, and returns the position behind it.
fn check_entry(
    bytes: &[u8],
    pos: usize,
    key: &[u8],
    value: Option<&[u8]>,
    timestamp: u128,
    deleted: bool,
) -> usize {
    let mut at = pos;
    let mut len_buffer = [0u8; 8];
    len_buffer.copy_from_slice(&bytes[at..at + 8]);
    at += 8;
    let file_key_len = u64::from_le_bytes(len_buffer) as usize;
    assert_eq!(file_key_len, key.len());

    let file_deleted = bytes[at] != 0;
    at += 1;
    assert_eq!(file_deleted, deleted);

    if deleted {
        assert_eq!(&bytes[at..at + file_key_len], key);
        at += file_key_len;
    } else {
        len_buffer.copy_from_slice(&bytes[at..at + 8]);
        at += 8;
        let file_value_len = u64::from_le_bytes(len_buffer) as usize;
        assert_eq!(file_value_len, value.unwrap().len());
        assert_eq!(&bytes[at..at + file_key_len], key);
        at += file_key_len;
        assert_eq!(&bytes[at..at + file_value_len], value.unwrap());
        at += file_value_len;
    }

    let mut timestamp_buffer = [0u8; 16];
    timestamp_buffer.copy_from_slice(&bytes[at..at + 16]);
    at += 16;
    assert_eq!(u128::from_le_bytes(timestamp_buffer), timestamp);
    at
}

#[test]
fn test_write_one() {
    let timestamp: u128 = 1_700_000_000_000_000;

    let mut wal = WAL::new();
    wal.set(b"Lime", b"Lime Smoothie", timestamp);
    let bytes = wal.flush();

    let end = check_entry(&bytes, 0, b"Lime", Some(b"Lime Smoothie"), timestamp, false);
    assert_eq!(end, bytes.len());
}

#[test]
fn test_write_many() {
    let timestamp: u128 = 1_700_000_000_000_001;

    let entries: Vec<(&[u8], Option<&[u8]>)> = vec![
        (b"Apple", Some(b"Apple Smoothie")),
        (b"Lime", Some(b"Lime Smoothie")),
        (b"Orange", Some(b"Orange Smoothie")),
    ];

    let mut wal = WAL::new();

    for e in entries.iter() {
        wal.set(e.0, e.1.unwrap(), timestamp);
    }
    let bytes = wal.flush();

    let mut pos = 0;
    for e in entries.iter() {
        pos = check_entry(&bytes, pos, e.0, e.1, timestamp, false);
    }
    assert_eq!(pos, bytes.len());
}

#[test]
fn test_write_delete() {
    let timestamp: u128 = 1_700_000_000_000_002;

    let entries: Vec<(&[u8], Option<&[u8]>)> = vec![
        (b"Apple", Some(b"Apple Smoothie")),
        (b"Lime", Some(b"Lime Smoothie")),
        (b"Orange", Some(b"Orange Smoothie")),
    ];

    let mut wal = WAL::new();

    for e in entries.iter() {
        wal.set(e.0, e.1.unwrap(), timestamp);
    }
    for e in entries.iter() {
        wal.delete(e.0, timestamp);
    }

    let bytes = wal.flush();

    let mut pos = 0;
    for e in entries.iter() {
        pos = check_entry(&bytes, pos, e.0, e.1, timestamp, false);
    }
    for e in entries.iter() {
        pos = check_entry(&bytes, pos, e.0, None, timestamp, true);
    }
    assert_eq!(pos, bytes.len());
}

#[test]
fn set_frame_is_byte_exact() {
    let mut wal = WAL::new();
    wal.set(b"k", b"vw", 0x0102);
    let bytes = wal.flush();
    let mut expected: Vec<u8> = Vec::new();
    expected.extend_from_slice(&[1, 0, 0, 0, 0, 0, 0, 0]); // key_len
    expected.push(0); // deleted = 0
    expected.extend_from_slice(&[2, 0, 0, 0, 0, 0, 0, 0]); // value_len
    expected.extend_from_slice(b"k");
    expected.extend_from_slice(b"vw");
    expected.extend_from_slice(&[2, 1, 0, 0, 0, 0, 0, 0, 0, 0, 0, 0, 0, 0, 0, 0]); // timestamp
    assert_eq!(bytes, expected);
    assert_eq!(bytes.len(), 8 + 1 + 8 + 1 + 2 + 16);
}

#[test]
fn delete_frame_is_byte_exact() {
    let mut wal = WAL::new();
    wal.delete(b"key", u128::MAX);
    let bytes = wal.flush();
    let mut expected: Vec<u8> = Vec::new();
    expected.extend_from_slice(&[3, 0, 0, 0, 0, 0, 0, 0]); // key_len
    expected.push(1); // deleted = 1
    expected.extend_from_slice(b"key");
    expected.extend_from_slice(&[0xff; 16]); // timestamp
    assert_eq!(bytes, expected);
    assert_eq!(bytes.len(), 8 + 1 + 3 + 16);
}

#[test]
fn flush_empties_the_buffer() {
    let mut wal = WAL::new();
    assert_eq!(wal.flush(), Vec::<u8>::new());
    wal.set(b"a", b"b", 1);
    let first = wal.flush();
    assert_eq!(first.len(), 35);
    assert_eq!(wal.flush(), Vec::<u8>::new());
    wal.delete(b"a", 2);
    let second = wal.flush();
    assert_eq!(second.len(), 26);
}

#[test]
fn set_record_round_trip() {
    let cases: Vec<(&[u8], &[u8], u128)> = vec![
        (b"Lime", b"Lime Smoothie", 0),
        (b"k", b"", 7),
        (b"", b"value of the empty key", 1 << 100),
        (&[0, 1, 0xff, 0x2e], &[0xff, 0, 0], u128::MAX),
    ];
    for (key, value, timestamp) in cases {
        let mut wal = WAL::new();
        wal.set(key, value, timestamp);
        let bytes = wal.flush();
        match decode_record(&bytes, 0) {
            Decoded::Entry(entry, next) => {
                assert_eq!(entry.key, key);
                assert_eq!(entry.value.as_deref(), Some(value));
                assert_eq!(entry.timestamp, timestamp);
                assert_eq!(entry.deleted, false);
                assert_eq!(next, bytes.len());
            }
            _ => panic!("a whole frame must decode"),
        }
    }
}

#[test]
fn delete_record_round_trip() {
    let cases: Vec<(&[u8], u128)> = vec![(b"Lime", 3), (b"", 0), (&[1, 2, 3], u128::MAX)];
    for (key, timestamp) in cases {
        let mut wal = WAL::new();
        wal.delete(key, timestamp);
        let bytes = wal.flush();
        match decode_record(&bytes, 0) {
            Decoded::Entry(entry, next) => {
                assert_eq!(entry.key, key);
                assert_eq!(entry.value, None);
                assert_eq!(entry.timestamp, timestamp);
                assert_eq!(entry.deleted, true);
                assert_eq!(next, bytes.len());
            }
            _ => panic!("a whole frame must decode"),
        }
    }
}

#[test]
fn decode_at_the_end_is_end() {
    assert!(matches!(decode_record(&[], 0), Decoded::End));
    let mut wal = WAL::new();
    wal.set(b"a", b"b", 1);
    let bytes = wal.flush();
    assert!(matches!(decode_record(&bytes, bytes.len()), Decoded::End));
    assert!(matches!(decode_record(&bytes, bytes.len() + 5), Decoded::End));
}

#[test]
fn decode_every_truncation_of_a_set_is_corrupt() {
    let mut wal = WAL::new();
    wal.set(b"Lime", b"Lime Smoothie", 42);
    let bytes = wal.flush();
    for cut in 1..bytes.len() {
        assert!(matches!(decode_record(&bytes[..cut], 0), Decoded::Corrupt));
    }
}

#[test]
fn decode_every_truncation_of_a_delete_is_corrupt() {
    let mut wal = WAL::new();
    wal.delete(b"Lime", 42);
    let bytes = wal.flush();
    for cut in 1..bytes.len() {
        assert!(matches!(decode_record(&bytes[..cut], 0), Decoded::Corrupt));
    }
}

#[test]
fn decode_length_beyond_the_segment_is_corrupt() {
    // A key length of u64::MAX cannot be met by any segment.
    let mut bytes = vec![0xffu8; 8];
    bytes.push(1);
    bytes.extend_from_slice(&[0u8; 64]);
    assert!(matches!(decode_record(&bytes, 0), Decoded::Corrupt));
    // Nor can a value length of u64::MAX.
    let mut bytes = vec![1u8, 0, 0, 0, 0, 0, 0, 0];
    bytes.push(0);
    bytes.extend_from_slice(&[0xffu8; 8]);
    bytes.extend_from_slice(&[0u8; 64]);
    assert!(matches!(decode_record(&bytes, 0), Decoded::Corrupt));
}

#[test]
fn decode_any_nonzero_flag_is_a_delete() {
    let mut bytes = vec![1u8, 0, 0, 0, 0, 0, 0, 0];
    bytes.push(2);
    bytes.push(b'k');
    bytes.extend_from_slice(&9u128.to_le_bytes());
    match decode_record(&bytes, 0) {
        Decoded::Entry(entry, next) => {
            assert_eq!(entry.key, b"k");
            assert_eq!(entry.value, None);
            assert_eq!(entry.deleted, true);
            assert_eq!(entry.timestamp, 9);
            assert_eq!(next, 26);
        }
        _ => panic!("a whole frame must decode"),
    }
}

#[test]
fn decode_in_the_middle_of_a_segment() {
    let mut wal = WAL::new();
    wal.set(b"Apple", b"Apple Smoothie", 1);
    wal.delete(b"Apple", 2);
    let bytes = wal.flush();
    let first = 8 + 1 + 8 + 5 + 14 + 16;
    match decode_record(&bytes, first) {
        Decoded::Entry(entry, next) => {
            assert_eq!(entry.key, b"Apple");
            assert_eq!(entry.deleted, true);
            assert_eq!(entry.timestamp, 2);
            assert_eq!(next, bytes.len());
        }
        _ => panic!("a whole frame must decode"),
    }
}

#[test]
fn iterator_yields_records_in_file_order() {
    let mut wal = WAL::new();
    wal.set(b"Orange", b"Orange Smoothie", 10);
    wal.delete(b"Apple", 11);
    wal.set(b"Apple", b"", 12);
    let mut records = WALIterator::new(wal.flush());

    let first = records.next().unwrap();
    assert_eq!(first.key, b"Orange");
    assert_eq!(first.value.as_deref(), Some(&b"Orange Smoothie"[..]));
    assert_eq!(first.timestamp, 10);
    assert_eq!(first.deleted, false);

    let second = records.next().unwrap();
    assert_eq!(second.key, b"Apple");
    assert_eq!(second.value, None);
    assert_eq!(second.timestamp, 11);
    assert_eq!(second.deleted, true);

    let third = records.next().unwrap();
    assert_eq!(third.key, b"Apple");
    assert_eq!(third.value.as_deref(), Some(&b""[..]));
    assert_eq!(third.timestamp, 12);
    assert_eq!(third.deleted, false);

    assert!(records.next().is_none());
    assert!(records.next().is_none());
}

#[test]
fn iterator_stops_at_a_truncated_record() {
    let mut wal = WAL::new();
    wal.set(b"Apple", b"Apple Smoothie", 1);
    wal.set(b"Lime", b"Lime Smoothie", 2);
    let mut bytes = wal.flush();
    bytes.pop();
    let mut records = WALIterator::new(bytes);
    let first = records.next().unwrap();
    assert_eq!(first.key, b"Apple");
    assert!(records.next().is_none());
    assert!(records.next().is_none());
}

#[test]
fn iterator_over_an_empty_segment() {
    let mut records = WALIterator::new(Vec::new());
    assert!(records.next().is_none());
}

#[test]
fn wal_into_iter_reads_what_was_appended() {
    let mut wal = WAL::new();
    wal.set(b"a", b"1", 1);
    wal.delete(b"a", 2);
    let mut records = wal.into_iter();
    assert_eq!(records.next().unwrap().timestamp, 1);
    assert_eq!(records.next().unwrap().timestamp, 2);
    assert!(records.next().is_none());
}
