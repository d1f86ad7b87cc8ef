use rustcask::logfile::{DecodeResult, LogFileEntry, LogFileIterator, LogIndex, decode_record,
    encode_entry};

fn bincode_record(key: &[u8], value: Option<&[u8]>) -> Vec<u8> {
    let pair: (Vec<u8>, Option<Vec<u8>>) = (key.to_vec(), value.map(|v| v.to_vec()));
    bincode::serialize(&pair).unwrap()
}

fn setup_data_file(entries: Vec<LogFileEntry>) -> (Vec<u8>, Vec<usize>, Vec<usize>) {
    let mut data = Vec::new();
    let mut encoded_lens = Vec::new();
    let mut offsets = Vec::new();

    let mut offset = 0;

    for entry in entries {
        let encoded = bincode::serialize(&(entry.key, entry.value)).unwrap();
        let entry_len = encoded.len();
        encoded_lens.push(encoded.len());
        offsets.push(offset);
        offset += entry_len;
        data.extend_from_slice(&encoded);
    }

    (data, encoded_lens, offsets)
}

#[test]
fn test_log_iter_single_entry() {
    let entry = LogFileEntry {
        key: "key".as_bytes().to_vec(),
        value: Some("value".as_bytes().to_vec()),
    };
    let mut entries = Vec::new();
    entries.push(entry);
    let expected_num_entries = entries.len();

    let (data, entry_lens, entry_offsets) = setup_data_file(entries.clone());
    let mut log_iter = LogFileIterator::new(data);
    let mut data_entries: Vec<(LogFileEntry, LogIndex)> = Vec::new();
    while let Some(x) = log_iter.next() {
        data_entries.push(x);
    }

    assert_eq!(data_entries.len(), expected_num_entries);
    assert_eq!(data_entries[0].0, entries[0]);
    assert_eq!(
        data_entries[0].1,
        LogIndex {
            offset: entry_offsets[0] as u64,
            len: entry_lens[0] as u64
        }
    )
}

#[test]
fn test_log_iter_two_entries() {
    let entries = Vec::from([
        LogFileEntry {
            key: "key".as_bytes().to_vec(),
            value: Some("value".as_bytes().to_vec()),
        },
        LogFileEntry {
            key: "key2".as_bytes().to_vec(),
            value: Some("value2".as_bytes().to_vec()),
        },
    ]);
    let expected_num_entries = entries.len();

    let (data, entry_lens, entry_offsets) = setup_data_file(entries.clone());
    let mut log_iter = LogFileIterator::new(data);
    let mut data_entries: Vec<(LogFileEntry, LogIndex)> = Vec::new();
    while let Some(x) = log_iter.next() {
        data_entries.push(x);
    }

    assert_eq!(data_entries.len(), expected_num_entries);
    for (i, entry) in data_entries.iter().enumerate() {
        assert_eq!(entry.0, entries[i]);
        assert_eq!(
            entry.1,
            LogIndex {
                len: entry_lens[i] as u64,
                offset: entry_offsets[i] as u64
            }
        )
    }
}

#[test]
fn encode_matches_expected_bytes() {
    let entry = LogFileEntry {
        key: b"k".to_vec(),
        value: Some(b"v".to_vec()),
    };
    let encoded = encode_entry(&entry);
    let expected = vec![
        1u8, 0, 0, 0, 0, 0, 0, 0, // key length, little endian
        b'k', // key bytes
        1u8,  // value present
        1u8, 0, 0, 0, 0, 0, 0, 0, // value length, little endian
        b'v', // value bytes
    ];
    assert_eq!(encoded, expected);

    let tombstone = LogFileEntry::create_tombstone_entry(b"k".to_vec());
    let encoded = encode_entry(&tombstone);
    let expected = vec![
        1u8, 0, 0, 0, 0, 0, 0, 0, // key length, little endian
        b'k', // key bytes
        0u8,  // tombstone
    ];
    assert_eq!(encoded, expected);
}

#[test]
fn encode_matches_bincode() {
    let cases: Vec<(&[u8], Option<&[u8]>)> = vec![
        (b"key", Some(b"value")),
        (b"", Some(b"")),
        (b"a-long-key-with-some-length", Some(b"short")),
        (b"k", None),
        (b"", None),
    ];
    for (key, value) in cases {
        let entry = LogFileEntry {
            key: key.to_vec(),
            value: value.map(|v| v.to_vec()),
        };
        assert_eq!(encode_entry(&entry), bincode_record(key, value));
    }
}

#[test]
fn decode_reads_bincode_records() {
    let bytes = bincode_record(b"key1", Some(b"value1"));
    match decode_record(&bytes, 0) {
        DecodeResult::Record(entry, len) => {
            assert_eq!(entry.key, b"key1".to_vec());
            assert_eq!(entry.value, Some(b"value1".to_vec()));
            assert_eq!(len as usize, bytes.len());
        }
        _ => panic!("expected a complete record"),
    }
}

#[test]
fn decode_round_trip() {
    let entry = LogFileEntry {
        key: b"some-key".to_vec(),
        value: Some(b"some-value".to_vec()),
    };
    let encoded = encode_entry(&entry);
    match decode_record(&encoded, 0) {
        DecodeResult::Record(decoded, len) => {
            assert_eq!(decoded, entry);
            assert_eq!(len as usize, encoded.len());
        }
        _ => panic!("expected a complete record"),
    }
}

#[test]
fn decode_reports_incomplete_and_malformed() {
    // Too few bytes for the key length.
    assert!(matches!(
        decode_record(&vec![1u8, 2, 3], 0),
        DecodeResult::Incomplete
    ));
    // A full header whose value tag is neither 0 nor 1.
    let bytes = vec![1u8, 0, 0, 0, 0, 0, 0, 0, b'a', 9u8];
    assert!(matches!(decode_record(&bytes, 0), DecodeResult::Malformed));
}

#[test]
fn reader_position_tracks_reads_and_seeks() {
    let data: Vec<u8> = (0u8..32).collect();
    let mut reader = rustcask::bufio::BufReaderWithPos::new(data);
    assert_eq!(reader.pos(), 0);
    let chunk = reader.read_exact(4);
    assert_eq!(chunk, vec![0u8, 1, 2, 3]);
    assert_eq!(reader.pos(), 4);
    let chunk = reader.read_exact(2);
    assert_eq!(chunk, vec![4u8, 5]);
    assert_eq!(reader.pos(), 6);
    reader.seek(10);
    assert_eq!(reader.pos(), 10);
    let chunk = reader.read_exact(1);
    assert_eq!(chunk, vec![10u8]);
    assert_eq!(reader.pos(), 11);
}
