use rustcask::keydir::{KeyDir, populate_keydir_with_data_file};
use rustcask::logfile::{LogFileEntry, LogIndex};

fn encode_with_bincode(entry: &LogFileEntry) -> Vec<u8> {
    let pair: (Vec<u8>, Option<Vec<u8>>) = (entry.key.clone(), entry.value.clone());
    bincode::serialize(&pair).unwrap()
}

#[test]
fn keydir_test_populate_keydir_with_data_file() {
    let generation = 0;

    let key = "key".as_bytes().to_vec();
    let value = "value".as_bytes().to_vec();

    let data_file_entry = LogFileEntry {
        key: key.clone(),
        value: Some(value.clone()),
    };

    let encoded = encode_with_bincode(&data_file_entry);
    let data_file: Vec<u8> = encoded.clone();

    let mut keydir = KeyDir::new_empty();
    populate_keydir_with_data_file(&data_file, &mut keydir, generation);

    let entry = keydir.get(&key);
    assert!(matches!(entry, Some(_)));

    let entry = entry.unwrap();

    assert_eq!(entry.data_file_gen, generation);
    assert_eq!(
        entry.index,
        LogIndex {
            offset: 0,
            len: encoded.len() as u64,
        }
    );
}

#[test]
fn rustcask_test_populate_keydir_with_data_file() {
    let key = "key".as_bytes().to_vec();
    let value = "value".as_bytes().to_vec();

    let data_file_entry = LogFileEntry {
        key,
        value: Some(value),
    };

    let encoded = encode_with_bincode(&data_file_entry);

    let mut keydir = KeyDir::new_empty();
    populate_keydir_with_data_file(&encoded, &mut keydir, 0);
    assert!(keydir.get(&data_file_entry.key).is_some());
}

#[test]
fn populate_applies_tombstones() {
    let key = b"key".to_vec();
    let mut data: Vec<u8> = Vec::new();
    data.extend_from_slice(&encode_with_bincode(&LogFileEntry {
        key: key.clone(),
        value: Some(b"value".to_vec()),
    }));
    data.extend_from_slice(&encode_with_bincode(&LogFileEntry {
        key: key.clone(),
        value: None,
    }));

    let mut keydir = KeyDir::new_empty();
    populate_keydir_with_data_file(&data, &mut keydir, 3);
    assert!(keydir.get(&key).is_none());
    assert_eq!(keydir.len(), 0);
}

#[test]
fn keydir_set_get_remove() {
    let mut keydir = KeyDir::new_empty();
    let key = b"key".to_vec();

    assert!(keydir.get(&key).is_none());

    keydir.set(key.clone(), 4, LogIndex { offset: 10, len: 20 });
    let entry = keydir.get(&key).unwrap();
    assert_eq!(entry.data_file_gen, 4);
    assert_eq!(entry.index, LogIndex { offset: 10, len: 20 });

    keydir.set(key.clone(), 5, LogIndex { offset: 0, len: 20 });
    let entry = keydir.get(&key).unwrap();
    assert_eq!(entry.data_file_gen, 5);
    assert_eq!(keydir.len(), 1);

    let removed = keydir.remove(&key).unwrap();
    assert_eq!(removed.data_file_gen, 5);
    assert!(keydir.get(&key).is_none());
    assert!(keydir.remove(&key).is_none());
}
