use rustcask::Rustcask;
use rustcask::datafile::DataFile;

/// The total number of bytes across all data files of the store.
fn total_data_size(files: &Vec<DataFile>) -> u64 {
    let mut total: u64 = 0;
    for f in files {
        total += f.bytes.len() as u64;
    }
    total
}

#[test]
fn get_stored_value() {
    let mut store = Rustcask::builder().open(Vec::new()).unwrap();

    let keys = ["key1".as_bytes().to_vec(), "key2".as_bytes().to_vec()];
    let values = ["value1".as_bytes().to_vec(), "value2".as_bytes().to_vec()];

    store.set(keys[0].clone(), values[0].clone()).unwrap();
    store.set(keys[1].clone(), values[1].clone()).unwrap();

    assert_eq!(store.get(&keys[0]).unwrap(), Some(values[0].clone()));

    assert_eq!(store.get(&keys[1]).unwrap(), Some(values[1].clone()));

    let files = store.data_files().clone();
    drop(store);

    // Open from the surviving data files and check persistent data
    let mut store = Rustcask::builder().open(files).unwrap();
    assert_eq!(store.get(&keys[0]).unwrap(), Some(values[0].clone()));
    assert_eq!(store.get(&keys[1]).unwrap(), Some(values[1].clone()));
}

#[test]
fn overwrite_value() {
    let mut store = Rustcask::builder().open(Vec::new()).unwrap();

    let key = "key".as_bytes().to_vec();
    let values = ["value0".as_bytes().to_vec(), "value1".as_bytes().to_vec()];

    store.set(key.clone(), values[0].clone()).unwrap();
    assert_eq!(store.get(&key.clone()).unwrap(), Some(values[0].clone()));

    store.set(key.clone(), values[1].clone()).unwrap();
    assert_eq!(store.get(&key.clone()).unwrap(), Some(values[1].clone()));

    let files = store.data_files().clone();
    drop(store);
    let mut store = Rustcask::builder().open(files).unwrap();
    assert_eq!(store.get(&key.clone()).unwrap(), Some(values[1].clone()));
}

#[test]
fn get_non_existent_value() {
    let mut store = Rustcask::builder().open(Vec::new()).unwrap();

    let key = "key".as_bytes().to_vec();
    assert_eq!(store.get(&key.clone()).unwrap(), None);
}

#[test]
fn remove_key() {
    let mut store = Rustcask::builder().open(Vec::new()).unwrap();

    let keys = ["key1".as_bytes().to_vec(), "key2".as_bytes().to_vec()];
    let values = ["value1".as_bytes().to_vec(), "value2".as_bytes().to_vec()];

    store.set(keys[0].clone(), values[0].clone()).unwrap();
    store.set(keys[1].clone(), values[1].clone()).unwrap();

    store.remove(keys[0].clone()).unwrap();
    assert_eq!(store.get(&keys[0].clone()).unwrap(), None);
    assert_eq!(store.get(&keys[1]).unwrap(), Some(values[1].clone()));

    let files = store.data_files().clone();
    drop(store);
    let mut store = Rustcask::builder().open(files).unwrap();
    assert_eq!(store.get(&keys[0].clone()).unwrap(), None);
    assert_eq!(store.get(&keys[1]).unwrap(), Some(values[1].clone()));
}

#[test]
fn remove_non_existent_key() {
    let mut store = Rustcask::builder().open(Vec::new()).unwrap();

    assert!(matches!(
        store.remove("bad-key".as_bytes().to_vec()),
        Ok(None)
    ));
}

#[test]
fn remove_returns_preceding_get() {
    let mut store = Rustcask::builder().open(Vec::new()).unwrap();

    let key = "key".as_bytes().to_vec();
    let value = "value".as_bytes().to_vec();
    store.set(key.clone(), value.clone()).unwrap();

    let got = store.get(&key).unwrap();
    let removed = store.remove(key.clone()).unwrap();
    assert_eq!(got, Some(value));
    assert_eq!(removed, got);

    // On an absent key both observe nothing.
    let absent = "absent".as_bytes().to_vec();
    let got = store.get(&absent).unwrap();
    let removed = store.remove(absent).unwrap();
    assert_eq!(got, None);
    assert_eq!(removed, None);
}

#[test]
fn test_merge() {
    let mut store = Rustcask::builder()
        .set_sync_mode(true)
        .open(Vec::new())
        .unwrap();

    store
        .set(
            "leader".as_bytes().to_vec(),
            "instance-a".as_bytes().to_vec(),
        )
        .unwrap();
    store
        .set(
            "leader".as_bytes().to_vec(),
            "instance-b".as_bytes().to_vec(),
        )
        .unwrap();

    let rustcask_dir_size = total_data_size(store.data_files());
    store.merge().unwrap();
    let new_rustcask_dir_size = total_data_size(store.data_files());
    assert!(new_rustcask_dir_size < rustcask_dir_size);

    assert_eq!(
        store.get(&"leader".as_bytes().to_vec()).unwrap(),
        Some("instance-b".as_bytes().to_vec())
    );
}

#[test]
fn tests_test_merge_with_rotate() {
    let mut store = Rustcask::builder()
        .set_sync_mode(true)
        .set_max_data_file_size(1)
        .open(Vec::new())
        .unwrap();

    store
        .set(
            "leader".as_bytes().to_vec(),
            "instance-a".as_bytes().to_vec(),
        )
        .unwrap();
    store
        .set(
            "leader".as_bytes().to_vec(),
            "instance-b".as_bytes().to_vec(),
        )
        .unwrap();

    let rustcask_dir_size = total_data_size(store.data_files());
    store.merge().unwrap();
    let new_rustcask_dir_size = total_data_size(store.data_files());
    assert!(new_rustcask_dir_size < rustcask_dir_size);

    assert_eq!(
        store.get(&"leader".as_bytes().to_vec()).unwrap(),
        Some("instance-b".as_bytes().to_vec())
    );
}

#[test]
fn merge_is_idempotent_over_observable_state() {
    let mut store = Rustcask::builder().open(Vec::new()).unwrap();

    store.set(b"a".to_vec(), b"1".to_vec()).unwrap();
    store.set(b"b".to_vec(), b"2".to_vec()).unwrap();
    store.set(b"a".to_vec(), b"3".to_vec()).unwrap();
    store.remove(b"b".to_vec()).unwrap();

    store.merge().unwrap();
    let after_one_a = store.get(&b"a".to_vec()).unwrap();
    let after_one_b = store.get(&b"b".to_vec()).unwrap();
    store.merge().unwrap();
    assert_eq!(store.get(&b"a".to_vec()).unwrap(), after_one_a);
    assert_eq!(store.get(&b"b".to_vec()).unwrap(), after_one_b);
    assert_eq!(after_one_a, Some(b"3".to_vec()));
    assert_eq!(after_one_b, None);
}

#[test]
fn max_size_one_rotates_on_every_write() {
    let mut store = Rustcask::builder()
        .set_max_data_file_size(1)
        .open(Vec::new())
        .unwrap();

    assert_eq!(store.get_active_generation(), 0);
    store.set(b"k1".to_vec(), b"v1".to_vec()).unwrap();
    assert_eq!(store.get_active_generation(), 1);
    store.set(b"k2".to_vec(), b"v2".to_vec()).unwrap();
    assert_eq!(store.get_active_generation(), 2);
    store.remove(b"k1".to_vec()).unwrap();
    assert_eq!(store.get_active_generation(), 3);
    assert_eq!(store.get_active_data_file_size(), 0);
}

#[test]
fn open_keeps_empty_highest_generation_active() {
    let files = vec![
        DataFile {
            generation: 2,
            bytes: Vec::new(),
        },
        DataFile {
            generation: 7,
            bytes: Vec::new(),
        },
    ];
    let mut store = Rustcask::builder().open(files).unwrap();
    assert_eq!(store.get_active_generation(), 7);
    assert_eq!(store.get_active_data_file_size(), 0);
    assert_eq!(store.get(&b"any".to_vec()).unwrap(), None);
}

#[test]
fn open_rejects_corrupt_data_file() {
    // A record announcing a 1-byte key, the key byte, and a value tag that
    // is neither 0 nor 1.
    let bad = vec![1u8, 0, 0, 0, 0, 0, 0, 0, b'a', 7u8];
    let files = vec![DataFile {
        generation: 0,
        bytes: bad,
    }];
    let r = Rustcask::builder().open(files);
    assert!(matches!(
        r,
        Err(rustcask::error::OpenError {
            kind: rustcask::error::OpenErrorKind::Corrupt,
            ..
        })
    ));
}

#[test]
fn open_rejects_truncated_data_file() {
    // A record announcing an 8-byte key, with too few bytes to hold it.
    let bad = vec![8u8, 0, 0, 0, 0, 0, 0, 0, b'a'];
    let files = vec![DataFile {
        generation: 0,
        bytes: bad,
    }];
    let r = Rustcask::builder().open(files);
    assert!(matches!(
        r,
        Err(rustcask::error::OpenError {
            kind: rustcask::error::OpenErrorKind::Corrupt,
            ..
        })
    ));
}

#[test]
fn merge_on_empty_store() {
    let mut store = Rustcask::builder().open(Vec::new()).unwrap();
    assert_eq!(store.get_active_generation(), 0);
    store.merge().unwrap();
    assert_eq!(store.get_active_generation(), 1);
    assert_eq!(store.data_files().len(), 1);
    assert_eq!(store.get(&b"key".to_vec()).unwrap(), None);
}
