use rustcask::Rustcask;
use rustcask::datafile::DataFile;
use rustcask::logfile::LogFileIterator;
use rustcask::utils::{data_file_path, hint_file_path, list_generations};

/// The file names a directory with the given store files and matching hint
/// files would hold.
fn file_names(files: &Vec<DataFile>) -> Vec<String> {
    let mut names = Vec::new();
    for f in files {
        names.push(data_file_path(f.generation));
    }
    names
}

/// Build empty data files for each generation listed by name, dropping hint
/// files and other names, in ascending generation order.
fn empty_files_for(names: &Vec<String>) -> Vec<DataFile> {
    let mut generations = list_generations(names);
    generations.sort_unstable();
    let mut files = Vec::new();
    for g in generations {
        files.push(DataFile {
            generation: g,
            bytes: Vec::new(),
        });
    }
    files
}

#[test]
fn lib_test_open() {
    let mut names: Vec<String> = Vec::new();
    for number in 1..=5u64 {
        names.push(data_file_path(number));
        names.push(hint_file_path(number));
    }

    let rustcask = Rustcask::builder().open(empty_files_for(&names)).unwrap();

    assert_eq!(rustcask.get_active_generation(), 5);
}

#[test]
fn lib_test_open_on_empty_dir() {
    let rustcask = Rustcask::builder().open(Vec::new()).unwrap();
    assert_eq!(rustcask.get_active_generation(), 0);
}

#[test]
fn rustcask_test_open() {
    let mut names: Vec<String> = Vec::new();
    for number in 1..=5u64 {
        names.push(data_file_path(number));
        names.push(hint_file_path(number));
    }
    let rustcask = Rustcask::builder().open(empty_files_for(&names)).unwrap();
    assert_eq!(rustcask.get_active_generation(), 5);
    assert_eq!(rustcask.data_files().len(), 5);
}

#[test]
fn rustcask_test_open_on_empty_dir() {
    let rustcask = Rustcask::builder().open(Vec::new()).unwrap();
    assert_eq!(rustcask.get_active_generation(), 0);
    assert_eq!(rustcask.data_files().len(), 1);
}

#[test]
fn lib_test_data_file_rotation() {
    // Force log file rotation by setting the max data file size to one byte
    let mut store = Rustcask::builder()
        .set_max_data_file_size(1)
        .open(Vec::new())
        .unwrap();

    let keys = ["key1".as_bytes().to_vec(), "key2".as_bytes().to_vec()];
    let values = ["value1".as_bytes().to_vec(), "value2".as_bytes().to_vec()];

    assert_eq!(store.get_active_generation(), 0);
    assert_eq!(store.get_active_data_file_size(), 0);

    store.set(keys[0].clone(), values[0].clone()).unwrap();

    assert_eq!(store.get_active_generation(), 1);
    assert_eq!(store.get_active_data_file_size(), 0);
    assert_eq!(
        store.get(&keys[0].clone()).unwrap(),
        Some(values[0].clone())
    );

    let data_files = file_names(store.data_files());
    assert!(
        data_files.contains(&String::from("0.rustcask.data"))
            && data_files.contains(&String::from("1.rustcask.data"))
    );
}

#[test]
fn rustcask_test_data_file_rotation() {
    let mut store = Rustcask::builder()
        .set_max_data_file_size(1)
        .open(Vec::new())
        .unwrap();

    let keys = ["key1".as_bytes().to_vec(), "key2".as_bytes().to_vec()];
    let values = ["value1".as_bytes().to_vec(), "value2".as_bytes().to_vec()];

    assert_eq!(store.get_active_generation(), 0);
    assert_eq!(store.get_active_data_file_size(), 0);

    store.set(keys[0].clone(), values[0].clone()).unwrap();

    assert_eq!(store.get_active_generation(), 1);
    assert_eq!(store.get_active_data_file_size(), 0);
    assert_eq!(
        store.get(&keys[0].clone()).unwrap(),
        Some(values[0].clone())
    );

    let data_files = file_names(store.data_files());
    let expected_data_files = vec!["0.rustcask.data", "1.rustcask.data"];
    assert_eq!(data_files, expected_data_files);
}

#[test]
fn test_merge_internal() {
    let mut store = Rustcask::builder().open(Vec::new()).unwrap();

    store
        .set(
            "leader".as_bytes().to_vec(),
            "instance-a".as_bytes().to_vec(),
        )
        .unwrap();
    store
        .set(
            "leader".as_bytes().to_vec(),
            "instance-b".as_bytes().to_vec(),
        )
        .unwrap();

    let expected_data_files = vec!["0.rustcask.data"];
    let data_files = file_names(store.data_files());
    assert_eq!(data_files, expected_data_files);

    let log_file_keys = get_keys(store.data_files(), 0);
    assert_eq!(log_file_keys.len(), 2);
    assert_eq!(
        log_file_keys,
        vec!["leader".as_bytes().to_vec(), "leader".as_bytes().to_vec()]
    );

    store.merge().unwrap();

    let expected_data_files = vec!["1.rustcask.data"];
    let data_files = file_names(store.data_files());
    assert_eq!(data_files, expected_data_files);

    let bytes = bytes_of_generation(store.data_files(), 1);
    let mut log_file_iter = LogFileIterator::new(bytes);

    let mut log_file_entries: Vec<(Vec<u8>, Vec<u8>)> = Vec::new();
    while let Some(x) = log_file_iter.next() {
        log_file_entries.push((x.0.key, x.0.value.unwrap()));
    }

    assert_eq!(log_file_entries.len(), 1);
    assert_eq!(log_file_entries[0].0, "leader".as_bytes().to_vec());
    assert_eq!(log_file_entries[0].1, "instance-b".as_bytes().to_vec());
}

#[test]
fn lib_test_merge_with_rotate() {
    let mut store = Rustcask::builder()
        .set_max_data_file_size(1)
        .open(Vec::new())
        .unwrap();

    store
        .set(
            "leader".as_bytes().to_vec(),
            "instance-a".as_bytes().to_vec(),
        )
        .unwrap();
    store
        .set(
            "last-election-ts".as_bytes().to_vec(),
            "00:00".as_bytes().to_vec(),
        )
        .unwrap();
    store
        .set(
            "leader".as_bytes().to_vec(),
            "instance-b".as_bytes().to_vec(),
        )
        .unwrap();

    check_generations(store.data_files(), vec![0, 1, 2, 3]);
    store.merge().unwrap();
    check_generations(store.data_files(), vec![4, 5, 6]);

    let files = store.data_files().clone();
    drop(store);
    let mut store = Rustcask::builder()
        .set_max_data_file_size(1)
        .open(files)
        .unwrap();
    assert_eq!(
        store.get(&"leader".as_bytes().to_vec()).unwrap(),
        Some("instance-b".as_bytes().to_vec())
    );
    assert_eq!(
        store.get(&"last-election-ts".as_bytes().to_vec()).unwrap(),
        Some("00:00".as_bytes().to_vec())
    );
}

fn check_generations(files: &Vec<DataFile>, expected_generations: Vec<u64>) {
    let mut generations: Vec<u64> = list_generations(&file_names(files));
    generations.sort_unstable();
    assert_eq!(generations, expected_generations);
}

fn bytes_of_generation(files: &Vec<DataFile>, generation: u64) -> Vec<u8> {
    for f in files {
        if f.generation == generation {
            return f.bytes.clone();
        }
    }
    panic!("no data file for the generation");
}

fn get_keys(files: &Vec<DataFile>, generation: u64) -> Vec<Vec<u8>> {
    let bytes = bytes_of_generation(files, generation);
    let mut iter = LogFileIterator::new(bytes);
    let mut keys = Vec::new();
    while let Some(x) = iter.next() {
        keys.push(x.0.key);
    }
    keys
}
