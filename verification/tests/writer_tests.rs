use rustcask::datafile::DataFile;
use rustcask::keydir::KeyDir;
use rustcask::logfile::LogFileIterator;
use rustcask::utils::data_file_path;
use rustcask::writer::Writer;

fn create_test_writer(keydir: KeyDir) -> Writer {
    Writer::new(false, 1024, Vec::new(), keydir).unwrap()
}

fn file_names(files: &Vec<DataFile>) -> Vec<String> {
    let mut names = Vec::new();
    for f in files {
        names.push(data_file_path(f.generation));
    }
    names
}

fn get_keys_values(files: &Vec<DataFile>, generation: u64) -> Vec<(Vec<u8>, Vec<u8>)> {
    let mut bytes = None;
    for f in files {
        if f.generation == generation {
            bytes = Some(f.bytes.clone());
        }
    }
    let mut iter = LogFileIterator::new(bytes.expect("no data file for the generation"));
    let mut pairs = Vec::new();
    while let Some(x) = iter.next() {
        // Panics if there is a tombstone value
        pairs.push((x.0.key, x.0.value.unwrap()));
    }
    pairs
}

#[test]
fn test_set_happy_path() {
    let keydir = KeyDir::new_empty();
    let mut writer = create_test_writer(keydir);
    let key = "key".as_bytes().to_vec();
    let value = "value".as_bytes().to_vec();

    writer.set(key.clone(), value.clone()).unwrap();

    let log_file_keys = get_keys_values(&writer.data_files, 0);
    assert_eq!(log_file_keys.len(), 1);
    assert_eq!(
        log_file_keys,
        vec![("key".as_bytes().to_vec(), "value".as_bytes().to_vec())]
    );
    let data_files = file_names(&writer.data_files);
    assert!(data_files.contains(&"0.rustcask.data".to_string()));
}

#[test]
fn test_rotate_active_data_file() {
    let keydir = KeyDir::new_empty();

    let mut writer = create_test_writer(keydir);

    writer.write_to_active_data_file(b"test data".to_vec());

    let initial_generation = writer.get_active_generation();

    writer.rotate_active_data_file();

    assert_eq!(writer.get_active_generation(), initial_generation + 1);

    let new_file_names = file_names(&writer.data_files);
    assert!(new_file_names.contains(&data_file_path(writer.get_active_generation())));

    assert_eq!(writer.get_active_data_file_size(), 0);
}

#[test]
fn test_write_to_active_data_file_with_rotate() {
    let keydir = KeyDir::new_empty();

    let mut writer = Writer::new(false, 1, Vec::new(), keydir).unwrap(); // Force rotations
    let initial_generation = writer.get_active_generation();

    let test_bytes: Vec<u8> = "test".to_string().into_bytes();
    let (log_index, generation) = writer.write_to_active_data_file(test_bytes.clone());

    assert_eq!(writer.get_active_generation(), initial_generation + 1);
    assert_eq!(generation, initial_generation); // The bytes should have been written to the original generation data file.
    assert_eq!(log_index.offset, 0);
    assert_eq!(log_index.len, test_bytes.len().try_into().unwrap());
}

#[test]
fn test_write_to_active_data_file_twice_without_rotate() {
    let keydir = KeyDir::new_empty();

    let mut writer = create_test_writer(keydir);
    let initial_generation = writer.get_active_generation();

    let test_bytes: Vec<u8> = "test".to_string().into_bytes();
    let (mut log_index, mut generation) = writer.write_to_active_data_file(test_bytes.clone());

    assert_eq!(writer.get_active_generation(), initial_generation);
    assert_eq!(generation, initial_generation);
    assert_eq!(log_index.offset, 0);
    assert_eq!(log_index.len, test_bytes.len().try_into().unwrap());

    let more_test_bytes = "more-test-bytes".to_string().into_bytes();
    (log_index, generation) = writer.write_to_active_data_file(more_test_bytes.clone());
    assert_eq!(log_index.offset, test_bytes.len() as u64);
    assert_eq!(log_index.len, more_test_bytes.len().try_into().unwrap());
    assert_eq!(writer.get_active_generation(), initial_generation);
    assert_eq!(generation, initial_generation);
}
