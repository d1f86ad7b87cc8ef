use rustcask::utils::{data_file_path, hint_file_path, is_data_file, list_generations,
    parse_generation_number};

#[test]
fn utils_test_is_data_file() {
    let data_file = String::from("0.rustcask.data");
    assert!(is_data_file(&data_file));

    let hint_file = String::from("0.rustcask.hint");
    assert!(!is_data_file(&hint_file));

    let random_file = String::from("some-lock-file.lock");
    assert!(!is_data_file(&random_file));
}

#[test]
fn rustcask_test_is_data_file() {
    assert!(is_data_file(&String::from("384304.rustcask.data")));
    assert!(!is_data_file(&String::from("384304.rustcask.hint")));
    assert!(!is_data_file(&String::from("some-lock-file.lock")));
    assert!(!is_data_file(&String::from(".rustcask.data")));
    assert!(!is_data_file(&String::from("x7.rustcask.data")));
}

#[test]
fn utils_test_list_generations() {
    let mut names: Vec<String> = Vec::new();
    for number in 0..5u64 {
        names.push(data_file_path(number));
        names.push(hint_file_path(number));
    }

    let mut generations = list_generations(&names);
    generations.sort_unstable();
    let expected_range = 0..5;
    let expected_gen_values: Vec<u64> = expected_range.collect();
    assert_eq!(generations, expected_gen_values);
}

#[test]
fn rustcask_test_list_generations() {
    let mut names: Vec<String> = Vec::new();
    for number in 0..5u64 {
        names.push(format!("{}.rustcask.data", number));
        names.push(format!("{}.rustcask.hint", number));
    }
    let mut generations = list_generations(&names);
    generations.sort_unstable();
    assert_eq!(generations, vec![0, 1, 2, 3, 4]);
}

#[test]
fn utils_test_parse_generation_number() {
    let data_file = String::from("0.rustcask.data");
    assert_eq!(parse_generation_number(&data_file), 0);

    let hint_file = String::from("1000.rustcask.hint");
    assert_eq!(parse_generation_number(&hint_file), 1000);
}

#[test]
fn rustcask_test_parse_generation_number() {
    assert_eq!(parse_generation_number(&String::from("0.rustcask.data")), 0);
    assert_eq!(
        parse_generation_number(&String::from("1000.rustcask.hint")),
        1000
    );
}

#[test]
fn parse_generation_number_at_limits() {
    assert_eq!(
        parse_generation_number(&String::from("18446744073709551615.rustcask.data")),
        u64::MAX
    );
    assert_eq!(parse_generation_number(&String::from("42.anything")), 42);
}

#[test]
fn file_name_construction() {
    assert_eq!(data_file_path(0), "0.rustcask.data");
    assert_eq!(data_file_path(17), "17.rustcask.data");
    assert_eq!(data_file_path(1000), "1000.rustcask.data");
    assert_eq!(
        data_file_path(u64::MAX),
        "18446744073709551615.rustcask.data"
    );
    assert_eq!(hint_file_path(0), "0.rustcask.hint");
    assert_eq!(hint_file_path(1000), "1000.rustcask.hint");
}

#[test]
fn file_names_round_trip() {
    for g in [0u64, 1, 9, 10, 99, 12345, u64::MAX] {
        let name = data_file_path(g);
        assert!(is_data_file(&name));
        assert_eq!(parse_generation_number(&name), g);
    }
}
