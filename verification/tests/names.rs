use kvs::disk::{log_file_name, log_path, parse_log_name, sorted_generation_number_list};

#[test]
fn log_file_name_formats_generations() {
    assert_eq!(log_file_name(0), "0.log");
    assert_eq!(log_file_name(7), "7.log");
    assert_eq!(log_file_name(1234567890), "1234567890.log");
    assert_eq!(log_file_name(u64::MAX), "18446744073709551615.log");
}

#[test]
fn log_path_joins_directory_and_name() {
    assert_eq!(log_path("data", 42), "data/42.log");
}

#[test]
fn parse_log_name_accepts_generation_files() {
    assert_eq!(parse_log_name("7.log"), Some(7));
    assert_eq!(parse_log_name("007.log"), Some(7));
    assert_eq!(parse_log_name("18446744073709551615.log"), Some(u64::MAX));
}

#[test]
fn parse_log_name_skips_stray_files() {
    assert_eq!(parse_log_name("notes.txt"), None);
    assert_eq!(parse_log_name(".log"), None);
    assert_eq!(parse_log_name("7.LOG"), None);
    assert_eq!(parse_log_name("7x.log"), None);
    assert_eq!(parse_log_name(""), None);
    // one past u64::MAX overflows and is skipped like any stray file
    assert_eq!(parse_log_name("18446744073709551616.log"), None);
}

#[test]
fn generation_list_is_sorted_and_unique() {
    let names = vec![
        "3.log".to_owned(),
        "stray".to_owned(),
        "1.log".to_owned(),
        "engine".to_owned(),
        "2.log".to_owned(),
        "02.log".to_owned(),
    ];
    let gens = sorted_generation_number_list(&names);
    assert_eq!(gens, vec![1, 2, 3]);
}

#[test]
fn generation_list_of_no_logs_is_empty() {
    let names = vec!["a".to_owned(), "b.txt".to_owned()];
    assert_eq!(sorted_generation_number_list(&names), Vec::<u64>::new());
}
