use kvs::log_path;
use kvs::parse_generation;
use kvs::sorted_gen_list;
use kvs::LogFileType;

#[test]
fn log_path_is_generation_and_extension() {
    assert_eq!(log_path(1, LogFileType::Blessed), "1.log");
    assert_eq!(log_path(1, LogFileType::Temporary), "1.tmp");
    assert_eq!(log_path(0, LogFileType::Blessed), "0.log");
    assert_eq!(log_path(10, LogFileType::Blessed), "10.log");
    assert_eq!(log_path(9876543210, LogFileType::Temporary), "9876543210.tmp");
    assert_eq!(log_path(u64::MAX, LogFileType::Blessed), "18446744073709551615.log");
}

#[test]
fn parse_generation_reads_log_names() {
    assert_eq!(parse_generation("1.log"), Some(1));
    assert_eq!(parse_generation("0.log"), Some(0));
    assert_eq!(parse_generation("42.log"), Some(42));
    assert_eq!(parse_generation("007.log"), Some(7));
    assert_eq!(parse_generation("18446744073709551615.log"), Some(u64::MAX));
}

#[test]
fn parse_generation_passes_over_other_names() {
    assert_eq!(parse_generation("18446744073709551616.log"), None);
    assert_eq!(parse_generation("99999999999999999999999.log"), None);
    assert_eq!(parse_generation(".log"), None);
    assert_eq!(parse_generation("log"), None);
    assert_eq!(parse_generation(""), None);
    assert_eq!(parse_generation("1.tmp"), None);
    assert_eq!(parse_generation("1.log.log"), None);
    assert_eq!(parse_generation("1.LOG"), None);
    assert_eq!(parse_generation("+1.log"), None);
    assert_eq!(parse_generation("-1.log"), None);
    assert_eq!(parse_generation(" 1.log"), None);
    assert_eq!(parse_generation("1 .log"), None);
    assert_eq!(parse_generation("1_0.log"), None);
    assert_eq!(parse_generation("x.log"), None);
    assert_eq!(parse_generation("1x.log"), None);
    assert_eq!(parse_generation("１.log"), None);
    assert_eq!(parse_generation("1.logé"), None);
    assert_eq!(parse_generation("Cargo.toml"), None);
}

#[test]
fn names_round_trip() {
    for generation in [0u64, 1, 9, 10, 11, 99, 100, 12345, u64::MAX - 1, u64::MAX] {
        assert_eq!(parse_generation(&log_path(generation, LogFileType::Blessed)), Some(generation));
        assert_eq!(parse_generation(&log_path(generation, LogFileType::Temporary)), None);
    }
}

#[test]
fn sorted_gen_list_sorts_and_filters() {
    let names: Vec<String> = ["10.log", "2.log", "notes.txt", "1.tmp", "33.log", "2.log", "x.log"]
        .iter()
        .map(|name| name.to_string())
        .collect();
    assert_eq!(sorted_gen_list(&names), vec![2, 2, 10, 33]);
    assert_eq!(sorted_gen_list(&Vec::new()), Vec::<u64>::new());
}
