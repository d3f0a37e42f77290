use kvs::names::{decimal_text, log_path, parse_gen_name, sorted_gen_list};

#[test]
fn decimal_of_generations() {
    assert_eq!(decimal_text(0), "0");
    assert_eq!(decimal_text(7), "7");
    assert_eq!(decimal_text(10), "10");
    assert_eq!(decimal_text(1234567890), "1234567890");
    assert_eq!(decimal_text(u64::MAX), "18446744073709551615");
}

#[test]
fn names_that_are_generations() {
    assert_eq!(parse_gen_name("0"), Some(0));
    assert_eq!(parse_gen_name("5"), Some(5));
    assert_eq!(parse_gen_name("05"), Some(5));
    assert_eq!(parse_gen_name("+5"), Some(5));
    assert_eq!(parse_gen_name("42"), Some(42));
    assert_eq!(parse_gen_name("18446744073709551615"), Some(u64::MAX));
}

#[test]
fn names_that_are_no_generations() {
    for name in ["", "+", "-1", "engine", "1.log", "1 ", " 1", "1_0", "0x1", "++1", "1+", "٣"] {
        assert_eq!(parse_gen_name(name), None);
    }
    assert_eq!(parse_gen_name("18446744073709551616"), None);
    assert_eq!(parse_gen_name("99999999999999999999999"), None);
}

#[test]
fn names_agree_with_the_standard_parser() {
    for name in ["7", "+7", "007", "", "a", "1a", "18446744073709551615", "18446744073709551616"] {
        assert_eq!(parse_gen_name(name), name.parse::<u64>().ok());
    }
}

#[test]
fn generation_names_round_trip() {
    for gen in [0u64, 1, 9, 10, 99, 100, 12345, u64::MAX - 1, u64::MAX] {
        assert_eq!(parse_gen_name(&decimal_text(gen)), Some(gen));
    }
}

#[test]
fn log_paths() {
    assert_eq!(log_path("data", 3), "data/3");
    assert_eq!(log_path("data/", 3), "data/3");
    assert_eq!(log_path("/var/lib/kvs", 120), "/var/lib/kvs/120");
    assert_eq!(log_path("", 8), "8");
    assert_eq!(log_path("/", 8), "/8");
    assert_eq!(log_path(".", 0), "./0");
}

#[test]
fn log_paths_agree_with_path_join() {
    for dir in ["data", "data/", "", "/", "a/b"] {
        let joined = std::path::Path::new(dir).join("17");
        assert_eq!(log_path(dir, 17), joined.to_str().unwrap());
    }
}

#[test]
fn generations_are_listed_in_ascending_order() {
    let names: Vec<String> =
        ["10", "engine", "2", "1", ".log", "33", "3"].iter().map(|s| s.to_string()).collect();
    assert_eq!(sorted_gen_list(&names), vec![1, 2, 3, 10, 33]);
}

#[test]
fn generations_of_an_empty_directory() {
    assert_eq!(sorted_gen_list(&Vec::new()), Vec::<u64>::new());
    assert_eq!(sorted_gen_list(&vec!["engine".to_owned()]), Vec::<u64>::new());
}

#[test]
fn generations_that_two_names_stand_for_are_listed_twice() {
    let names = vec!["5".to_owned(), "05".to_owned(), "4".to_owned()];
    assert_eq!(sorted_gen_list(&names), vec![4, 5, 5]);
}
