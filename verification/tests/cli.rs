use similar_images::cli::{
    parse_threshold, settings, usage_brief, ArgumentError, DEFAULT_THRESHOLD,
};

fn dirs(names: &[&str]) -> Vec<String> {
    names.iter().map(|n| n.to_string()).collect()
}

#[test]
fn the_default_threshold_is_five() {
    assert_eq!(DEFAULT_THRESHOLD, 5);
}

#[test]
fn no_directories_is_turned_down_with_its_own_code() {
    let settled = settings(None, false, Vec::new());
    assert_eq!(settled.err(), Some(ArgumentError::NoDirectories));
    assert_eq!(ArgumentError::NoDirectories.exit_code(), -2);
}

#[test]
fn no_directories_comes_before_a_bad_threshold() {
    let settled = settings(Some("many"), true, Vec::new());
    assert_eq!(settled.err(), Some(ArgumentError::NoDirectories));
}

#[test]
fn the_exit_codes_differ_and_are_not_zero() {
    assert_eq!(ArgumentError::Unparsable.exit_code(), -1);
    assert_ne!(ArgumentError::Unparsable.exit_code(), ArgumentError::NoDirectories.exit_code());
    assert_ne!(ArgumentError::Unparsable.exit_code(), 0);
    assert_ne!(ArgumentError::NoDirectories.exit_code(), 0);
}

#[test]
fn without_a_threshold_the_default_is_used() {
    let settled = settings(None, false, dirs(&["photos"])).unwrap();
    assert_eq!(settled.threshold, 5);
    assert!(!settled.debug);
    assert_eq!(settled.directories, dirs(&["photos"]));
}

#[test]
fn a_given_threshold_is_used() {
    let settled = settings(Some("12"), true, dirs(&["a", "b"])).unwrap();
    assert_eq!(settled.threshold, 12);
    assert!(settled.debug);
    assert_eq!(settled.directories, dirs(&["a", "b"]));
}

#[test]
fn a_threshold_that_is_no_number_is_turned_down() {
    let settled = settings(Some("five"), false, dirs(&["photos"]));
    assert_eq!(settled.err(), Some(ArgumentError::Unparsable));
}

#[test]
fn thresholds_are_read_as_decimal_numbers() {
    assert_eq!(parse_threshold("0"), Some(0));
    assert_eq!(parse_threshold("5"), Some(5));
    assert_eq!(parse_threshold("007"), Some(7));
    assert_eq!(parse_threshold("+42"), Some(42));
    assert_eq!(parse_threshold("4294967295"), Some(4294967295));
    assert_eq!(parse_threshold("0000000004294967295"), Some(4294967295));
}

#[test]
fn other_texts_are_no_thresholds() {
    assert_eq!(parse_threshold(""), None);
    assert_eq!(parse_threshold("+"), None);
    assert_eq!(parse_threshold("-1"), None);
    assert_eq!(parse_threshold("++1"), None);
    assert_eq!(parse_threshold("1+"), None);
    assert_eq!(parse_threshold(" 5"), None);
    assert_eq!(parse_threshold("5 "), None);
    assert_eq!(parse_threshold("1_000"), None);
    assert_eq!(parse_threshold("0x10"), None);
    assert_eq!(parse_threshold("1.5"), None);
    assert_eq!(parse_threshold("4294967296"), None);
    assert_eq!(parse_threshold("99999999999999999999999999"), None);
    assert_eq!(parse_threshold("١٢"), None);
}

#[test]
fn thresholds_are_read_as_the_standard_library_reads_them() {
    let texts = [
        "0", "1", "+1", "-0", "", "+", "10", "0010", "4294967295", "4294967296", "42949672950",
        "a", "1a", " 1", "1 ", "+-1", "٣",
    ];
    for text in texts {
        assert_eq!(parse_threshold(text), text.parse::<u32>().ok());
    }
}

#[test]
fn the_brief_names_the_program() {
    assert_eq!(usage_brief("dupes"), "Usage: dupes [--threshold=5] dir-1 [..dir-n]");
    assert_eq!(usage_brief(""), "Usage:  [--threshold=5] dir-1 [..dir-n]");
}
