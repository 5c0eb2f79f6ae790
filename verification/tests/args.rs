use svg2pts::args::{parse_u64, scan_args, ArgError};

fn words(list: &[&str]) -> Vec<String> {
    list.iter().map(|s| s.to_string()).collect()
}

#[test]
fn no_words_gives_defaults() {
    let raw = scan_args(&words(&[])).expect("an empty command line is fine");
    assert!(!raw.help);
    assert!(raw.distance.is_none());
    assert!(raw.accuracy.is_none());
    assert_eq!(raw.points, 0);
    assert!(raw.input.is_none());
    assert!(raw.output.is_none());
}

#[test]
fn options_and_positionals() {
    let raw = scan_args(&words(&["-d", "0.8", "in.svg", "out.txt"])).unwrap();
    assert_eq!(raw.distance.as_deref(), Some("0.8"));
    assert_eq!(raw.input.as_deref(), Some("in.svg"));
    assert_eq!(raw.output.as_deref(), Some("out.txt"));
    assert_eq!(raw.points, 0);
}

#[test]
fn long_flags_and_points() {
    let raw =
        scan_args(&words(&["--points", "500", "--accuracy", "0.001", "--distance", "4.0"]))
            .unwrap();
    assert_eq!(raw.points, 500);
    assert_eq!(raw.accuracy.as_deref(), Some("0.001"));
    assert_eq!(raw.distance.as_deref(), Some("4.0"));
}

#[test]
fn later_occurrence_wins() {
    let raw = scan_args(&words(&["-d", "1.0", "-d", "2.0", "-p", "3", "-p", "44"])).unwrap();
    assert_eq!(raw.distance.as_deref(), Some("2.0"));
    assert_eq!(raw.points, 44);
}

#[test]
fn help_stops_the_scan() {
    let raw = scan_args(&words(&["-h", "-q", "whatever"])).unwrap();
    assert!(raw.help);
    let raw = scan_args(&words(&["in.svg", "--help"])).unwrap();
    assert!(raw.help);
    assert_eq!(raw.input.as_deref(), Some("in.svg"));
}

#[test]
fn missing_value_is_reported() {
    match scan_args(&words(&["in.svg", "--distance"])) {
        Err(ArgError::MissingValue { flag }) => assert_eq!(flag, "--distance"),
        other => panic!("expected a missing-value error, got {:?}", other.is_ok()),
    }
    match scan_args(&words(&["-p"])) {
        Err(ArgError::MissingValue { flag }) => assert_eq!(flag, "-p"),
        other => panic!("expected a missing-value error, got {:?}", other.is_ok()),
    }
}

#[test]
fn bad_point_count_is_reported() {
    match scan_args(&words(&["-p", "12x"])) {
        Err(ArgError::BadPoints { flag, value }) => {
            assert_eq!(flag, "-p");
            assert_eq!(value, "12x");
        }
        other => panic!("expected a bad-points error, got {:?}", other.is_ok()),
    }
    match scan_args(&words(&["--points", "-1"])) {
        Err(ArgError::BadPoints { flag, value }) => {
            assert_eq!(flag, "--points");
            assert_eq!(value, "-1");
        }
        other => panic!("expected a bad-points error, got {:?}", other.is_ok()),
    }
}

#[test]
fn unknown_flag_is_reported() {
    match scan_args(&words(&["-z"])) {
        Err(ArgError::UnknownFlag { flag }) => assert_eq!(flag, "-z"),
        other => panic!("expected an unknown-flag error, got {:?}", other.is_ok()),
    }
    match scan_args(&words(&["-"])) {
        Err(ArgError::UnknownFlag { flag }) => assert_eq!(flag, "-"),
        other => panic!("expected an unknown-flag error, got {:?}", other.is_ok()),
    }
}

#[test]
fn third_free_word_is_rejected() {
    match scan_args(&words(&["a.svg", "b.txt", "c"])) {
        Err(ArgError::ExtraArgument { arg }) => assert_eq!(arg, "c"),
        other => panic!("expected an extra-argument error, got {:?}", other.is_ok()),
    }
}

#[test]
fn flag_value_may_look_like_a_flag() {
    // The word after a value-taking flag is consumed blindly.
    let raw = scan_args(&words(&["-d", "-5"])).unwrap();
    assert_eq!(raw.distance.as_deref(), Some("-5"));
}

#[test]
fn parse_u64_accepts_plain_and_signed_digits() {
    assert_eq!(parse_u64("0"), Some(0));
    assert_eq!(parse_u64("42"), Some(42));
    assert_eq!(parse_u64("+42"), Some(42));
    assert_eq!(parse_u64("007"), Some(7));
    assert_eq!(parse_u64("18446744073709551615"), Some(u64::MAX));
}

#[test]
fn parse_u64_rejects_everything_else() {
    assert_eq!(parse_u64(""), None);
    assert_eq!(parse_u64("+"), None);
    assert_eq!(parse_u64("-1"), None);
    assert_eq!(parse_u64("1 2"), None);
    assert_eq!(parse_u64("12x"), None);
    assert_eq!(parse_u64("4.5"), None);
    assert_eq!(parse_u64("18446744073709551616"), None);
    assert_eq!(parse_u64("99999999999999999999999"), None);
}

#[test]
fn parse_u64_matches_the_standard_reader() {
    let samples = [
        "", "+", "0", "5", "+5", "007", "12x", "x12", " 1", "1 ", "-0",
        "18446744073709551615", "18446744073709551616", "184467440737095516159",
        "+18446744073709551615", "9", "10", "4294967296",
    ];
    for s in samples {
        assert_eq!(parse_u64(s), s.parse::<u64>().ok(), "on {:?}", s);
    }
}
