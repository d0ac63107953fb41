use nbody_sim::cli::{classify, parse_step_count, scan_args, ArgItem, CountError, FlagClass, Setting};

fn words(ws: &[&str]) -> Vec<String> {
    ws.iter().map(|w| w.to_string()).collect()
}

#[test]
fn empty_command_line_gives_no_items() {
    assert_eq!(scan_args(&Vec::new()), Vec::<ArgItem>::new());
}

#[test]
fn settings_take_the_next_word() {
    let items = scan_args(&words(&[
        "--input", "a.json", "--dt", "0.01", "--plot", "--integrator", "euler",
    ]));
    assert_eq!(
        items,
        vec![
            ArgItem::Value(Setting::Input, "a.json".to_string()),
            ArgItem::Value(Setting::Dt, "0.01".to_string()),
            ArgItem::Plot,
            ArgItem::Value(Setting::Integrator, "euler".to_string()),
        ]
    );
}

#[test]
fn every_setting_flag_is_known() {
    let all = [
        ("--input", Setting::Input),
        ("--output", Setting::Output),
        ("--dt", Setting::Dt),
        ("--years", Setting::Years),
        ("--softening", Setting::Softening),
        ("--integrator", Setting::Integrator),
        ("--snapshot-every", Setting::SnapshotEvery),
    ];
    for (flag, setting) in all {
        assert_eq!(classify(flag), FlagClass::Takes(setting));
        assert_eq!(setting.flag(), flag);
    }
    assert_eq!(classify("--plot"), FlagClass::Plot);
    assert_eq!(classify("--help"), FlagClass::Help);
    assert_eq!(classify("-h"), FlagClass::Help);
    assert_eq!(classify("--DT"), FlagClass::Unknown);
    assert_eq!(classify("input"), FlagClass::Unknown);
}

#[test]
fn value_word_may_look_like_a_flag() {
    let items = scan_args(&words(&["--output", "--plot", "--years", "3"]));
    assert_eq!(
        items,
        vec![
            ArgItem::Value(Setting::Output, "--plot".to_string()),
            ArgItem::Value(Setting::Years, "3".to_string()),
        ]
    );
}

#[test]
fn missing_value_stops_scanning() {
    let items = scan_args(&words(&["--plot", "--softening"]));
    assert_eq!(items, vec![ArgItem::Plot, ArgItem::MissingValue(Setting::Softening)]);
}

#[test]
fn unknown_word_stops_scanning() {
    let items = scan_args(&words(&["--dt", "1", "--bogus", "--plot", "--help"]));
    assert_eq!(
        items,
        vec![
            ArgItem::Value(Setting::Dt, "1".to_string()),
            ArgItem::Unknown("--bogus".to_string()),
        ]
    );
}

#[test]
fn help_stops_scanning() {
    let items = scan_args(&words(&["-h", "--bogus"]));
    assert_eq!(items, vec![ArgItem::Help]);
    let items = scan_args(&words(&["--years", "2", "--help", "--dt"]));
    assert_eq!(
        items,
        vec![ArgItem::Value(Setting::Years, "2".to_string()), ArgItem::Help]
    );
}

#[test]
fn repeated_settings_are_all_reported_in_order() {
    let items = scan_args(&words(&["--dt", "1", "--dt", "2"]));
    assert_eq!(
        items,
        vec![
            ArgItem::Value(Setting::Dt, "1".to_string()),
            ArgItem::Value(Setting::Dt, "2".to_string()),
        ]
    );
}

#[test]
fn step_counts_parse_as_decimal() {
    assert_eq!(parse_step_count("100"), Ok(100));
    assert_eq!(parse_step_count("+7"), Ok(7));
    assert_eq!(parse_step_count("0"), Ok(0));
    assert_eq!(parse_step_count("007"), Ok(7));
    assert_eq!(parse_step_count(""), Err(CountError::Empty));
    assert_eq!(parse_step_count("+"), Err(CountError::InvalidDigit));
    assert_eq!(parse_step_count("-"), Err(CountError::InvalidDigit));
    assert_eq!(parse_step_count("-1"), Err(CountError::InvalidDigit));
    assert_eq!(parse_step_count("++1"), Err(CountError::InvalidDigit));
    assert_eq!(parse_step_count("1_000"), Err(CountError::InvalidDigit));
    assert_eq!(parse_step_count(" 5"), Err(CountError::InvalidDigit));
    assert_eq!(parse_step_count("5é"), Err(CountError::InvalidDigit));
    assert_eq!(parse_step_count("99999999999999999999999"), Err(CountError::TooLarge));
}

#[test]
fn step_counts_agree_with_std() {
    let words = [
        "", "+", "-", "0", "+0", "-0", "12", "+12", "1+2", "12a", "a12", "١٢", "5é",
        "18446744073709551615", "18446744073709551616", "4294967295", "4294967296",
        "99999999999999999999x", "x99999999999999999999", "000000000000000000000000001",
    ];
    for w in words {
        match (parse_step_count(w), w.parse::<usize>()) {
            (Ok(a), Ok(b)) => assert_eq!(a, b, "{w}"),
            (Err(e), Err(f)) => assert_eq!(e.message(), f.to_string(), "{w}"),
            (a, b) => panic!("{w}: {a:?} vs {b:?}"),
        }
    }
}

#[test]
fn count_error_messages() {
    assert_eq!(CountError::Empty.message(), "cannot parse integer from empty string");
    assert_eq!(CountError::InvalidDigit.message(), "invalid digit found in string");
    assert_eq!(CountError::TooLarge.message(), "number too large to fit in target type");
}

#[test]
fn only_the_last_item_ends_scanning() {
    let cases: Vec<Vec<String>> = vec![
        words(&["--plot", "--plot", "--dt", "1", "-h"]),
        words(&["--dt", "1", "--years"]),
        words(&["--input", "x", "what"]),
        words(&["--plot", "--dt", "2", "--input", "y"]),
    ];
    for ws in cases {
        let items = scan_args(&ws);
        assert!(items.len() <= ws.len());
        for item in items.iter().take(items.len().saturating_sub(1)) {
            assert!(matches!(item, ArgItem::Value(_, _) | ArgItem::Plot));
        }
    }
}

#[test]
fn largest_count_fits() {
    assert_eq!(parse_step_count(&usize::MAX.to_string()), Ok(usize::MAX));
    let too_big = format!("{}0", usize::MAX);
    assert!(parse_step_count(&too_big).is_err());
}
