use prophesy::device_log::{load_device_log, parse_log, DeviceLog};
use prophesy::history::{load_data, FileLog, SourceFile};
use prophesy::sample::{charge_state_in, is_float_in, parse_line, ChargeState, Timestamp};
use prophesy::selection::{select_data_files, FoundPath};
use prophesy::text::parse_i64_in;

fn log_of_text(text: &str) -> DeviceLog {
    load_device_log(text.as_bytes())
}

fn reading(log: &DeviceLog, secs: i64) -> Option<(String, ChargeState)> {
    log.get(secs)
        .map(|v| (String::from_utf8(v.value.clone()).unwrap(), v.charge_state))
}

fn found(path: &str, is_file: bool) -> Option<FoundPath> {
    Some(FoundPath { path: path.to_string(), is_file })
}

fn source(path: &str, contents: &str) -> SourceFile {
    SourceFile { path: path.to_string(), contents: contents.as_bytes().to_vec() }
}

fn entries(r: &Vec<FileLog>) -> Vec<(String, Vec<(i64, Vec<u8>, ChargeState)>)> {
    r.iter()
        .map(|e| {
            let samples = e
                .log
                .samples()
                .iter()
                .map(|v| (v.date_time.to_unix(), v.value.clone(), v.charge_state))
                .collect();
            (e.path.clone(), samples)
        })
        .collect()
}

#[test]
fn selection_keeps_device_logs_only() {
    let entries = vec![
        found("/var/lib/upower/history-charge-BAT0.dat", true),
        found("/var/lib/upower/history-rate-generic_id.dat", true),
        None,
        found("/var/lib/upower/subdir.dat", false),
        found("/var/lib/upower/history-time-full-BAT0.dat", true),
    ];
    let r = select_data_files(&entries);
    assert_eq!(
        r,
        vec![
            "/var/lib/upower/history-charge-BAT0.dat".to_string(),
            "/var/lib/upower/history-time-full-BAT0.dat".to_string(),
        ]
    );
}

#[test]
fn selection_looks_at_the_file_name_only() {
    let entries = vec![found("/data/generic/history-charge-BAT1.dat", true)];
    assert_eq!(select_data_files(&entries), vec!["/data/generic/history-charge-BAT1.dat".to_string()]);
}

#[test]
fn selection_of_nothing_is_empty() {
    assert!(select_data_files(&Vec::new()).is_empty());
    assert!(select_data_files(&vec![None, None]).is_empty());
}

#[test]
fn malformed_line_between_two_samples() {
    let log = log_of_text("1700000000\t42.5\tcharging\nbad line\n1700000060\t41.0\tdischarging\textra");
    assert_eq!(log.len(), 2);
    assert_eq!(reading(&log, 1700000000), Some(("42.5".to_string(), ChargeState::Charging)));
    assert_eq!(reading(&log, 1700000060), Some(("41.0".to_string(), ChargeState::Discharging)));
}

#[test]
fn later_duplicate_timestamp_wins() {
    let log = log_of_text("1700000000\t42.5\tcharging\n1700000000\t40.0\tdischarging\n");
    assert_eq!(log.len(), 1);
    assert_eq!(reading(&log, 1700000000), Some(("40.0".to_string(), ChargeState::Discharging)));
}

#[test]
fn duplicate_keeps_first_position() {
    let log = log_of_text("10\t1\tcharging\n20\t2\tcharging\n10\t3\tcharging\n");
    let order: Vec<i64> = log.samples().iter().map(|v| v.date_time.to_unix()).collect();
    assert_eq!(order, vec![10, 20]);
    assert_eq!(reading(&log, 10), Some(("3".to_string(), ChargeState::Charging)));
}

#[test]
fn unknown_token_is_unknown_state() {
    let log = log_of_text("1700000000\t42.5\tidle\n");
    assert_eq!(reading(&log, 1700000000), Some(("42.5".to_string(), ChargeState::Unknown)));
}

#[test]
fn charge_tokens_match_exactly() {
    let cases: Vec<(&str, ChargeState)> = vec![
        ("charging", ChargeState::Charging),
        ("discharging", ChargeState::Discharging),
        ("Charging", ChargeState::Unknown),
        ("charging ", ChargeState::Unknown),
        ("", ChargeState::Unknown),
        ("fully-charged", ChargeState::Unknown),
    ];
    for (tok, want) in cases {
        let b = tok.as_bytes();
        assert_eq!(charge_state_in(b, 0, b.len()), want, "{}", tok);
    }
}

#[test]
fn empty_file_gives_present_empty_entry() {
    let files = vec![source("/var/lib/upower/history-rate-BAT0.dat", "")];
    let r = load_data(true, &files);
    assert_eq!(r.len(), 1);
    assert_eq!(r[0].path, "/var/lib/upower/history-rate-BAT0.dat");
    assert_eq!(r[0].log.len(), 0);
}

#[test]
fn loading_twice_gives_equal_results() {
    let files = vec![
        source("/a/history-charge-BAT0.dat", "100\t50.0\tcharging\n160\t51.5\tcharging\n"),
        source("/a/history-rate-BAT0.dat", "100\t7.25\tdischarging\nx\n"),
    ];
    let first = load_data(true, &files);
    let second = load_data(true, &files);
    assert_eq!(entries(&first), entries(&second));
    assert_eq!(entries(&first)[0].1.len(), 2);
    assert_eq!(files[0].contents, "100\t50.0\tcharging\n160\t51.5\tcharging\n".as_bytes().to_vec());
}

#[test]
fn unavailable_source_gives_empty_result() {
    let files = vec![source("/a/history-charge-BAT0.dat", "100\t50.0\tcharging\n")];
    assert!(load_data(false, &files).is_empty());
    assert!(load_data(false, &Vec::new()).is_empty());
}

#[test]
fn one_entry_per_file_in_order() {
    let files = vec![
        source("/a/one.dat", "1\t1\tcharging\n"),
        source("/a/two.dat", "garbage"),
        source("/a/three.dat", "3\t3\tdischarging"),
    ];
    let r = load_data(true, &files);
    let paths: Vec<&str> = r.iter().map(|e| e.path.as_str()).collect();
    assert_eq!(paths, vec!["/a/one.dat", "/a/two.dat", "/a/three.dat"]);
    assert_eq!(r[0].log.len(), 1);
    assert_eq!(r[1].log.len(), 0);
    assert_eq!(reading(&r[2].log, 3), Some(("3".to_string(), ChargeState::Discharging)));
}

#[test]
fn non_utf8_contents_give_empty_log() {
    let mut bytes = b"1700000000\t42.5\tcharging\n".to_vec();
    bytes.push(0xff);
    assert_eq!(load_device_log(&bytes).len(), 0);
    assert_eq!(parse_log(&bytes).len(), 1);
    let valid = b"1700000000\t42.5\tcharging\n".to_vec();
    assert_eq!(load_device_log(&valid).len(), 1);
}

#[test]
fn non_ascii_extra_field_is_accepted() {
    let log = log_of_text("5\t1.5\tcharging\tgrün\n");
    assert_eq!(reading(&log, 5), Some(("1.5".to_string(), ChargeState::Charging)));
}

#[test]
fn fewer_than_three_fields_are_skipped() {
    let log = log_of_text("1700000000\t42.5\n1700000000\n\n\t\n");
    assert_eq!(log.len(), 0);
    let log = log_of_text("1\t2\t");
    assert_eq!(reading(&log, 1), Some(("2".to_string(), ChargeState::Unknown)));
}

#[test]
fn bad_numeric_fields_skip_only_their_line() {
    let log = log_of_text("abc\t1.0\tcharging\n2\tnot-a-number\tcharging\n3\t3.5\tcharging\n");
    assert_eq!(log.len(), 1);
    assert!(reading(&log, 3).is_some());
}

#[test]
fn timestamps_out_of_range_are_dropped() {
    let log = log_of_text(
        "253402300800\t1\tcharging\n-62135596801\t1\tcharging\n99999999999999999999\t1\tcharging\n",
    );
    assert_eq!(log.len(), 0);
    let log = log_of_text("253402300799\t1\tcharging\n-62135596800\t2\tcharging\n");
    assert_eq!(log.len(), 2);
}

#[test]
fn timestamp_bounds() {
    assert!(Timestamp::from_unix_utc(-62135596800).is_some());
    assert!(Timestamp::from_unix_utc(-62135596801).is_none());
    assert!(Timestamp::from_unix_utc(253402300799).is_some());
    assert!(Timestamp::from_unix_utc(253402300800).is_none());
    assert_eq!(Timestamp::from_unix_utc(0).unwrap().to_unix(), 0);
    assert_eq!(Timestamp::from_unix_utc(1700000000).unwrap().to_unix(), 1700000000);
}

#[test]
fn integer_fields() {
    let cases: Vec<(&str, Option<i64>)> = vec![
        ("0", Some(0)),
        ("1700000000", Some(1700000000)),
        ("+42", Some(42)),
        ("-42", Some(-42)),
        ("007", Some(7)),
        ("9223372036854775807", Some(i64::MAX)),
        ("-9223372036854775808", Some(i64::MIN)),
        ("9223372036854775808", None),
        ("-9223372036854775809", None),
        ("123456789012345678901234567890", None),
        ("", None),
        ("+", None),
        ("-", None),
        ("1a", None),
        (" 1", None),
        ("1.0", None),
    ];
    for (text, want) in cases {
        let b = text.as_bytes();
        assert_eq!(parse_i64_in(b, 0, b.len()), want, "{}", text);
        assert_eq!(text.parse::<i64>().ok(), want, "{}", text);
    }
}

#[test]
fn float_fields_follow_the_standard_grammar() {
    let cases: Vec<&str> = vec![
        "42.5", "41.0", "0", "-1", "+1.5", "5.", ".5", "1e5", "1E-5", "2.5e+10", "inf", "-Infinity",
        "NaN", "nan", "INF", "", ".", "e5", "1.2.3", "1e", "1e+", "abc", " 1", "1 ", "in", "+-1",
        "0x10", "1_000", "infinit", "--1", "1.e3", ".e3",
    ];
    for text in cases {
        let b = text.as_bytes();
        let want = text.parse::<f32>().is_ok();
        assert_eq!(is_float_in(b, 0, b.len()), want, "{}", text);
    }
}

#[test]
fn single_line_parse() {
    let line = b"xx1700000000\t42.5\tcharging\textra";
    let v = parse_line(line, 2, line.len()).unwrap();
    assert_eq!(v.date_time.to_unix(), 1700000000);
    assert_eq!(v.value, b"42.5".to_vec());
    assert_eq!(v.charge_state, ChargeState::Charging);
    assert!(parse_line(line, 0, line.len()).is_none());
}

#[test]
fn empty_text_and_trailing_newline() {
    assert_eq!(parse_log(b"").len(), 0);
    assert_eq!(parse_log(b"\n").len(), 0);
    assert_eq!(parse_log(b"7\t1\tcharging\n").len(), 1);
    assert_eq!(parse_log(b"7\t1\tcharging").len(), 1);
}
