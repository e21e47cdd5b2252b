use rtail::cli::{
    config_from_args, parse_number, preprocess_args, ArgSource, CommandLine, CountMode,
    FollowMode,
};

#[test]
fn test_parse_number_suffixes() {
    assert_eq!(parse_number("10").unwrap(), (10, false));
    assert_eq!(parse_number("+5").unwrap(), (5, true));
    assert_eq!(parse_number("-3").unwrap(), (3, false));
    assert_eq!(parse_number("1b").unwrap(), (512, false));
    assert_eq!(parse_number("1kB").unwrap(), (1000, false));
    assert_eq!(parse_number("1K").unwrap(), (1024, false));
    assert_eq!(parse_number("1M").unwrap(), (1_048_576, false));
    assert_eq!(parse_number("1MB").unwrap(), (1_000_000, false));
    assert_eq!(parse_number("1G").unwrap(), (1_073_741_824, false));
}

#[test]
fn parse_number_all_suffixes() {
    assert_eq!(parse_number("3KiB").unwrap(), (3072, false));
    assert_eq!(parse_number("2MiB").unwrap(), (2_097_152, false));
    assert_eq!(parse_number("1GB").unwrap(), (1_000_000_000, false));
    assert_eq!(parse_number("1GiB").unwrap(), (1_073_741_824, false));
    assert_eq!(parse_number("1TB").unwrap(), (1_000_000_000_000, false));
    assert_eq!(parse_number("1T").unwrap(), (1_099_511_627_776, false));
    assert_eq!(parse_number("1TiB").unwrap(), (1_099_511_627_776, false));
}

#[test]
fn parse_number_trims_whitespace() {
    assert_eq!(parse_number("  +7\t").unwrap(), (7, true));
    assert_eq!(parse_number("\u{3000}12\u{a0}").unwrap(), (12, false));
    assert_eq!(parse_number("007").unwrap(), (7, false));
    assert_eq!(parse_number("0").unwrap(), (0, false));
}

#[test]
fn parse_number_errors() {
    assert_eq!(parse_number("").unwrap_err(), "invalid number: ''");
    assert_eq!(parse_number("+").unwrap_err(), "invalid number: ''");
    assert_eq!(parse_number("abc").unwrap_err(), "invalid number: 'abc'");
    assert_eq!(parse_number("+-5").unwrap_err(), "invalid number: '-5'");
    assert_eq!(parse_number("5x").unwrap_err(), "invalid suffix: 'x'");
    assert_eq!(parse_number("5 K").unwrap_err(), "invalid suffix: ' K'");
    assert_eq!(parse_number("1kb").unwrap_err(), "invalid suffix: 'kb'");
    assert_eq!(
        parse_number("99999999999999999999999").unwrap_err(),
        "invalid number: '99999999999999999999999'"
    );
    assert_eq!(
        parse_number("+99999999999999999999999K").unwrap_err(),
        "invalid number: '99999999999999999999999'"
    );
    assert_eq!(
        parse_number("20000000000T").unwrap_err(),
        "number too large: '20000000000T'"
    );
    assert_eq!(
        parse_number("18446744073709551615").unwrap(),
        (usize::MAX, false)
    );
    assert_eq!(
        parse_number("18446744073709551615b").unwrap_err(),
        "number too large: '18446744073709551615b'"
    );
}

fn given(args: &[&str]) -> Vec<Option<String>> {
    args.iter().map(|a| Some(a.to_string())).collect()
}

fn texts(args: &[Option<String>], out: &[ArgSource]) -> Vec<String> {
    out.iter()
        .map(|a| match a {
            ArgSource::Given(i) => args[*i].clone().unwrap_or_else(|| "<opaque>".to_string()),
            ArgSource::Text(t) => t.clone(),
        })
        .collect()
}

#[test]
fn preprocess_expands_legacy_count() {
    let args = given(&["rtail", "-30"]);
    let out = preprocess_args(&args);
    assert_eq!(texts(&args, &out), vec!["rtail", "-n", "30"]);
}

#[test]
fn preprocess_keeps_file_and_flags() {
    let args = given(&["rtail", "-20", "somefile.txt", "-f", "-n", "-5x", "-"]);
    let out = preprocess_args(&args);
    assert_eq!(
        texts(&args, &out),
        vec!["rtail", "-n", "20", "somefile.txt", "-f", "-n", "-5x", "-"]
    );
}

#[test]
fn preprocess_stops_after_separator() {
    let args = given(&["rtail", "-5", "--", "-7"]);
    let out = preprocess_args(&args);
    assert_eq!(texts(&args, &out), vec!["rtail", "-n", "5", "--", "-7"]);
    assert!(matches!(out[4], ArgSource::Given(3)));
}

#[test]
fn preprocess_passes_non_text_arguments() {
    let args = vec![Some("rtail".to_string()), None, Some("-9".to_string())];
    let out = preprocess_args(&args);
    assert_eq!(out.len(), 4);
    assert!(matches!(out[0], ArgSource::Given(0)));
    assert!(matches!(out[1], ArgSource::Given(1)));
    assert_eq!(texts(&args, &out), vec!["rtail", "<opaque>", "-n", "9"]);
    assert!(preprocess_args(&Vec::new()).is_empty());
}

fn command_line() -> CommandLine {
    CommandLine {
        lines: None,
        bytes: None,
        follow: None,
        follow_retry: false,
        retry: false,
        pid: None,
        quiet: false,
        verbose: false,
        zero_terminated: false,
        files: Vec::new(),
    }
}

#[test]
fn config_default_is_last_ten_lines() {
    let config = config_from_args(command_line()).unwrap();
    assert_eq!(config.count_mode, CountMode::Lines(10));
    assert_eq!(config.follow, None);
    assert!(!config.retry);
    assert!(config.files.is_empty());
}

#[test]
fn config_counts() {
    let mut a = command_line();
    a.lines = Some("5".to_string());
    assert_eq!(config_from_args(a).unwrap().count_mode, CountMode::Lines(5));
    let mut a = command_line();
    a.lines = Some("+3".to_string());
    assert_eq!(config_from_args(a).unwrap().count_mode, CountMode::LinesFromStart(3));
    let mut a = command_line();
    a.bytes = Some("100".to_string());
    assert_eq!(config_from_args(a).unwrap().count_mode, CountMode::Bytes(100));
    let mut a = command_line();
    a.bytes = Some("+1".to_string());
    assert_eq!(config_from_args(a).unwrap().count_mode, CountMode::BytesFromStart(1));
    let mut a = command_line();
    a.bytes = Some("2K".to_string());
    assert_eq!(config_from_args(a).unwrap().count_mode, CountMode::Bytes(2048));
}

#[test]
fn config_lines_and_bytes_conflict() {
    let mut a = command_line();
    a.lines = Some("5".to_string());
    a.bytes = Some("10".to_string());
    assert_eq!(
        config_from_args(a).unwrap_err(),
        "cannot use both --lines and --bytes"
    );
}

#[test]
fn config_bad_number_is_refused() {
    let mut a = command_line();
    a.lines = Some("5q".to_string());
    assert_eq!(config_from_args(a).unwrap_err(), "invalid suffix: 'q'");
}

#[test]
fn config_follow_modes() {
    for (mode, expected) in [
        ("descriptor", FollowMode::Descriptor),
        ("d", FollowMode::Descriptor),
        ("name", FollowMode::Name),
        ("n", FollowMode::Name),
    ] {
        let mut a = command_line();
        a.follow = Some(mode.to_string());
        let config = config_from_args(a).unwrap();
        assert_eq!(config.follow, Some(expected));
        assert!(!config.retry);
    }
    let mut a = command_line();
    a.follow = Some("inode".to_string());
    assert_eq!(config_from_args(a).unwrap_err(), "invalid follow mode: 'inode'");
}

#[test]
fn config_follow_retry_means_name_and_retry() {
    let mut a = command_line();
    a.follow_retry = true;
    a.follow = Some("descriptor".to_string());
    let config = config_from_args(a).unwrap();
    assert_eq!(config.follow, Some(FollowMode::Name));
    assert!(config.retry);
    let mut a = command_line();
    a.retry = true;
    assert!(config_from_args(a).unwrap().retry);
}

#[test]
fn config_keeps_other_options() {
    let mut a = command_line();
    a.pid = Some(1234);
    a.quiet = true;
    a.verbose = true;
    a.zero_terminated = true;
    a.files = vec!["file1.txt".to_string(), "file2.txt".to_string()];
    let config = config_from_args(a).unwrap();
    assert_eq!(config.pid, Some(1234));
    assert!(config.quiet && config.verbose && config.zero_terminated);
    assert_eq!(config.files, vec!["file1.txt", "file2.txt"]);
}
