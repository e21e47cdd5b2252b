use rtail::output::{header_text, should_show_headers};
use rtail::run::{
    display_name, follow_targets, input_header, is_stdin, line_delimiter, normalize_files,
    InputHeader,
};

#[test]
fn headers_shown() {
    assert!(!should_show_headers(1, false, false));
    assert!(should_show_headers(2, false, false));
    assert!(should_show_headers(1, false, true));
    assert!(!should_show_headers(3, true, true));
    assert!(!should_show_headers(3, true, false));
}

#[test]
fn header_format() {
    assert_eq!(header_text("a.txt"), "==> a.txt <==");
    assert_eq!(header_text("standard input"), "==> standard input <==");
}

#[test]
fn files_normalized() {
    assert_eq!(normalize_files(&Vec::new()), vec!["-"]);
    let files = vec!["a".to_string(), "-".to_string()];
    assert_eq!(normalize_files(&files), files);
}

#[test]
fn names_and_targets() {
    assert!(is_stdin(&"-".to_string()));
    assert!(!is_stdin(&"--".to_string()));
    assert_eq!(display_name(&"-".to_string()), "standard input");
    assert_eq!(display_name(&"x.log".to_string()), "x.log");
    let files = vec!["a".to_string(), "-".to_string(), "b".to_string()];
    assert_eq!(follow_targets(&files), vec!["a", "b"]);
    assert!(follow_targets(&vec!["-".to_string()]).is_empty());
}

#[test]
fn delimiters() {
    assert_eq!(line_delimiter(false), b'\n');
    assert_eq!(line_delimiter(true), 0);
}

#[test]
fn headers_before_inputs() {
    assert_eq!(input_header(true, 0), InputHeader { blank_line: false, header: true });
    assert_eq!(input_header(true, 2), InputHeader { blank_line: true, header: true });
    assert_eq!(input_header(false, 2), InputHeader { blank_line: false, header: false });
}
