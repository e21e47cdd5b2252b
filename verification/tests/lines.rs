use rtail::tail::lines::{items_to_skip, LastLines, LineScanner, LinesFromStart, BLOCK_SIZE};

/// The last `n` lines of `content` read as a seekable file, with the
/// blocks that were read.
fn scan(content: &[u8], n: usize, d: u8) -> (Vec<u8>, Vec<(u64, usize)>) {
    let mut s = LineScanner::new(content.len() as u64, n, d);
    let mut reads = Vec::new();
    while let Some((offset, len)) = s.next_read() {
        reads.push((offset, len));
        let start = offset as usize;
        s.feed(&content[start..start + len]);
    }
    (s.finish(), reads)
}

/// The last `n` lines of `content` read as a stream.
fn stream(content: &[u8], n: usize, d: u8) -> Vec<u8> {
    let mut t = LastLines::new(n, d);
    if !content.is_empty() {
        let body = if content.last() == Some(&d) {
            &content[..content.len() - 1]
        } else {
            content
        };
        for line in body.split(|&b| b == d) {
            t.push_line(line.to_vec());
        }
    }
    t.finish()
}

fn from_start(content: &[u8], start: usize, d: u8) -> Vec<u8> {
    let mut t = LinesFromStart::new(start, d);
    let mut out = Vec::new();
    if !content.is_empty() {
        let body = if content.last() == Some(&d) {
            &content[..content.len() - 1]
        } else {
            content
        };
        for line in body.split(|&b| b == d) {
            out.extend(t.push_line(line));
        }
    }
    out.extend(t.finish());
    out
}

#[test]
fn test_tail_last_line() {
    let content = b"line1\nline2\nline3\n";
    let result = stream(content, 1, b'\n');
    assert_eq!(String::from_utf8(result).unwrap(), "line3\n");
}

#[test]
fn test_tail_all_lines() {
    let content = b"line1\nline2\nline3\n";
    let result = stream(content, 10, b'\n');
    assert_eq!(String::from_utf8(result).unwrap(), "line1\nline2\nline3\n");
}

#[test]
fn test_tail_empty() {
    let result = stream(b"", 5, b'\n');
    assert!(result.is_empty());
}

#[test]
fn test_tail_zero_lines() {
    let result = stream(b"line1\nline2\n", 0, b'\n');
    assert!(result.is_empty());
}

#[test]
fn seekable_last_lines() {
    let content = b"line1\nline2\nline3\n";
    assert_eq!(scan(content, 1, b'\n').0, b"line3\n");
    assert_eq!(scan(content, 2, b'\n').0, b"line2\nline3\n");
    assert_eq!(scan(content, 10, b'\n').0, content);
    assert_eq!(scan(content, 0, b'\n').0, b"");
    assert_eq!(scan(b"", 3, b'\n').0, b"");
}

#[test]
fn seekable_keeps_missing_final_delimiter_missing() {
    assert_eq!(scan(b"a\nb", 1, b'\n').0, b"b");
    assert_eq!(scan(b"a\nb", 5, b'\n').0, b"a\nb");
    assert_eq!(scan(b"\n", 1, b'\n').0, b"\n");
    assert_eq!(scan(b"\n\n\n", 2, b'\n').0, b"\n\n");
}

#[test]
fn stream_always_ends_with_delimiter() {
    assert_eq!(stream(b"a\nb", 1, b'\n'), b"b\n");
    assert_eq!(stream(b"\n", 1, b'\n'), b"\n");
}

#[test]
fn file_and_stream_agree_on_terminated_content() {
    let content = b"one\n\ntwo\nthree\nfour\n";
    for n in 0..8 {
        assert_eq!(scan(content, n, b'\n').0, stream(content, n, b'\n'));
    }
    let unterminated = b"one\ntwo";
    for n in 1..4 {
        let mut expected = scan(unterminated, n, b'\n').0;
        expected.push(b'\n');
        assert_eq!(stream(unterminated, n, b'\n'), expected);
    }
}

#[test]
fn zero_terminated_lines() {
    let content = b"a\0b\nc\0d\0";
    assert_eq!(scan(content, 2, 0).0, b"b\nc\0d\0");
    assert_eq!(stream(content, 1, 0), b"d\0");
}

#[test]
fn seekable_reads_backwards_by_blocks_and_stops_early() {
    let block = BLOCK_SIZE as usize;
    let mut content = vec![b'x'; 3 * block + 100];
    content[3 * block + 50] = b'\n';
    content.push(b'\n');
    let total = content.len() as u64;
    let (out, reads) = scan(&content, 1, b'\n');
    assert_eq!(out.len(), 50);
    assert_eq!(reads, vec![(total - BLOCK_SIZE, block)]);
    let (out, reads) = scan(&content, 2, b'\n');
    assert_eq!(out, content);
    assert_eq!(
        reads,
        vec![
            (total - BLOCK_SIZE, block),
            (total - 2 * BLOCK_SIZE, block),
            (total - 3 * BLOCK_SIZE, block),
            (0, (total - 3 * BLOCK_SIZE) as usize),
        ]
    );
}

#[test]
fn seekable_small_file_is_one_block() {
    let (_, reads) = scan(b"abc\ndef\n", 1, b'\n');
    assert_eq!(reads, vec![(0, 8)]);
}

#[test]
fn lines_from_start() {
    let content = b"l1\nl2\nl3\n";
    assert_eq!(from_start(content, 1, b'\n'), content);
    assert_eq!(from_start(content, 0, b'\n'), content);
    assert_eq!(from_start(content, 2, b'\n'), b"l2\nl3\n");
    assert_eq!(from_start(content, 3, b'\n'), b"l3\n");
    assert_eq!(from_start(content, 4, b'\n'), b"");
    assert_eq!(from_start(b"l1\nl2", 2, b'\n'), b"l2\n");
    assert_eq!(from_start(b"", 1, b'\n'), b"");
}

#[test]
fn skip_counts() {
    assert_eq!(items_to_skip(0), 0);
    assert_eq!(items_to_skip(1), 0);
    assert_eq!(items_to_skip(8), 7);
}

#[test]
fn last_lines_nest_and_reach_the_whole_file() {
    let content = b"a\nbb\n\nccc\nd\n";
    let mut previous: Vec<u8> = Vec::new();
    for n in 0..8 {
        let out = scan(content, n, b'\n').0;
        assert!(content.ends_with(&out));
        assert!(out.ends_with(&previous));
        if n >= 1 {
            assert!(!out.is_empty());
        }
        if n >= 5 {
            assert_eq!(out, content);
        }
        previous = out;
    }
}

#[test]
fn from_start_equals_last_lines() {
    let content = b"l1\nl2\nl3\nl4\n";
    for s in 1..=4 {
        assert_eq!(from_start(content, s, b'\n'), stream(content, 4 - s + 1, b'\n'));
    }
}
