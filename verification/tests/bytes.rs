use rtail::tail::bytes::{last_bytes_offset, BytesFromStart, LastBytes};

#[test]
fn test_tail_bytes_from_start_logic() {
    let data = b"Hello, World!";
    let mut t = BytesFromStart::new(8);
    let from = t.feed(data);
    assert_eq!(&data[from..], b"World!");
}

#[test]
fn test_circular_buffer_logic() {
    let data = b"Hello, World!";
    let mut t = LastBytes::new(6);
    t.push_bytes(data);
    assert_eq!(std::str::from_utf8(&t.finish()).unwrap(), "World!");
}

#[test]
fn last_bytes_in_several_blocks() {
    let mut t = LastBytes::new(4);
    t.push_bytes(b"ab");
    t.push_bytes(b"");
    t.push_bytes(b"cdefg");
    t.push_bytes(b"h");
    assert_eq!(t.finish(), b"efgh");
    let mut t = LastBytes::new(10);
    t.push_bytes(b"abc");
    assert_eq!(t.finish(), b"abc");
    let mut t = LastBytes::new(0);
    t.push_bytes(b"abc");
    assert_eq!(t.finish(), b"");
}

#[test]
fn seekable_offset() {
    assert_eq!(last_bytes_offset(100, 10), 90);
    assert_eq!(last_bytes_offset(100, 1000), 0);
    assert_eq!(last_bytes_offset(100, 0), 100);
    assert_eq!(last_bytes_offset(0, 5), 0);
}

#[test]
fn stream_and_file_bytes_agree() {
    let data = b"0123456789abcdef";
    for n in 0..20 {
        let mut t = LastBytes::new(n);
        t.push_bytes(&data[..7]);
        t.push_bytes(&data[7..]);
        let offset = last_bytes_offset(data.len() as u64, n) as usize;
        assert_eq!(t.finish(), &data[offset..]);
    }
}

#[test]
fn bytes_from_start_across_blocks() {
    let mut t = BytesFromStart::new(5);
    assert_eq!(t.feed(b"ab"), 2);
    assert_eq!(t.feed(b"cdef"), 2);
    assert_eq!(t.feed(b"gh"), 0);
    let mut t = BytesFromStart::new(1);
    assert_eq!(t.feed(b"xyz"), 0);
    let mut t = BytesFromStart::new(0);
    assert_eq!(t.feed(b"xyz"), 0);
}

#[test]
fn bytes_from_start_documented_cases() {
    for (start, expected) in [
        (0usize, &b"abc"[..]),
        (1, b"abc"),
        (2, b"bc"),
        (3, b"c"),
        (4, b""),
        (100, b""),
    ] {
        let mut t = BytesFromStart::new(start);
        let from = t.feed(b"abc");
        assert_eq!(&b"abc"[from..], expected);
    }
}
