use http_framing::text::{
    append, bytes_eq, copy_range, find_byte, push_decimal, read_decimal, space, split_trimmed,
    split_whitespace, starts_with, trimmed,
};

#[test]
fn whitespace_bytes() {
    for b in [b' ', b'\t', b'\n', 0x0b, 0x0c, b'\r'] {
        assert!(space(b));
    }
    for b in [0u8, 8, 14, 31, 33, b'a', 0x85, 0xa0, 0xff] {
        assert!(!space(b));
    }
}

#[test]
fn trimming() {
    assert_eq!(trimmed(b"  a b \r\n"), b"a b".to_vec());
    assert_eq!(trimmed(b"ab"), b"ab".to_vec());
    assert_eq!(trimmed(b" \t\r\n"), Vec::<u8>::new());
    assert_eq!(trimmed(b""), Vec::<u8>::new());
    assert_eq!(trimmed(b"x "), b"x".to_vec());
    assert_eq!(trimmed(b" x"), b"x".to_vec());
}

#[test]
fn tokens_are_runs_without_whitespace() {
    let expected: Vec<Vec<u8>> = vec![b"GET".to_vec(), b"/x".to_vec(), b"HTTP/1.1".to_vec()];
    assert_eq!(split_whitespace(b"GET /x HTTP/1.1\r\n"), expected);
    assert_eq!(split_whitespace(b"  GET\t\t/x \x0b HTTP/1.1"), expected);
    assert_eq!(split_whitespace(b" \r\n"), Vec::<Vec<u8>>::new());
    assert_eq!(split_whitespace(b""), Vec::<Vec<u8>>::new());
}

#[test]
fn splitting_at_a_separator() {
    let expected: Vec<Vec<u8>> = vec![b"a".to_vec(), b"".to_vec(), b"b c".to_vec(), b"".to_vec()];
    assert_eq!(split_trimmed(b" a ,, b c ,", b','), expected);
    assert_eq!(split_trimmed(b"", b','), vec![Vec::<u8>::new()]);
    assert_eq!(split_trimmed(b"abc", b','), vec![b"abc".to_vec()]);
}

#[test]
fn finding_a_byte() {
    assert_eq!(find_byte(b"Host: a:b", b':'), 4);
    assert_eq!(find_byte(b"Host", b':'), 4);
    assert_eq!(find_byte(b"", b':'), 0);
    assert_eq!(find_byte(b":", b':'), 0);
}

#[test]
fn reading_decimals() {
    assert_eq!(read_decimal(b"0", 65535), Some(0));
    assert_eq!(read_decimal(b"007", 65535), Some(7));
    assert_eq!(read_decimal(b"+5", 65535), Some(5));
    assert_eq!(read_decimal(b"65535", 65535), Some(65535));
    assert_eq!(read_decimal(b"65536", 65535), None);
    assert_eq!(read_decimal(b"4294967295", 0xffff_ffff), Some(4294967295));
    assert_eq!(read_decimal(b"4294967296", 0xffff_ffff), None);
    assert_eq!(read_decimal(b"99999999999999999999999999", 0xffff_ffff), None);
    assert_eq!(read_decimal(b"", 65535), None);
    assert_eq!(read_decimal(b"+", 65535), None);
    assert_eq!(read_decimal(b"-1", 65535), None);
    assert_eq!(read_decimal(b"++1", 65535), None);
    assert_eq!(read_decimal(b"1 ", 65535), None);
    assert_eq!(read_decimal(b"12a", 65535), None);
}

#[test]
fn writing_decimals() {
    for (n, text) in [
        (0u64, "0"),
        (9, "9"),
        (10, "10"),
        (404, "404"),
        (65535, "65535"),
        (18446744073709551615, "18446744073709551615"),
    ] {
        let mut out = b"n=".to_vec();
        push_decimal(&mut out, n);
        assert_eq!(out, format!("n={}", text).into_bytes());
        if n <= 0xffff_ffff {
            assert_eq!(read_decimal(text.as_bytes(), 0xffff_ffff), Some(n as u32));
        }
    }
}

#[test]
fn comparing_and_copying() {
    assert!(bytes_eq(b"abc", b"abc"));
    assert!(!bytes_eq(b"abc", b"abd"));
    assert!(!bytes_eq(b"abc", b"ab"));
    assert!(bytes_eq(b"", b""));
    assert!(starts_with(b"/files/a", b"/files/"));
    assert!(starts_with(b"/files/", b"/files/"));
    assert!(starts_with(b"/x", b""));
    assert!(!starts_with(b"/file", b"/files/"));
    assert!(!starts_with(b"/Files/a", b"/files/"));
    assert_eq!(copy_range(b"abcdef", 2, 4), b"cd".to_vec());
    assert_eq!(copy_range(b"abcdef", 3, 3), Vec::<u8>::new());
    let mut out = b"ab".to_vec();
    append(&mut out, b"cd");
    assert_eq!(out, b"abcd".to_vec());
}
