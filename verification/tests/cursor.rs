use http_framing::cursor::CHUNK_SIZE;
use http_framing::{ByteCursor, CursorStep};

fn byte(step: CursorStep) -> Option<u8> {
    match step {
        CursorStep::Byte(b) => Some(b),
        _ => None,
    }
}

#[test]
fn new_cursor_asks_for_data() {
    let mut cursor = ByteCursor::new();
    assert!(cursor.is_active());
    assert!(matches!(cursor.poll(), CursorStep::NeedData));
    assert_eq!(CHUNK_SIZE, 1024);
}

#[test]
fn chunk_is_handed_out_byte_by_byte() {
    let mut cursor = ByteCursor::new();
    assert_eq!(cursor.refill(b"abc"), Some(b'a'));
    assert_eq!(byte(cursor.poll()), Some(b'b'));
    assert_eq!(byte(cursor.poll()), Some(b'c'));
    assert!(matches!(cursor.poll(), CursorStep::NeedData));
    assert_eq!(cursor.refill(b"d"), Some(b'd'));
    assert!(matches!(cursor.poll(), CursorStep::NeedData));
}

#[test]
fn empty_chunk_is_the_end() {
    let mut cursor = ByteCursor::new();
    assert_eq!(cursor.refill(b""), None);
    assert!(cursor.is_active());
    assert!(matches!(cursor.poll(), CursorStep::NeedData));
}

#[test]
fn pending_bytes_stay_in_front() {
    let mut cursor = ByteCursor::new();
    assert_eq!(cursor.refill(b"abc"), Some(b'a'));
    assert_eq!(cursor.refill(b"xy"), Some(b'b'));
    assert_eq!(byte(cursor.poll()), Some(b'c'));
    assert_eq!(byte(cursor.poll()), Some(b'x'));
    assert_eq!(byte(cursor.poll()), Some(b'y'));
    assert!(matches!(cursor.poll(), CursorStep::NeedData));
}

#[test]
fn closed_cursor_hands_out_nothing() {
    let mut cursor = ByteCursor::new();
    assert_eq!(cursor.refill(b"abc"), Some(b'a'));
    cursor.close();
    assert!(!cursor.is_active());
    assert!(matches!(cursor.poll(), CursorStep::Closed));
    assert!(matches!(cursor.poll(), CursorStep::Closed));
}
