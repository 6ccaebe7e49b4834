//! The reply parser: line round trips, malformed lines, and whole-reply
//! consumption.

use mailr_nal::io::read::BufReader;
use mailr_nal::io::stream::MemStream;
use mailr_nal::smtp::response::{ResponseError, ResponseParser};

fn parser(cap: usize) -> ResponseParser {
    ResponseParser::new(BufReader::new(vec![0u8; cap]))
}

#[test]
fn next_line_parses_final_line() {
    let mut s = MemStream::new(b"250 all good\r\n".to_vec());
    let mut p = parser(64);
    let rl = p.next_line(&mut s).unwrap();
    assert_eq!(rl.code.as_slice(), b"250");
    assert_eq!(rl.text, "all good");
    assert!(!rl.has_next);
}

#[test]
fn next_line_parses_continuation_line() {
    let mut s = MemStream::new(b"250-hello\r\n".to_vec());
    let mut p = parser(64);
    let rl = p.next_line(&mut s).unwrap();
    assert_eq!(rl.code.as_slice(), b"250");
    assert_eq!(rl.text, "hello");
    assert!(rl.has_next);
}

#[test]
fn next_line_empty_remainder() {
    let mut s = MemStream::new(b"354\r\n".to_vec());
    let mut p = parser(64);
    let rl = p.next_line(&mut s).unwrap();
    assert_eq!(rl.code.as_slice(), b"354");
    assert_eq!(rl.text, "");
    assert!(!rl.has_next);
}

#[test]
fn next_line_short_line_is_format_error() {
    let mut s = MemStream::new(b"25\r\n".to_vec());
    let mut p = parser(64);
    assert!(matches!(p.next_line(&mut s), Err(ResponseError::FormatError)));
}

#[test]
fn next_line_bad_separator_is_format_error() {
    let mut s = MemStream::new(b"250*oops\r\n".to_vec());
    let mut p = parser(64);
    assert!(matches!(p.next_line(&mut s), Err(ResponseError::FormatError)));
}

#[test]
fn next_line_invalid_utf8_is_format_error() {
    let mut s = MemStream::new(vec![b'2', b'5', b'0', b' ', 0xff, b'\r', b'\n']);
    let mut p = parser(64);
    assert!(matches!(p.next_line(&mut s), Err(ResponseError::FormatError)));
}

#[test]
fn next_line_overlong_is_nomem() {
    let mut s = MemStream::new(b"250 a very long line indeed\r\n".to_vec());
    let mut p = parser(8);
    assert!(matches!(p.next_line(&mut s), Err(ResponseError::NoMem)));
}

#[test]
fn expect_code_consumes_exactly_its_reply() {
    // Three lines of one reply, then bytes of the next: expect_code reads
    // the three lines and no more.
    let input = b"250-one\r\n250-two\r\n250 three\r\n354 next\r\n".to_vec();
    let mut s = MemStream::new(input);
    let mut p = parser(64);
    p.expect_code(&mut s, b"250").unwrap();
    let rl = p.next_line(&mut s).unwrap();
    assert_eq!(rl.code.as_slice(), b"354");
    assert_eq!(rl.text, "next");
}

#[test]
fn expect_code_reports_mismatching_code() {
    let mut s = MemStream::new(b"535 no thanks\r\n".to_vec());
    let mut p = parser(64);
    match p.expect_code(&mut s, b"250") {
        Err(ResponseError::ReplyCodeError(code)) => assert_eq!(code.as_slice(), b"535"),
        _ => panic!("expected ReplyCodeError"),
    }
}

#[test]
fn expect_code_rejects_mismatch_on_any_line() {
    let mut s = MemStream::new(b"250-one\r\n251 two\r\n".to_vec());
    let mut p = parser(64);
    match p.expect_code(&mut s, b"250") {
        Err(ResponseError::ReplyCodeError(code)) => assert_eq!(code.as_slice(), b"251"),
        _ => panic!("expected ReplyCodeError"),
    }
}

#[test]
fn next_line_accepts_multibyte_text() {
    let mut s = MemStream::new("250 h\u{e9}llo\r\n".as_bytes().to_vec());
    let mut p = parser(64);
    let rl = p.next_line(&mut s).unwrap();
    assert_eq!(rl.code.as_slice(), b"250");
    assert_eq!(rl.text, "h\u{e9}llo");
    assert!(!rl.has_next);
}
