//! The byte-stream layer: buffered reading with compaction, buffered
//! writing with idempotent flushes.

use mailr_nal::io::read::{BufReader, BufReaderError};
use mailr_nal::io::stream::{write_all, MemStream, Stream};
use mailr_nal::io::write::BufWriter;

#[test]
fn memstream_round_trip() {
    let mut s = MemStream::new(b"abc".to_vec());
    let mut buf = vec![0u8; 8];
    let n = s.read(&mut buf, 0).unwrap();
    assert_eq!(n, 3);
    assert_eq!(&buf[..3], b"abc");
    assert_eq!(s.read(&mut buf, 0).unwrap(), 0);
    write_all(&mut s, b"hello").unwrap();
    assert_eq!(s.written().as_slice(), b"hello");
}

#[test]
fn read_until_blocks_concatenate() {
    // Blocks handed out in sequence are the exact prefix of the stream.
    let mut s = MemStream::new(b"one\ntwo\nthree\n".to_vec());
    let mut r = BufReader::new(vec![0u8; 8]);
    let mut got = Vec::new();
    for _ in 0..3 {
        let block = r.read_until(&mut s, b'\n').unwrap();
        got.extend_from_slice(&block);
    }
    assert_eq!(got.as_slice(), b"one\ntwo\nthree\n");
    assert_eq!(s.unread(), 0);
}

#[test]
fn read_until_compacts_across_buffer_end() {
    // The second line straddles the physical end of the 8-byte buffer, so
    // the reader must move the filled range to the front and continue.
    let mut s = MemStream::new(b"abcde\nfgh\nxy\n".to_vec());
    let mut r = BufReader::new(vec![0u8; 8]);
    assert_eq!(r.read_until(&mut s, b'\n').unwrap().as_slice(), b"abcde\n");
    assert_eq!(r.read_until(&mut s, b'\n').unwrap().as_slice(), b"fgh\n");
    assert_eq!(r.read_until(&mut s, b'\n').unwrap().as_slice(), b"xy\n");
}

#[test]
fn read_until_full_buffer() {
    // No terminator within the buffer capacity: the drained contents come
    // back as FullBuffer, and the rest is still readable.
    let mut s = MemStream::new(b"abcdefgh\n".to_vec());
    let mut r = BufReader::new(vec![0u8; 4]);
    match r.read_until(&mut s, b'\n') {
        Err(BufReaderError::FullBuffer(block)) => assert_eq!(block.as_slice(), b"abcd"),
        _ => panic!("expected FullBuffer"),
    }
    // still no terminator within capacity: another drained block
    match r.read_until(&mut s, b'\n') {
        Err(BufReaderError::FullBuffer(block)) => assert_eq!(block.as_slice(), b"efgh"),
        _ => panic!("expected FullBuffer"),
    }
    assert_eq!(r.read_until(&mut s, b'\n').unwrap().as_slice(), b"\n");
}

#[test]
fn read_until_eof_returns_rest() {
    let mut s = MemStream::new(b"tail".to_vec());
    let mut r = BufReader::new(vec![0u8; 16]);
    assert_eq!(r.read_until(&mut s, b'\n').unwrap().as_slice(), b"tail");
    assert_eq!(r.read_until(&mut s, b'\n').unwrap().as_slice(), b"");
}

#[test]
fn read_line_strips_terminators() {
    let mut s = MemStream::new(b"with crlf\r\nwith lf\nbare".to_vec());
    let mut r = BufReader::new(vec![0u8; 32]);
    assert_eq!(r.read_line(&mut s).unwrap(), "with crlf");
    assert_eq!(r.read_line(&mut s).unwrap(), "with lf");
    assert_eq!(r.read_line(&mut s).unwrap(), "bare");
}

#[test]
fn read_str_until_rejects_invalid_utf8() {
    let mut s = MemStream::new(vec![0xff, 0xfe, b'\n']);
    let mut r = BufReader::new(vec![0u8; 8]);
    match r.read_str_until(&mut s, b'\n') {
        Err(BufReaderError::DecodeFailed(block)) => {
            assert_eq!(block.as_slice(), &[0xff, 0xfe, b'\n'])
        },
        _ => panic!("expected DecodeFailed"),
    }
}

#[test]
fn writer_batches_and_flushes() {
    let mut s = MemStream::new(Vec::new());
    let mut w = BufWriter::new(vec![0u8; 8]);
    w.write(&mut s, b"ab").unwrap();
    w.write(&mut s, b"cd").unwrap();
    // nothing on the wire yet: both writes fit the buffer
    assert_eq!(s.written().as_slice(), b"");
    w.flush(&mut s).unwrap();
    assert_eq!(s.written().as_slice(), b"abcd");
}

#[test]
fn writer_flush_twice_is_idempotent() {
    // Flushing a second time moves zero further bytes.
    let mut s = MemStream::new(Vec::new());
    let mut w = BufWriter::new(vec![0u8; 8]);
    w.write(&mut s, b"data").unwrap();
    w.flush(&mut s).unwrap();
    let once = s.written().clone();
    w.flush(&mut s).unwrap();
    assert_eq!(s.written().as_slice(), once.as_slice());
}

#[test]
fn writer_bypasses_buffer_for_oversized_writes() {
    let mut s = MemStream::new(Vec::new());
    let mut w = BufWriter::new(vec![0u8; 4]);
    w.write(&mut s, b"xy").unwrap();
    w.write(&mut s, b"0123456789").unwrap();
    // the oversized write forced a flush and went through whole
    assert_eq!(s.written().as_slice(), b"xy0123456789");
}
