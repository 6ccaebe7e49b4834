//! Authentication: mechanism bytes, the PLAIN-then-LOGIN order, and the
//! unsupported case.

use mailr_nal::auth::Credential;
use mailr_nal::io::read::BufReader;
use mailr_nal::io::stream::MemStream;
use mailr_nal::io::write::BufWriter;
use mailr_nal::smtp::commands::Quit;
use mailr_nal::smtp::extensions::auth::Auth;
use mailr_nal::smtp::extensions::{EhloInfo, ExtensionSet};
use mailr_nal::smtp::response::ResponseParser;
use mailr_nal::smtp::{ConnectError, SmtpClient};

#[test]
fn auth_plain_encodes_credential() {
    // EHLO advertising AUTH PLAIN LOGIN; credentials ("mock", "123456")
    // produce exactly "AUTH PLAIN AG1vY2sAMTIzNDU2".
    let input = "220 smtp ready\r\n250-hello\r\n250 AUTH PLAIN LOGIN\r\n235 OK\r\n";
    let stream = MemStream::new(input.as_bytes().to_vec());
    let session = SmtpClient::new(stream, vec![0u8; 1024])
        .with_auth(Some(Credential::new("mock", "123456")))
        .connect()
        .expect("should authenticate successfully");
    let s = session.into_stream();
    let expected = "EHLO localhost\r\nAUTH PLAIN AG1vY2sAMTIzNDU2\r\n";
    assert_eq!(s.written().as_slice(), expected.as_bytes());
}

#[test]
fn auth_plain_rejected_falls_back_to_login() {
    // PLAIN gets 535; the client then walks the LOGIN exchange.
    let input = "220 smtp ready\r\n250-hello\r\n250 AUTH PLAIN LOGIN\r\n535 no\r\n334 VXNlcm5hbWU6\r\n334 UGFzc3dvcmQ6\r\n235 OK\r\n";
    let stream = MemStream::new(input.as_bytes().to_vec());
    let session = SmtpClient::new(stream, vec![0u8; 1024])
        .with_auth(Some(Credential::new("mock", "123456")))
        .connect()
        .expect("LOGIN should be accepted after PLAIN is rejected");
    let s = session.into_stream();
    let expected = "EHLO localhost\r\nAUTH PLAIN AG1vY2sAMTIzNDU2\r\nAUTH LOGIN\r\nbW9jaw==\r\nMTIzNDU2\r\n";
    assert_eq!(s.written().as_slice(), expected.as_bytes());
}

#[test]
fn auth_without_plain_skips_plain() {
    // Only LOGIN advertised: no AUTH PLAIN bytes reach the wire.
    let input = "220 smtp ready\r\n250-hello\r\n250 AUTH LOGIN\r\n334 VXNlcm5hbWU6\r\n334 UGFzc3dvcmQ6\r\n235 OK\r\n";
    let stream = MemStream::new(input.as_bytes().to_vec());
    let session = SmtpClient::new(stream, vec![0u8; 1024])
        .with_auth(Some(Credential::new("mock", "123456")))
        .connect()
        .expect("LOGIN alone should succeed");
    let s = session.into_stream();
    let expected = "EHLO localhost\r\nAUTH LOGIN\r\nbW9jaw==\r\nMTIzNDU2\r\n";
    assert_eq!(s.written().as_slice(), expected.as_bytes());
}

#[test]
fn auth_both_rejected_is_auth_failed() {
    let input = "220 smtp ready\r\n250-hello\r\n250 AUTH PLAIN LOGIN\r\n535 no\r\n535 still no\r\n";
    let stream = MemStream::new(input.as_bytes().to_vec());
    let result = SmtpClient::new(stream, vec![0u8; 1024])
        .with_auth(Some(Credential::new("mock", "123456")))
        .connect();
    assert!(matches!(result, Err(ConnectError::AuthFailed)));
}

#[test]
fn auth_unsupported_sends_single_quit() {
    // No supported mechanism advertised: the AUTH strategy refuses without
    // writing anything, and the session's farewell is exactly one QUIT.
    let mut s = MemStream::new(Vec::new());
    let mut w = BufWriter::new(vec![0u8; 64]);
    let mut p = ResponseParser::new(BufReader::new(vec![0u8; 64]));
    let info = EhloInfo { extensions: ExtensionSet::empty() };
    let result = Auth { credential: Credential::new("mock", "123456"), ehlo_info: &info }
        .execute(&mut s, &mut w, &mut p);
    assert!(matches!(result, Err(ConnectError::AuthUnsupported)));
    assert_eq!(s.written().as_slice(), b"");
    Quit.execute(&mut s, &mut w).unwrap();
    assert_eq!(s.written().as_slice(), b"QUIT\r\n");
}

#[test]
fn auth_oversized_credential_is_nomem() {
    let long = "x".repeat(600);
    let input = "220 smtp ready\r\n250-hello\r\n250 AUTH PLAIN\r\n";
    let stream = MemStream::new(input.as_bytes().to_vec());
    let result = SmtpClient::new(stream, vec![0u8; 1024])
        .with_auth(Some(Credential::new(&long, "pw")))
        .connect();
    assert!(matches!(result, Err(ConnectError::NoMem)));
}
