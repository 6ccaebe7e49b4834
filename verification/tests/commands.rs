//! The command layer: exact wire bytes, dot-stuffing, and EHLO capability
//! parsing.

use mailr_nal::io::read::BufReader;
use mailr_nal::io::stream::MemStream;
use mailr_nal::io::write::BufWriter;
use mailr_nal::message::{Mail, Mailbox};
use mailr_nal::smtp::commands::{Data, Ehlo, MailFrom, Quit, RcptTo, write_sanitized};
use mailr_nal::smtp::response::ResponseParser;
use mailr_nal::smtp::ClientId;
use mailr_nal::smtp::{ConnectError, SendError};

fn rig(input: &[u8], cap: usize) -> (MemStream, BufWriter, ResponseParser) {
    (
        MemStream::new(input.to_vec()),
        BufWriter::new(vec![0u8; cap]),
        ResponseParser::new(BufReader::new(vec![0u8; cap])),
    )
}

#[test]
fn mail_from_wire() {
    let (mut s, mut w, mut p) = rig(b"250 OK\r\n", 64);
    MailFrom(Some("Smith@bar.com")).execute(&mut s, &mut w, &mut p).unwrap();
    assert_eq!(s.written().as_slice(), b"MAIL FROM:<Smith@bar.com>\r\n");
}

#[test]
fn mail_from_empty_sender() {
    let (mut s, mut w, mut p) = rig(b"250 OK\r\n", 64);
    MailFrom(None).execute(&mut s, &mut w, &mut p).unwrap();
    assert_eq!(s.written().as_slice(), b"MAIL FROM:<>\r\n");
}

#[test]
fn mail_from_rejection_is_send_failed() {
    let (mut s, mut w, mut p) = rig(b"550 no\r\n", 64);
    assert!(matches!(
        MailFrom(None).execute(&mut s, &mut w, &mut p),
        Err(SendError::SendFailed)
    ));
}

#[test]
fn rcpt_to_one_line_per_receiver() {
    let (mut s, mut w, mut p) = rig(b"250 a\r\n250 b\r\n", 64);
    RcptTo(vec!["a@x.org", "b@y.org"]).execute(&mut s, &mut w, &mut p).unwrap();
    assert_eq!(
        s.written().as_slice(),
        b"RCPT TO:<a@x.org>\r\nRCPT TO:<b@y.org>\r\n".as_slice()
    );
}

#[test]
fn quit_wire() {
    let (mut s, mut w, _p) = rig(b"", 64);
    Quit.execute(&mut s, &mut w).unwrap();
    assert_eq!(s.written().as_slice(), b"QUIT\r\n");
}

#[test]
fn data_raw_message_appends_crlf_and_sentinel() {
    let (mut s, mut w, mut p) = rig(b"354 go\r\n250 queued\r\n", 64);
    Data("hello").execute(&mut s, &mut w, &mut p).unwrap();
    assert_eq!(s.written().as_slice(), b"DATA\r\nhello\r\n.\r\n".as_slice());
}

#[test]
fn data_stuffs_leading_dots_after_crlf() {
    // Every "\r\n." in the body is transmitted as "\r\n.."; the terminating
    // ".\r\n" stays unambiguous.
    let (mut s, mut w, mut p) = rig(b"354 go\r\n250 queued\r\n", 64);
    Data(".\r\n..x\r\n.\r\n").execute(&mut s, &mut w, &mut p).unwrap();
    assert_eq!(
        s.written().as_slice(),
        b"DATA\r\n.\r\n...x\r\n..\r\n.\r\n".as_slice()
    );
}

#[test]
fn write_sanitized_doubles_dots() {
    let mut s = MemStream::new(Vec::new());
    let mut w = BufWriter::new(vec![0u8; 16]);
    write_sanitized(&mut w, &mut s, b"ab\r\n.cd\r\n.").unwrap();
    w.flush(&mut s).unwrap();
    assert_eq!(s.written().as_slice(), b"ab\r\n..cd\r\n..".as_slice());
}

#[test]
fn data_structured_mail_headers_and_body() {
    let (mut s, mut w, mut p) = rig(b"354 go\r\n250 queued\r\n", 256);
    let to = vec![Mailbox::new("Jones@foo.com"), Mailbox::new("John@foo.com")];
    let cc = vec![Mailbox::new("Green@foo.com")];
    let bcc = vec![Mailbox::new("Brown@foo.com")];
    let mail = Mail::new()
        .from(Mailbox::with_name("Smith", "Smith@bar.com"))
        .to(to)
        .cc(cc)
        .bcc(bcc)
        .subject(Some("Test mail"))
        .body(Some("Blah blah blah...\r\n..etc. etc. etc."));
    Data(mail).execute(&mut s, &mut w, &mut p).unwrap();
    let expected = "DATA\r\nFrom:Smith<Smith@bar.com>\r\nTo:<Jones@foo.com>,<John@foo.com>\r\nCc:<Green@foo.com>\r\nSubject:Test mail\r\n\r\nBlah blah blah...\r\n...etc. etc. etc.\r\n.\r\n";
    assert_eq!(s.written().as_slice(), expected.as_bytes());
    // the blind receiver appears nowhere in the transmitted message
    let written = s.written().clone();
    assert!(!written
        .windows(b"Brown".len())
        .any(|win| win == b"Brown"));
}

#[test]
fn ehlo_collects_auth_capabilities() {
    let (mut s, mut w, mut p) = rig(b"250-hello\r\n250 AUTH PLAIN LOGIN\r\n", 64);
    let info = Ehlo(ClientId::new("example.com")).execute(&mut s, &mut w, &mut p).unwrap();
    assert_eq!(s.written().as_slice(), b"EHLO example.com\r\n");
    assert!(info.extensions.plain);
    assert!(info.extensions.login);
}

#[test]
fn ehlo_ignores_unknown_lines_and_mechanisms() {
    let (mut s, mut w, mut p) = rig(
        b"250-hello\r\n250-SIZE 10485760\r\n250 AUTH CRAM-MD5 LOGIN\r\n",
        64,
    );
    let info = Ehlo(ClientId::localhost()).execute(&mut s, &mut w, &mut p).unwrap();
    assert_eq!(s.written().as_slice(), b"EHLO localhost\r\n");
    assert!(!info.extensions.plain);
    assert!(info.extensions.login);
}

#[test]
fn ehlo_single_line_reply_is_unexpected() {
    let (mut s, mut w, mut p) = rig(b"250 hello\r\n", 64);
    assert!(matches!(
        Ehlo(ClientId::localhost()).execute(&mut s, &mut w, &mut p),
        Err(ConnectError::UnexpectedResponse)
    ));
}

#[test]
fn data_empty_mail_is_bare_sentinel() {
    // No headers and no body: nothing precedes the sentinel, and no blank
    // line is emitted.
    let (mut s, mut w, mut p) = rig(b"354 go\r\n250 queued\r\n", 64);
    Data(Mail::new()).execute(&mut s, &mut w, &mut p).unwrap();
    assert_eq!(s.written().as_slice(), b"DATA\r\n.\r\n".as_slice());
}

#[test]
fn rcpt_to_empty_list_writes_nothing() {
    let (mut s, mut w, mut p) = rig(b"", 64);
    RcptTo(Vec::new()).execute(&mut s, &mut w, &mut p).unwrap();
    assert_eq!(s.written().as_slice(), b"");
}

#[test]
fn data_body_ending_in_crlf_gets_no_extra_line() {
    let (mut s, mut w, mut p) = rig(b"354 go\r\n250 queued\r\n", 64);
    Data("line\r\n").execute(&mut s, &mut w, &mut p).unwrap();
    assert_eq!(s.written().as_slice(), b"DATA\r\nline\r\n.\r\n".as_slice());
}
