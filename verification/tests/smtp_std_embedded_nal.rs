//! Whole-session exchanges over a scripted in-memory stream.

use mailr_nal::auth::Credential;
use mailr_nal::io::stream::MemStream;
use mailr_nal::message::{Envelope, Mail, Mailbox};
use mailr_nal::smtp::{ClientId, ConnectError, SmtpClient};

const GREETING: &str = "220 smtp ready\r\n";
const EHLO_PLAIN_REPLY: &str = "250-hello\r\n250 SIZE 10485760\r\n";

fn plain_server(extra: &str) -> MemStream {
    let mut input = String::new();
    input.push_str(GREETING);
    input.push_str(EHLO_PLAIN_REPLY);
    input.push_str(extra);
    MemStream::new(input.into_bytes())
}

#[test]
fn smtp_std_embedded_nal_no_auth() {
    let stream = plain_server("");
    let _client = SmtpClient::new(stream, vec![0u8; 1024])
        .connect()
        .expect("connected without authentication");
}

#[test]
fn with_client_id() {
    const CLIENT_ID: &str = "example.com";
    let stream = plain_server("");
    let session = SmtpClient::new(stream, vec![0u8; 1024])
        .with_client_id(Some(ClientId::new(CLIENT_ID)))
        .with_client_id(Some(ClientId::new(CLIENT_ID)))
        .connect()
        .expect("connected with client id");
    let s = session.into_stream();
    assert_eq!(s.written().as_slice(), b"EHLO example.com\r\n");
}

#[test]
fn unexpected_auth_fail() {
    // The server advertises no AUTH mechanism, yet a credential is
    // configured: connect must fail.
    let stream = plain_server("");
    let result = SmtpClient::new(stream, vec![0u8; 1024])
        .with_auth(Some(Credential::new("mock", "123456")))
        .connect();
    assert!(
        matches!(result, Err(ConnectError::AuthUnsupported)),
        "Connect should fail if user expects auth but server cannot provide. Got: {:?}",
        match result {
            Ok(_) => "a session",
            Err(_) => "another error",
        },
    );
}

#[test]
fn mail_message() {
    let _ = Mail::new()
        .from(Mailbox::new("Smith@bar.com"))
        .from(Mailbox::with_name("Smith", "Smith@bar.com"))
        .to(vec![Mailbox::new("Jones@foo.com")])
        .cc(vec![Mailbox::new("Green@foo.com")])
        .bcc(vec![Mailbox::new("Brown@foo.com")])
        .bcc(vec![Mailbox::new("Brown@foo.com")])
        .subject(None)
        .subject(Some("Test mail"))
        .body(None)
        .body(Some("Blah blah blah...\r\n..etc. etc. etc."));
}

fn test_mail<'a>() -> Mail<'a> {
    Mail::new()
        .from(Mailbox::new("Smith@bar.com"))
        .to(vec![Mailbox::new("Jones@foo.com"), Mailbox::new("John@foo.com")])
        .cc(vec![Mailbox::new("Green@foo.com")])
        .bcc(vec![Mailbox::new("Brown@foo.com")])
        .subject(Some("Test mail"))
        .body(Some("Blah blah blah...\r\n..etc. etc. etc."))
}

const SEND_REPLIES: &str = "250 sender ok\r\n250 r1\r\n250 r2\r\n250 r3\r\n250 r4\r\n354 go ahead\r\n250 queued\r\n";

#[test]
fn send_mail() {
    let stream = plain_server(SEND_REPLIES);
    let mut client = SmtpClient::new(stream, vec![0u8; 1024]).connect().unwrap();
    client.send(test_mail()).expect("sent first message successfully");
    let s = client.into_stream();
    let expected = "EHLO localhost\r\nMAIL FROM:<Smith@bar.com>\r\nRCPT TO:<Jones@foo.com>\r\nRCPT TO:<John@foo.com>\r\nRCPT TO:<Green@foo.com>\r\nRCPT TO:<Brown@foo.com>\r\nDATA\r\nFrom:<Smith@bar.com>\r\nTo:<Jones@foo.com>,<John@foo.com>\r\nCc:<Green@foo.com>\r\nSubject:Test mail\r\n\r\nBlah blah blah...\r\n...etc. etc. etc.\r\n.\r\n";
    assert_eq!(s.written().as_slice(), expected.as_bytes());
}

#[test]
fn send_multiple_mails() {
    let mut extra = String::from(SEND_REPLIES);
    extra.push_str(SEND_REPLIES);
    let stream = plain_server(&extra);
    let mut client = SmtpClient::new(stream, vec![0u8; 1024]).connect().unwrap();

    let mail = test_mail();
    client.send(mail.clone()).expect("sent first message successfully");

    let mail = mail.subject(Some("Test mail 2"));
    client.send(mail).expect("sent second message successfully");
}

#[test]
fn send_raw() {
    let stream = plain_server("250 sender ok\r\n250 r1\r\n250 r2\r\n250 r3\r\n354 go ahead\r\n250 queued\r\n");
    let mut client = SmtpClient::new(stream, vec![0u8; 1024]).connect().unwrap();

    let envelope = Envelope::new(
        Some("Smith@bar.com"),
        vec!["Jones@foo.com", "Jane@bar.com", "John@baz.org"],
    );
    let raw_message = "From:<Smith@bar.com>\r\nTo:<Jones@foo.com>\r\nSubject: Raw mail sending\r\n\r\nBlah blah blah...\r\n..etc. etc. etc.";

    client.send_raw(envelope, raw_message).expect("sent successfully");
    let s = client.into_stream();
    let expected = "EHLO localhost\r\nMAIL FROM:<Smith@bar.com>\r\nRCPT TO:<Jones@foo.com>\r\nRCPT TO:<Jane@bar.com>\r\nRCPT TO:<John@baz.org>\r\nDATA\r\nFrom:<Smith@bar.com>\r\nTo:<Jones@foo.com>\r\nSubject: Raw mail sending\r\n\r\nBlah blah blah...\r\n...etc. etc. etc.\r\n.\r\n";
    assert_eq!(s.written().as_slice(), expected.as_bytes());
}

#[test]
fn close() {
    let stream = plain_server("");
    let client = SmtpClient::new(stream, vec![0u8; 1024]).connect().unwrap();
    client.close().expect("close successfully");
}
