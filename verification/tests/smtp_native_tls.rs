//! Sessions over an already-secured stream: the protocol core is transport
//! agnostic, so a scripted stream stands in for the TLS-wrapped socket.

use mailr_nal::auth::Credential;
use mailr_nal::io::stream::MemStream;
use mailr_nal::smtp::SmtpClient;

#[test]
fn smtp_native_tls_no_auth() {
    let input = "220 smtp ready\r\n250-hello\r\n250 SIZE 10485760\r\n";
    let stream = MemStream::new(input.as_bytes().to_vec());
    let _client = SmtpClient::new(stream, vec![0u8; 1024])
        .connect()
        .expect("connected without authentication");
}

#[test]
fn auth_success() {
    let input = "220 smtp ready\r\n250-hello\r\n250 AUTH PLAIN LOGIN\r\n235 OK\r\n";
    let stream = MemStream::new(input.as_bytes().to_vec());
    let _client = SmtpClient::new(stream, vec![0u8; 1024])
        .with_auth(Some(Credential::new("mock", "123456")))
        .connect()
        .expect("should authenticate successfully");
}
