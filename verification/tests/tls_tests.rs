use trans_proxy::protocol::tls::{client_hello_record_len, parse_sni, TlsError};

fn u16be(n: usize) -> [u8; 2] {
    [(n >> 8) as u8, n as u8]
}

/// A ClientHello record with the given extensions block.
fn client_hello(extensions: &[u8]) -> Vec<u8> {
    let mut body = vec![3, 3];
    body.extend_from_slice(&[7u8; 32]);
    body.push(2);
    body.extend_from_slice(&[0xaa, 0xbb]);
    body.extend_from_slice(&u16be(4));
    body.extend_from_slice(&[0x13, 0x01, 0x13, 0x02]);
    body.push(1);
    body.push(0);
    body.extend_from_slice(&u16be(extensions.len()));
    body.extend_from_slice(extensions);
    let mut hs = vec![1, 0, (body.len() >> 8) as u8, body.len() as u8];
    hs.extend_from_slice(&body);
    let mut record = vec![0x16, 3, 1];
    record.extend_from_slice(&u16be(hs.len()));
    record.extend_from_slice(&hs);
    record
}

fn sni_extension(name: &[u8]) -> Vec<u8> {
    let mut list = vec![0];
    list.extend_from_slice(&u16be(name.len()));
    list.extend_from_slice(name);
    let mut ext = u16be(list.len()).to_vec();
    ext.extend_from_slice(&list);
    let mut out = vec![0, 0];
    out.extend_from_slice(&u16be(ext.len()));
    out.extend_from_slice(&ext);
    out
}

#[test]
fn parse_sni_reads_the_server_name() {
    let mut exts = vec![0x00, 0x0a, 0x00, 0x02, 0x00, 0x1d];
    exts.extend_from_slice(&sni_extension(b"www.example.com"));
    assert_eq!(parse_sni(&client_hello(&exts)).unwrap(), "www.example.com");
}

#[test]
fn parse_sni_errors() {
    assert_eq!(parse_sni(&[0x16, 3, 1]), Err(TlsError::ShortRecord));
    assert_eq!(parse_sni(&[0x16, 3, 1, 0, 0]), Err(TlsError::MissingHandshakeType));
    assert_eq!(parse_sni(&[0x16, 3, 1, 0, 1, 2]), Err(TlsError::NotClientHello));
    assert_eq!(parse_sni(&[0x16, 3, 1, 0, 2, 1, 0]), Err(TlsError::UnexpectedEofU24));
    assert_eq!(parse_sni(&[0x16, 3, 1, 0, 4, 1, 0, 0, 9]), Err(TlsError::TruncatedClientHello));
    assert_eq!(parse_sni(&[0x16, 3, 1, 0, 4, 1, 0, 0, 0]), Err(TlsError::UnexpectedEofU8));
    assert_eq!(parse_sni(&client_hello(&[])), Err(TlsError::MissingSni));
    let other = [0x00, 0x0a, 0x00, 0x02, 0x00, 0x1d];
    assert_eq!(parse_sni(&client_hello(&other)), Err(TlsError::MissingSni));
    assert_eq!(parse_sni(&client_hello(&sni_extension(b""))), Err(TlsError::EmptySni));
    assert_eq!(parse_sni(&client_hello(&sni_extension(b"\xff\xfe"))), Err(TlsError::SniNotUtf8));
    let truncated = [0x00, 0x00, 0x00, 0x09, 0x00];
    assert_eq!(parse_sni(&client_hello(&truncated)), Err(TlsError::TruncatedExtension));
}

#[test]
fn parse_sni_without_extensions() {
    let mut body = vec![3, 3];
    body.extend_from_slice(&[0u8; 32]);
    body.extend_from_slice(&[0, 0, 2, 0x13, 0x01, 1, 0]);
    let mut record = vec![0x16, 3, 1, 0, (body.len() + 4) as u8, 1, 0, 0, body.len() as u8];
    record.extend_from_slice(&body);
    assert_eq!(parse_sni(&record), Err(TlsError::NoExtensions));
}

#[test]
fn parse_sni_skips_entries_that_are_not_host_names() {
    // a server name list whose first entry has type 1, then a host_name
    let mut list = vec![1, 0, 1, b'x', 0];
    list.extend_from_slice(&u16be(3));
    list.extend_from_slice(b"a.b");
    let mut ext = u16be(list.len()).to_vec();
    ext.extend_from_slice(&list);
    let mut exts = vec![0, 0];
    exts.extend_from_slice(&u16be(ext.len()));
    exts.extend_from_slice(&ext);
    assert_eq!(parse_sni(&client_hello(&exts)).unwrap(), "a.b");
}

#[test]
fn record_header_checks() {
    assert_eq!(client_hello_record_len(&[0x16, 3, 1, 0x02, 0x00]), Ok(512));
    assert_eq!(client_hello_record_len(&[0x17, 3, 1, 0x02, 0x00]), Err(TlsError::NotHandshakeRecord));
    assert_eq!(client_hello_record_len(&[0x16, 3, 1, 0, 0]), Err(TlsError::InvalidRecordLength(0)));
    assert_eq!(client_hello_record_len(&[0x16, 3, 1, 0x40, 0x00]), Ok(16384));
    assert_eq!(client_hello_record_len(&[0x16, 3, 1, 0x40, 0x01]), Err(TlsError::InvalidRecordLength(16385)));
}

#[test]
fn parse_sni_ignores_bytes_after_the_client_hello() {
    let record = client_hello(&sni_extension(b"proxy.example.org"));
    let mut longer = record.clone();
    longer.extend_from_slice(&[0x17, 0x03, 0x03, 0xff, 0x00, 0x2a]);
    assert_eq!(parse_sni(&record).unwrap(), "proxy.example.org");
    assert_eq!(parse_sni(&longer), parse_sni(&record));
}
