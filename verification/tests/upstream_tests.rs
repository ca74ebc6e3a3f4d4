use trans_proxy::config::UpstreamHttpProxyConfig;
use trans_proxy::protocol::http::HeadStatus;
use trans_proxy::upstream::{
    basic_authorization_value, connect_authority, credential_text, ensure_connect_success,
    response_head_status, UpstreamError, UpstreamProxy,
};

fn cfg(enabled: bool, address: Option<&str>, user: Option<&str>, pass: Option<&str>) -> UpstreamHttpProxyConfig {
    UpstreamHttpProxyConfig {
        enabled,
        address: address.map(|s| s.to_string()),
        username: user.map(|s| s.to_string()),
        password: pass.map(|s| s.to_string()),
    }
}

#[test]
fn disabled_proxy_is_none() {
    assert!(UpstreamProxy::from_config(&cfg(false, Some("127.0.0.1:3128"), None, None)).unwrap().is_none());
    assert!(UpstreamProxy::from_config(&cfg(false, None, Some("u"), None)).unwrap().is_none());
}

#[test]
fn enabled_proxy_needs_an_address() {
    assert!(matches!(UpstreamProxy::from_config(&cfg(true, None, None, None)), Err(UpstreamError::MissingAddress)));
}

#[test]
fn credentials_come_in_pairs() {
    assert!(matches!(
        UpstreamProxy::from_config(&cfg(true, Some("p:1"), Some("u"), None)),
        Err(UpstreamError::IncompleteCredentials)
    ));
    assert!(matches!(
        UpstreamProxy::from_config(&cfg(true, Some("p:1"), None, Some("x"))),
        Err(UpstreamError::IncompleteCredentials)
    ));
}

#[test]
fn basic_authorization_header() {
    let p = UpstreamProxy::from_config(&cfg(true, Some("127.0.0.1:3128"), Some("user"), Some("pass"))).unwrap().unwrap();
    assert_eq!(p.address(), "127.0.0.1:3128");
    assert_eq!(p.authorization_header(), Some("Basic dXNlcjpwYXNz"));
    let q = UpstreamProxy::from_config(&cfg(true, Some("h:1"), None, None)).unwrap().unwrap();
    assert_eq!(q.authorization_header(), None);
    let r = UpstreamProxy::from_config(&cfg(true, Some("h:1"), Some("a"), Some(""))).unwrap().unwrap();
    assert_eq!(r.authorization_header(), Some("Basic YTo="));
}

#[test]
fn credential_pieces() {
    assert_eq!(credential_text("user", "pass"), "user:pass");
    assert_eq!(basic_authorization_value("abc"), "Basic abc");
}

#[test]
fn connect_request_text() {
    let p = UpstreamProxy::from_config(&cfg(true, Some("p:3128"), Some("user"), Some("pass"))).unwrap().unwrap();
    assert_eq!(
        p.connect_request("example.com", 443),
        "CONNECT example.com:443 HTTP/1.1\r\nHost: example.com:443\r\nProxy-Authorization: Basic dXNlcjpwYXNz\r\n\r\n"
    );
    let q = UpstreamProxy::from_config(&cfg(true, Some("p:3128"), None, None)).unwrap().unwrap();
    assert_eq!(q.connect_request("::1", 443), "CONNECT [::1]:443 HTTP/1.1\r\nHost: [::1]:443\r\n\r\n");
    assert_eq!(connect_authority("example.com", 8443), "example.com:8443");
    assert_eq!(connect_authority("2001:db8::1", 443), "[2001:db8::1]:443");
}

#[test]
fn connect_answers() {
    assert!(ensure_connect_success(b"HTTP/1.1 200 Connection established\r\n\r\n").is_ok());
    assert!(ensure_connect_success(b"HTTP/1.0 204\r\n\r\n").is_ok());
    match ensure_connect_success(b"HTTP/1.1 407 Proxy Authentication Required\r\nX: y\r\n\r\n") {
        Err(UpstreamError::ConnectFailed(line)) => assert_eq!(line, "HTTP/1.1 407 Proxy Authentication Required"),
        other => panic!("unexpected {other:?}"),
    }
    assert!(matches!(ensure_connect_success(b""), Err(UpstreamError::EmptyResponse)));
    assert!(matches!(ensure_connect_success(b"   \r\n\r\n"), Err(UpstreamError::MissingResponseVersion)));
    assert!(matches!(ensure_connect_success(b"HTTP/1.1\r\n\r\n"), Err(UpstreamError::MissingStatusCode)));
    assert!(matches!(ensure_connect_success(b"HTTP/1.1 \xff\r\n\r\n"), Err(UpstreamError::ResponseNotUtf8)));
}

#[test]
fn response_head_limits() {
    assert_eq!(response_head_status(b""), HeadStatus::Incomplete);
    assert_eq!(response_head_status(b"HTTP/1.1 200 OK\r\n\r\n"), HeadStatus::Complete);
    let mut big = vec![b'a'; 16385];
    big.extend_from_slice(b"\r\n\r\n");
    assert_eq!(response_head_status(&big), HeadStatus::TooLarge);
}
