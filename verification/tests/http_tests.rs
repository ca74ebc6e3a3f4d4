use trans_proxy::protocol::http::{
    direct_target, find_header_end, format_authority, parse_host, request_head_status,
    rewrite_request_for_upstream_proxy, split_host_port, HeadStatus, HttpError,
};

#[test]
fn header_end_is_the_first_blank_line() {
    assert_eq!(find_header_end(b"GET / HTTP/1.1\r\n\r\nxx\r\n\r\n"), Some(14));
    assert_eq!(find_header_end(b"GET / HTTP/1.1\r\n"), None);
    assert_eq!(find_header_end(b""), None);
}

#[test]
fn request_head_status_follows_terminator_and_limit() {
    assert_eq!(request_head_status(b"GET / HTTP/1.1\r\n\r\n"), HeadStatus::Complete);
    assert_eq!(request_head_status(b"GET / HTTP/1.1\r\n"), HeadStatus::Incomplete);
    let big = vec![b'a'; 65536];
    assert_eq!(request_head_status(&big), HeadStatus::TooLarge);
    let almost = vec![b'a'; 65535];
    assert_eq!(request_head_status(&almost), HeadStatus::Incomplete);
}

#[test]
fn parse_host_reads_the_host_header() {
    let head = b"GET / HTTP/1.1\r\nUser-Agent: curl\r\nHost: example.com\r\n\r\n";
    assert_eq!(parse_host(head).unwrap(), "example.com");
}

#[test]
fn parse_host_ignores_case_and_trims() {
    let head = b"GET / HTTP/1.1\r\nhOsT:   a.example:8080  \r\n\r\nbody";
    assert_eq!(parse_host(head).unwrap(), "a.example:8080");
}

#[test]
fn parse_host_takes_the_first_host_header() {
    let head = b"GET / HTTP/1.1\r\nHost: one\r\nHost: two\r\n\r\n";
    assert_eq!(parse_host(head).unwrap(), "one");
}

#[test]
fn parse_host_errors() {
    assert_eq!(parse_host(b"GET / HTTP/1.1\r\nHost: a\r\n"), Err(HttpError::MissingHeaderTerminator));
    assert_eq!(parse_host(b"GET / HTTP/1.1\r\nHost:  \r\n\r\n"), Err(HttpError::EmptyHostHeader));
    assert_eq!(parse_host(b"GET / HTTP/1.1\r\nAccept: */*\r\n\r\n"), Err(HttpError::MissingHostHeader));
    assert_eq!(parse_host(b"GET / \xff\r\nHost: a\r\n\r\n"), Err(HttpError::HeaderNotUtf8));
    assert_eq!(parse_host(b"GET / HTTP/1.1\r\nHostname: a\r\n\r\n"), Err(HttpError::MissingHostHeader));
}

#[test]
fn split_host_port_cases() {
    assert_eq!(split_host_port("example.com", 80).unwrap(), ("example.com".to_string(), 80));
    assert_eq!(split_host_port("example.com:8080", 80).unwrap(), ("example.com".to_string(), 8080));
    assert_eq!(split_host_port("  example.com:8080  ", 80).unwrap(), ("example.com".to_string(), 8080));
    assert_eq!(split_host_port("[::1]:8443", 443).unwrap(), ("::1".to_string(), 8443));
    assert_eq!(split_host_port("[::1]", 443).unwrap(), ("::1".to_string(), 443));
    assert_eq!(split_host_port("[::1]abc", 443).unwrap(), ("::1".to_string(), 443));
    assert_eq!(split_host_port("2001:db8::1", 80).unwrap(), ("2001:db8::1".to_string(), 80));
    assert_eq!(split_host_port("a:+81", 80).unwrap(), ("a".to_string(), 81));
    assert_eq!(split_host_port("a:0080", 80).unwrap(), ("a".to_string(), 80));
}

#[test]
fn split_host_port_errors() {
    assert_eq!(split_host_port("   ", 80), Err(HttpError::EmptyHost));
    assert_eq!(split_host_port("[::1", 80), Err(HttpError::InvalidIpv6Host));
    assert_eq!(split_host_port("a:65536", 80), Err(HttpError::InvalidPort));
    assert_eq!(split_host_port("a:", 80), Err(HttpError::InvalidPort));
    assert_eq!(split_host_port("a:-1", 80), Err(HttpError::InvalidPort));
    assert_eq!(split_host_port("a:+", 80), Err(HttpError::InvalidPort));
    assert_eq!(split_host_port("[::1]:x", 80), Err(HttpError::InvalidPort));
}

#[test]
fn format_authority_cases() {
    assert_eq!(format_authority("example.com", 80, 80), "example.com");
    assert_eq!(format_authority("example.com", 8080, 80), "example.com:8080");
    assert_eq!(format_authority("::1", 443, 443), "[::1]");
    assert_eq!(format_authority("::1", 8443, 443), "[::1]:8443");
    assert_eq!(format_authority("[::1]", 1, 2), "[::1]:1");
    assert_eq!(format_authority("h", 0, 1), "h:0");
}

#[test]
fn authority_reads_back() {
    for (host, port, default_port) in [("example.com", 8080u16, 80u16), ("::1", 443, 443), ("2001:db8::1", 65535, 80), ("x", 80, 80)] {
        let text = format_authority(host, port, default_port);
        assert_eq!(split_host_port(&text, default_port).unwrap(), (host.to_string(), port));
    }
}

#[test]
fn direct_target_joins_host_and_port() {
    assert_eq!(direct_target("example.com", 443), "example.com:443");
    assert_eq!(direct_target("::1", 80), "::1:80");
}

#[test]
fn rewrite_makes_the_target_absolute_and_keeps_the_body() {
    let head = b"GET /path?q=1 HTTP/1.1\r\nHost: example.com\r\n\r\nBODY";
    let out = rewrite_request_for_upstream_proxy(head, "example.com", 80, None).unwrap();
    assert_eq!(out, b"GET http://example.com/path?q=1 HTTP/1.1\r\nHost: example.com\r\n\r\nBODY".to_vec());
}

#[test]
fn rewrite_adds_proxy_authorization() {
    let head = b"POST /a HTTP/1.1\r\nHost: example.com:8080\r\n\r\n";
    let out = rewrite_request_for_upstream_proxy(head, "example.com", 8080, Some("Basic dXNlcjpwYXNz")).unwrap();
    assert_eq!(
        out,
        b"POST http://example.com:8080/a HTTP/1.1\r\nHost: example.com:8080\r\nProxy-Authorization: Basic dXNlcjpwYXNz\r\n\r\n".to_vec()
    );
}

#[test]
fn rewrite_keeps_an_existing_proxy_authorization() {
    let head = b"GET / HTTP/1.1\r\nproxy-authorization: mine\r\nHost: h\r\n\r\n";
    let out = rewrite_request_for_upstream_proxy(head, "h", 80, Some("Basic x")).unwrap();
    assert_eq!(out, b"GET http://h/ HTTP/1.1\r\nproxy-authorization: mine\r\nHost: h\r\n\r\n".to_vec());
}

#[test]
fn rewrite_keeps_absolute_targets_and_drops_extra_words() {
    let head = b"GET  https://a/b   HTTP/1.0 extra\r\n\r\n";
    let out = rewrite_request_for_upstream_proxy(head, "ignored", 80, None).unwrap();
    assert_eq!(out, b"GET https://a/b HTTP/1.0\r\n\r\n".to_vec());
}

#[test]
fn rewrite_brackets_ipv6_hosts() {
    let head = b"GET / HTTP/1.1\r\n\r\n";
    let out = rewrite_request_for_upstream_proxy(head, "::1", 8080, None).unwrap();
    assert_eq!(out, b"GET http://[::1]:8080/ HTTP/1.1\r\n\r\n".to_vec());
}

#[test]
fn rewrite_errors() {
    assert_eq!(rewrite_request_for_upstream_proxy(b"\r\n\r\n", "h", 80, None), Err(HttpError::MissingMethod));
    assert_eq!(rewrite_request_for_upstream_proxy(b"GET\r\n\r\n", "h", 80, None), Err(HttpError::MissingRequestTarget));
    assert_eq!(rewrite_request_for_upstream_proxy(b"GET /\r\n\r\n", "h", 80, None), Err(HttpError::MissingVersion));
    assert_eq!(rewrite_request_for_upstream_proxy(b"GET / HTTP/1.1", "h", 80, None), Err(HttpError::MissingHeaderTerminator));
    assert_eq!(rewrite_request_for_upstream_proxy(b"GET / \xfe\r\n\r\n", "h", 80, None), Err(HttpError::HeaderNotUtf8));
}
