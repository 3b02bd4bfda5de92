use rustorrent::http::{
    build_request, check_redirects_left, decode_chunked, find_crlf, find_header_end, format_authority,
    header_value, is_public_ipv4, is_public_ipv6, is_redirect, next_hop, parse_http_response,
    parse_status, parse_url, resolve_location, resolve_url, response_memory_budget,
    io_timeout_nanos, read_response_limited, response_wire_limit, same_origin, validate_headers,
    validate_redirect_transport, DeadlineStream, Hop, Origin, RequestBudget, Scheme,
};
use std::io::Read;
use std::sync::atomic::AtomicBool;
use std::time::{Duration, Instant};

#[test]
fn response_memory_budget_is_checked_and_covers_parser_copies() {
    assert_eq!(response_memory_budget(1024), Some(3 * 1024 + 128 * 1024));
    assert_eq!(response_memory_budget(usize::MAX), None);
}

#[test]
fn response_wire_limit_saturates() {
    assert_eq!(response_wire_limit(10), 20 + 64 * 1024);
    assert_eq!(response_wire_limit(usize::MAX), usize::MAX);
}

#[test]
fn parse_url_defaults_port_and_path() {
    let parsed = parse_url("http://example.com").unwrap();
    assert!(matches!(parsed.scheme, Scheme::Http));
    assert_eq!(parsed.host, "example.com");
    assert_eq!(parsed.port, 80);
    assert_eq!(parsed.path, "/");

    let parsed = parse_url("https://example.com/path/to/file").unwrap();
    assert!(matches!(parsed.scheme, Scheme::Https));
    assert_eq!(parsed.host, "example.com");
    assert_eq!(parsed.port, 443);
    assert_eq!(parsed.path, "/path/to/file");

    let parsed = parse_url("http://[2001:db8::1]:8080?x=1#ignored").unwrap();
    assert_eq!(parsed.host, "2001:db8::1");
    assert_eq!(parsed.port, 8080);
    assert_eq!(parsed.path, "/?x=1");
    assert_eq!(format_authority(&parsed), "[2001:db8::1]:8080");
}

#[test]
fn parse_url_rejects_invalid_inputs() {
    assert!(parse_url("ftp://example.com").is_err());
    assert!(parse_url("http://").is_err());
    assert!(parse_url("http://example.com:99999").is_err());
    assert!(parse_url("http://example.com:0").is_err());
    assert!(parse_url("http://user@example.com/").is_err());
    assert!(parse_url("http://example.com/ok\r\nX-Test: bad").is_err());
}

#[test]
fn parse_url_reports_each_refusal() {
    assert_eq!(parse_url("ftp://example.com").unwrap_err(), "unsupported scheme");
    assert_eq!(parse_url("http://example.com:99999").unwrap_err(), "invalid port");
    assert_eq!(parse_url("http://a:b:c/").unwrap_err(), "invalid url");
    assert_eq!(parse_url("http://[zz]/").unwrap_err(), "invalid url");
    let parsed = parse_url("https://Example.com:443/a#b").unwrap();
    assert_eq!(parsed.path, "/a");
    assert_eq!(format_authority(&parsed), "Example.com");
}

#[test]
fn resolve_location_handles_absolute_and_relative() {
    let parsed = parse_url("https://example.com:8443/dir/file").unwrap();
    assert_eq!(
        resolve_location(&parsed, "https://other/path").unwrap(),
        "https://other/path"
    );
    assert_eq!(
        resolve_location(&parsed, "//mirror/path").unwrap(),
        "https://mirror/path"
    );
    assert_eq!(
        resolve_location(&parsed, "/root").unwrap(),
        "https://example.com:8443/root"
    );
    assert_eq!(
        resolve_location(&parsed, "next.txt").unwrap(),
        "https://example.com:8443/dir/next.txt"
    );
}

#[test]
fn resolve_location_trims_and_refuses_empty() {
    let parsed = parse_url("http://example.com/file").unwrap();
    assert_eq!(resolve_location(&parsed, "  next ").unwrap(), "http://example.com/next");
    assert_eq!(
        resolve_location(&parsed, "   ").unwrap_err(),
        "http redirect missing location"
    );
    assert_eq!(
        resolve_url("http://example.com/a/b", "c").unwrap(),
        "http://example.com/a/c"
    );
    assert_eq!(resolve_url("ftp://x/", "c").unwrap_err(), "unsupported scheme");
}

#[test]
fn redirects_never_downgrade_https_transport() {
    assert!(validate_redirect_transport(Scheme::Https, Scheme::Https).is_ok());
    assert!(validate_redirect_transport(Scheme::Http, Scheme::Https).is_ok());
    assert!(validate_redirect_transport(Scheme::Http, Scheme::Http).is_ok());
    assert!(validate_redirect_transport(Scheme::Https, Scheme::Http).is_err());
}

#[test]
fn public_address_policy_rejects_local_and_special_routes() {
    assert!(is_public_ipv4([8, 8, 8, 8]));
    assert!(is_public_ipv6([0x2001, 0x4860, 0x4860, 0, 0, 0, 0, 0x8888]));

    for octets in [
        [0, 0, 0, 0],
        [10, 0, 0, 1],
        [100, 64, 0, 1],
        [127, 0, 0, 1],
        [169, 254, 1, 1],
        [192, 0, 2, 1],
        [198, 18, 0, 1],
        [203, 0, 113, 1],
        [224, 0, 0, 1],
    ] {
        assert!(!is_public_ipv4(octets), "special-use address accepted: {octets:?}");
    }
    for segments in [
        [0, 0, 0, 0, 0, 0, 0, 1],
        [0, 0, 0, 0, 0, 0xffff, 0x7f00, 0x0001],
        [0x64, 0xff9b, 1, 0, 0, 0, 0x7f00, 1],
        [0x2001, 0xdb8, 0, 0, 0, 0, 0, 1],
        [0x2002, 0x7f00, 1, 0, 0, 0, 0, 0],
        [0x3fff, 0, 0, 0, 0, 0, 0, 1],
    ] {
        assert!(!is_public_ipv6(segments), "special-use address accepted: {segments:?}");
    }
    assert!(is_public_ipv6([0, 0, 0, 0, 0, 0xffff, 0x0808, 0x0808]));
}

#[test]
fn parse_http_response_with_content_length() {
    let response = b"HTTP/1.1 200 OK\r\nContent-Length: 5\r\nX-Test: one\r\n\r\nhelloEXTRA";
    let parsed = parse_http_response(response).unwrap();
    assert_eq!(parsed.status, 200);
    assert_eq!(parsed.body, b"hello");
    assert_eq!(
        header_value(&parsed.headers, "x-test"),
        Some("one".to_string())
    );
}

#[test]
fn parse_http_response_with_chunked_transfer() {
    let response = b"HTTP/1.1 206 Partial Content\r\nTransfer-Encoding: chunked\r\n\r\n4\r\nWiki\r\n5\r\npedia\r\n0\r\n\r\n";
    let parsed = parse_http_response(response).unwrap();
    assert_eq!(parsed.status, 206);
    assert_eq!(parsed.body, b"Wikipedia");
}

#[test]
fn parse_http_response_rejects_truncated_body() {
    let response = b"HTTP/1.1 200 OK\r\nContent-Length: 10\r\n\r\nshort";
    assert!(parse_http_response(response).is_err());

    let conflicting = b"HTTP/1.1 200 OK\r\nContent-Length: 1\r\nContent-Length: 2\r\n\r\nxx";
    assert!(parse_http_response(conflicting).is_err());
}

#[test]
fn parse_http_response_header_rules() {
    let parsed =
        parse_http_response(b"HTTP/1.0 404 Not Found\r\n  X-Name :  spaced value \r\n\r\nbody").unwrap();
    assert_eq!(parsed.status, 404);
    assert_eq!(parsed.headers, vec![("x-name".to_string(), "spaced value".to_string())]);
    assert_eq!(parsed.body, b"body");
    assert!(parse_http_response(b"HTTP/1.1 200 OK\r\nno colon\r\n\r\n").is_err());
    assert!(parse_http_response(b"HTTP/2 200 OK\r\n\r\n").is_err());
    assert!(parse_http_response(b"HTTP/1.1 200 OK\r\nX: a\x01b\r\n\r\n").is_err());
    assert!(parse_http_response(b"HTTP/1.1 200 OK").is_err());
    let big = vec![b'a'; 70_000];
    let mut data = b"HTTP/1.1 200 OK\r\nX: ".to_vec();
    data.extend_from_slice(&big);
    data.extend_from_slice(b"\r\n\r\n");
    assert_eq!(
        parse_http_response(&data).unwrap_err(),
        "http response headers too large"
    );
    let chunked = b"HTTP/1.1 200 OK\r\nTransfer-Encoding: gzip, Chunked\r\n\r\n1\r\nx\r\n0\r\n\r\n";
    assert_eq!(parse_http_response(chunked).unwrap().body, b"x");
}

#[test]
fn status_lines_need_a_version_and_three_digits() {
    assert_eq!(parse_status("HTTP/1.1 200 OK").unwrap(), 200);
    assert_eq!(parse_status("  HTTP/1.0\t301").unwrap(), 301);
    assert!(parse_status("HTTP/1.1 2000 OK").is_err());
    assert!(parse_status("HTTP/1.1").is_err());
    assert!(parse_status("HTTP/1.1 ab1").is_err());
}

#[test]
fn decode_chunked_rejects_invalid_chunk_layout() {
    assert!(decode_chunked(b"4\r\nabc\r\n0\r\n\r\n").is_err());
    assert!(decode_chunked(b"ZZ\r\nabc\r\n0\r\n\r\n").is_err());
    assert!(decode_chunked(b"FFFFFFFFFFFFFFFFFFFFFFFF\r\nx\r\n0\r\n\r\n").is_err());
}

#[test]
fn decode_chunked_accepts_extensions_and_trailers() {
    assert_eq!(decode_chunked(b"3;ext=1\r\nabc\r\n0\r\nX: y\r\n\r\n").unwrap(), b"abc");
    assert_eq!(decode_chunked(b"a\r\n0123456789\r\n0\r\n\r\n").unwrap(), b"0123456789");
    assert!(decode_chunked(b"0\r\n").is_err());
}

#[test]
fn delimiters_are_found_from_a_position() {
    assert_eq!(find_header_end(b"a\r\n\r\nb"), Some(1));
    assert_eq!(find_header_end(b"a\r\n\rb"), None);
    assert_eq!(find_crlf(b"a\r\nb\r\n", 2), Some(4));
    assert_eq!(find_crlf(b"a\r\n", 3), None);
}

#[test]
fn headers_are_validated_before_sending() {
    assert!(validate_headers(&[("Range", "bytes=0-1".to_string())]).is_ok());
    assert_eq!(
        validate_headers(&[("Bad Name", "x".to_string())]).unwrap_err(),
        "invalid http header"
    );
    assert!(validate_headers(&[("X", "a\r\nb".to_string())]).is_err());
    assert!(validate_headers(&[("", "a".to_string())]).is_err());
}

#[test]
fn redirect_statuses_and_limits() {
    for status in [301, 302, 303, 307, 308] {
        assert!(is_redirect(status));
    }
    assert!(!is_redirect(200) && !is_redirect(304));
    assert_eq!(check_redirects_left(0).unwrap_err(), "http redirect limit reached");
    assert!(check_redirects_left(1).is_ok());
}

#[test]
fn origins_compare_hosts_in_any_case() {
    assert!(same_origin("http://Example.com/a", "http://example.COM:80/b"));
    assert!(!same_origin("http://example.com/", "https://example.com/"));
    assert!(!same_origin("http://example.com/", "http://example.com:8080/"));
    assert!(!same_origin("ftp://x/", "ftp://x/"));
}

#[test]
fn next_hop_follows_redirects_and_checks_statuses() {
    let current = parse_url("https://example.com/dir/file").unwrap();
    let redirect = parse_http_response(b"HTTP/1.1 302 Found\r\nLocation: other\r\n\r\n").unwrap();
    match next_hop(&current, redirect, 10, None).unwrap() {
        Hop::Follow(url) => assert_eq!(url, "https://example.com/dir/other"),
        Hop::Done(_) => panic!("expected a redirect"),
    }
    let downgrade =
        parse_http_response(b"HTTP/1.1 301 Moved\r\nLocation: http://example.com/\r\n\r\n").unwrap();
    assert_eq!(
        next_hop(&current, downgrade, 10, None).unwrap_err(),
        "https redirect downgrade refused"
    );
    let origin = Origin::from_url(&current);
    assert_eq!(origin.host, "example.com");
    let cross =
        parse_http_response(b"HTTP/1.1 307 Moved\r\nLocation: https://other.example/\r\n\r\n").unwrap();
    assert_eq!(
        next_hop(&current, cross, 10, Some(&origin)).unwrap_err(),
        "cross-origin http redirect refused"
    );
    let missing = parse_http_response(b"HTTP/1.1 302 Found\r\n\r\n").unwrap();
    assert_eq!(
        next_hop(&current, missing, 10, None).unwrap_err(),
        "http redirect missing location"
    );
    let not_found = parse_http_response(b"HTTP/1.1 404 Not Found\r\n\r\n").unwrap();
    assert_eq!(next_hop(&current, not_found, 10, None).unwrap_err(), "http status 404");
    let large = parse_http_response(b"HTTP/1.1 200 OK\r\n\r\n0123456789A").unwrap();
    assert_eq!(next_hop(&current, large, 10, None).unwrap_err(), "http response too large");
    let ok = parse_http_response(b"HTTP/1.1 200 OK\r\n\r\nbody").unwrap();
    match next_hop(&current, ok, 10, None).unwrap() {
        Hop::Done(body) => assert_eq!(body, b"body"),
        Hop::Follow(_) => panic!("expected a body"),
    }
}

#[test]
fn requests_carry_host_fixed_headers_and_extras() {
    let parsed = parse_url("http://example.com:8080/a?b").unwrap();
    let get = build_request(None, &parsed, &[("Range", "bytes=0-9".to_string())]);
    assert_eq!(
        String::from_utf8(get).unwrap(),
        "GET /a?b HTTP/1.1\r\nHost: example.com:8080\r\nUser-Agent: rustorrent/0.1\r\nConnection: close\r\nRange: bytes=0-9\r\n\r\n"
    );
    let parsed = parse_url("https://example.com/").unwrap();
    let post = build_request(Some(12), &parsed, &[]);
    assert_eq!(
        String::from_utf8(post).unwrap(),
        "POST / HTTP/1.1\r\nHost: example.com\r\nUser-Agent: rustorrent/0.1\r\nConnection: close\r\nContent-Length: 12\r\n\r\n"
    );
}

struct SlowStream<'a> {
    data: &'a [u8],
    position: usize,
    delay: Duration,
    cancel: Option<&'a AtomicBool>,
    cancel_after: usize,
}

fn wait_for(delay: Duration) {
    let start = Instant::now();
    while start.elapsed() < delay {}
}

impl Read for SlowStream<'_> {
    fn read(&mut self, buf: &mut [u8]) -> std::io::Result<usize> {
        if self.position >= self.data.len() || buf.is_empty() {
            return Ok(0);
        }
        wait_for(self.delay);
        buf[0] = self.data[self.position];
        self.position += 1;
        if self.position == self.cancel_after {
            if let Some(cancel) = self.cancel {
                cancel.store(true, std::sync::atomic::Ordering::SeqCst);
            }
        }
        Ok(1)
    }
}

impl DeadlineStream for SlowStream<'_> {
    fn set_read_timeout(&self, _: Option<Duration>) -> std::io::Result<()> {
        Ok(())
    }

    fn set_write_timeout(&self, _: Option<Duration>) -> std::io::Result<()> {
        Ok(())
    }
}

#[test]
fn response_reader_enforces_absolute_deadline_against_slow_trickle() {
    let data = b"HTTP/1.1 200 OK\r\nContent-Length: 5\r\n\r\nhello";
    let mut stream = SlowStream {
        data,
        position: 0,
        delay: Duration::from_millis(5),
        cancel: None,
        cancel_after: usize::MAX,
    };
    let started = Instant::now();
    let err = read_response_limited(
        &mut stream,
        1024,
        RequestBudget::new(started + Duration::from_millis(35), None),
    )
    .unwrap_err();
    assert!(err.contains("deadline exceeded"), "unexpected error: {err}");
    assert!(started.elapsed() < Duration::from_secs(1));
}

#[test]
fn response_reader_observes_cancellation_between_reads() {
    let cancel = AtomicBool::new(false);
    let mut stream = SlowStream {
        data: b"HTTP/1.1 200 OK\r\n\r\nbody",
        position: 0,
        delay: Duration::from_millis(1),
        cancel: Some(&cancel),
        cancel_after: 3,
    };
    let err = read_response_limited(
        &mut stream,
        1024,
        RequestBudget::new(Instant::now() + Duration::from_secs(1), Some(&cancel)),
    )
    .unwrap_err();
    assert_eq!(err, "http request cancelled");
}

#[test]
fn io_timeout_decisions_follow_the_budget() {
    assert_eq!(io_timeout_nanos(true, 0, 0), Err("http request cancelled".to_string()));
    assert_eq!(io_timeout_nanos(false, 0, 0), Err("http request deadline exceeded".to_string()));
    assert_eq!(io_timeout_nanos(false, 5, 15_000_000_000), Err("http I/O timed out".to_string()));
    assert_eq!(io_timeout_nanos(false, 7, 0), Ok(7));
    assert_eq!(io_timeout_nanos(false, 1_000_000_000, 14_900_000_000), Ok(100_000_000));
    assert_eq!(io_timeout_nanos(false, 1_000_000_000, 0), Ok(250_000_000));
}

#[test]
fn response_reader_returns_everything_until_close() {
    let data = b"HTTP/1.1 200 OK\r\n\r\nbody";
    let mut stream = SlowStream {
        data,
        position: 0,
        delay: Duration::from_millis(0),
        cancel: None,
        cancel_after: usize::MAX,
    };
    let got = read_response_limited(&mut stream, 1024, RequestBudget::new(Instant::now() + Duration::from_secs(5), None))
        .unwrap();
    assert_eq!(got, data.to_vec());
}
