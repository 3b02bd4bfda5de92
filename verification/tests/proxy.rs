use rustorrent::proxy::{
    check_connect_reply, format_target_host, socks5_auth_accepted, socks5_connect_request, socks5_reply_header,
    validate_target_host, Socks5Target,
    ProxyConfig, Socks5BindAddress,
};

#[test]
fn parse_socks5_url() {
    let config = ProxyConfig::parse("socks5://127.0.0.1:1080").unwrap();
    match config {
        ProxyConfig::Socks5 { host, port } => {
            assert_eq!(host, "127.0.0.1");
            assert_eq!(port, 1080);
        }
        _ => panic!("expected socks5"),
    }
}

#[test]
fn parse_http_url() {
    let config = ProxyConfig::parse("http://proxy.local:3128").unwrap();
    match config {
        ProxyConfig::Http { host, port } => {
            assert_eq!(host, "proxy.local");
            assert_eq!(port, 3128);
        }
        _ => panic!("expected http"),
    }
}

#[test]
fn parse_socks5_default_port() {
    let config = ProxyConfig::parse("socks5://myproxy").unwrap();
    match config {
        ProxyConfig::Socks5 { host, port } => {
            assert_eq!(host, "myproxy");
            assert_eq!(port, 1080);
        }
        _ => panic!("expected socks5"),
    }
}

#[test]
fn parse_http_default_port() {
    let config = ProxyConfig::parse("http://myproxy").unwrap();
    match config {
        ProxyConfig::Http { host, port } => {
            assert_eq!(host, "myproxy");
            assert_eq!(port, 8080);
        }
        _ => panic!("expected http"),
    }
}

#[test]
fn parse_unsupported_scheme_fails() {
    assert!(ProxyConfig::parse("ftp://proxy").is_err());
}

#[test]
fn parse_trailing_slash_stripped() {
    let config = ProxyConfig::parse("socks5://host:9050/").unwrap();
    match config {
        ProxyConfig::Socks5 { host, port } => {
            assert_eq!(host, "host");
            assert_eq!(port, 9050);
        }
        _ => panic!("expected socks5"),
    }
}

#[test]
fn parse_invalid_bracketed_proxy_fails() {
    assert!(ProxyConfig::parse("socks5://]").is_err());
    assert!(ProxyConfig::parse("socks5://[").is_err());
    assert!(ProxyConfig::parse("socks5://[::1]x").is_err());
    assert!(ProxyConfig::parse("socks5://::1").is_err());
    assert!(ProxyConfig::parse("socks5://host:notaport").is_err());
    assert!(ProxyConfig::parse("socks5://host/path").is_err());
    assert!(ProxyConfig::parse("socks5://host:0").is_err());
}

#[test]
fn bracketed_ipv6_proxies_and_messages() {
    match ProxyConfig::parse("  socks5://[2001:db8::1]:9050  ").unwrap() {
        ProxyConfig::Socks5 { host, port } => {
            assert_eq!(host, "2001:db8::1");
            assert_eq!(port, 9050);
        }
        _ => panic!("expected socks5"),
    }
    match ProxyConfig::parse("http://[::ffff:1.2.3.4]").unwrap() {
        ProxyConfig::Http { host, port } => {
            assert_eq!(host, "::ffff:1.2.3.4");
            assert_eq!(port, 8080);
        }
        _ => panic!("expected http"),
    }
    assert_eq!(ProxyConfig::parse("socks5://[::g]").unwrap_err(), "invalid proxy address");
    assert_eq!(ProxyConfig::parse("socks5://[1::2::3]").unwrap_err(), "invalid proxy address");
    assert_eq!(ProxyConfig::parse("socks5://").unwrap_err(), "empty proxy address");
    assert_eq!(ProxyConfig::parse("socks5://h:+80").ok().map(|c| match c {
        ProxyConfig::Socks5 { port, .. } => port,
        _ => 0,
    }), Some(80));
    assert_eq!(ProxyConfig::parse("socks5://h:70000").unwrap_err(), "invalid proxy port");
    assert_eq!(
        ProxyConfig::parse("socks5://a:b:c").unwrap_err(),
        "IPv6 proxy addresses must be bracketed"
    );
    assert_eq!(ProxyConfig::parse("gopher://x").unwrap_err(), "unsupported proxy scheme: gopher://x");
}

#[test]
fn target_hosts_are_checked_and_formatted() {
    assert_eq!(validate_target_host("[2001:db8::1]").unwrap(), "2001:db8::1");
    assert_eq!(validate_target_host("example.org").unwrap(), "example.org");
    assert!(validate_target_host("").is_err());
    assert!(validate_target_host("a b").is_err());
    assert!(validate_target_host(&"x".repeat(256)).is_err());
    assert_eq!(format_target_host("2001:db8::1"), "[2001:db8::1]");
    assert_eq!(format_target_host("127.0.0.1"), "127.0.0.1");
}

#[test]
fn socks5_replies_are_checked() {
    assert!(socks5_auth_accepted([5, 0]));
    assert!(!socks5_auth_accepted([5, 2]));
    assert!(matches!(socks5_reply_header([5, 0, 0, 1]), Ok(Socks5BindAddress::Fixed(6))));
    assert!(matches!(socks5_reply_header([5, 0, 0, 4]), Ok(Socks5BindAddress::Fixed(18))));
    assert!(matches!(socks5_reply_header([5, 0, 0, 3]), Ok(Socks5BindAddress::Domain)));
    assert!(socks5_reply_header([4, 0, 0, 1]).is_err());
    assert_eq!(socks5_reply_header([5, 1, 0, 1]).err().unwrap(), "socks5 connect failed: status 1");
    assert!(socks5_reply_header([5, 0, 0, 9]).is_err());
}

#[test]
fn socks5_connect_request_encodes_each_target_kind() {
    assert_eq!(
        socks5_connect_request("127.0.0.1", Socks5Target::V4([127, 0, 0, 1]), 6881).unwrap(),
        vec![5, 1, 0, 1, 127, 0, 0, 1, 0x1a, 0xe1]
    );
    let mut v6 = [0u8; 16];
    v6[15] = 1;
    let req = socks5_connect_request("::1", Socks5Target::V6(v6), 80).unwrap();
    assert_eq!(req.len(), 4 + 16 + 2);
    assert_eq!(&req[..4], &[5, 1, 0, 4]);
    assert_eq!(&req[20..], &[0, 80]);
    assert_eq!(
        socks5_connect_request("tracker.invalid", Socks5Target::Name, 6969).unwrap(),
        [&[5u8, 1, 0, 3, 15][..], b"tracker.invalid", &[0x1b, 0x39]].concat()
    );
    let long = "a".repeat(256);
    assert_eq!(
        socks5_connect_request(&long, Socks5Target::Name, 1),
        Err("socks5 target host too long".to_string())
    );
    assert_eq!(socks5_connect_request(&"b".repeat(255), Socks5Target::Name, 1).unwrap().len(), 5 + 255 + 2);
}

#[test]
fn refusal_messages_name_the_scheme_and_status() {
    assert_eq!(ProxyConfig::parse("  ftp://host:21 ").unwrap_err(), "unsupported proxy scheme: ftp://host:21");
    match socks5_reply_header([5, 3, 0, 1]) {
        Err(m) => assert_eq!(m, "socks5 connect failed: status 3"),
        Ok(_) => panic!("a refused connect must fail"),
    }
    match socks5_reply_header([5, 255, 0, 1]) {
        Err(m) => assert_eq!(m, "socks5 connect failed: status 255"),
        Ok(_) => panic!("a refused connect must fail"),
    }
}

#[test]
fn connect_replies_are_checked() {
    assert_eq!(check_connect_reply(b"HTTP/1.1 200 Connection established\r\n\r\n"), Ok(()));
    assert_eq!(check_connect_reply(b"HTTP/1.0 200 OK\r\nVia: x\r\n\r\n"), Ok(()));
    assert_eq!(check_connect_reply(b"HTTP/1.1 407 Auth\r\n\r\n"), Err("http proxy connect failed: status 407".to_string()));
    assert_eq!(check_connect_reply(b"HTTP/1.1 200 OK\r\n"), Err("http proxy response too large".to_string()));
    assert_eq!(check_connect_reply(b"HTTP/2 200 OK\r\n\r\n"), Err("http proxy invalid response".to_string()));
    assert_eq!(check_connect_reply(b"HTTP/1.1 20 OK\r\n\r\n"), Err("http proxy invalid response".to_string()));
    assert_eq!(check_connect_reply(b"HTTP/1.1 2x0 OK\r\n\r\n"), Err("http proxy invalid status".to_string()));
    assert_eq!(check_connect_reply(&[0xff, 13, 10, 13, 10]), Err("http proxy invalid response".to_string()));
}
