use vstd::prelude::*;
use vstd::utf8::*;

use crate::text::{
    count_byte, count_bytes, find_byte, find_first, find_last, ipv6_text, is_ascii_control,
    is_ascii_space, is_ipv6_text, lemma_ascii_delimited, lemma_find_first, lemma_find_last,
    parse_u16, rfind_byte, spec_parse_u16, str_bytes, str_trim, string_of, trim_chars,
};

verus! {

/// A proxy to tunnel peer connections through.
#[derive(Clone, Debug)]
pub enum ProxyConfig {
    Socks5 { host: String, port: u16 },
    Http { host: String, port: u16 },
}

/// Why a proxy address was refused.
pub enum AddressError {
    Empty,
    Invalid,
    InvalidPort,
    Unbracketed,
}

/// The message reported for each refusal.
pub open spec fn address_message(e: AddressError) -> Seq<char> {
    match e {
        AddressError::Empty => "empty proxy address"@,
        AddressError::Invalid => "invalid proxy address"@,
        AddressError::InvalidPort => "invalid proxy port"@,
        AddressError::Unbracketed => "IPv6 proxy addresses must be bracketed"@,
    }
}

/// A byte that may not appear in a proxy address.
pub open spec fn forbidden_address_byte(c: u8) -> bool {
    is_ascii_control(c) || is_ascii_space(c) || c == 47 || c == 63 || c == 35 || c == 64
}

/// `s` without one trailing `/`.
pub open spec fn strip_slash(s: Seq<u8>) -> Seq<u8> {
    if s.len() > 0 && s.last() == 47 {
        s.drop_last()
    } else {
        s
    }
}

/// The port of a bracketed address: the default when nothing follows the
/// bracket, else what follows a `:`.
pub open spec fn bracket_port(tail: Seq<u8>, default_port: u16) -> Result<u16, AddressError> {
    if tail.len() == 0 {
        Ok(default_port)
    } else if tail[0] == 58 {
        match spec_parse_u16(tail.drop_first()) {
            Some(p) => Ok(p),
            None => Err(AddressError::InvalidPort),
        }
    } else {
        Err(AddressError::Invalid)
    }
}

/// The host and port of a proxy address: `host`, `host:port`, `[ipv6]`
/// or `[ipv6]:port`, with one trailing `/` allowed. The port must be
/// non-zero; a bracketed host must be an IPv6 address.
pub open spec fn spec_host_port(s0: Seq<u8>, default_port: u16) -> Result<(Seq<u8>, u16), AddressError> {
    let s = strip_slash(s0);
    if s.len() == 0 {
        Err(AddressError::Empty)
    } else if exists|i: int| 0 <= i < s.len() && forbidden_address_byte(#[trigger] s[i]) {
        Err(AddressError::Invalid)
    } else if s[0] == 91 {
        match find_first(s, 93) {
            None => Err(AddressError::Invalid),
            Some(e) => {
                let host = s.subrange(1, e);
                if host.len() == 0 {
                    Err(AddressError::Invalid)
                } else {
                    match bracket_port(s.subrange(e + 1, s.len() as int), default_port) {
                        Err(x) => Err(x),
                        Ok(p) => if p == 0 || !ipv6_text(host) {
                            Err(AddressError::Invalid)
                        } else {
                            Ok((host, p))
                        },
                    }
                }
            },
        }
    } else if find_first(s, 93) is Some {
        Err(AddressError::Invalid)
    } else if count_byte(s, 58) > 1 {
        Err(AddressError::Unbracketed)
    } else {
        match find_last(s, 58) {
            None => Ok((s, default_port)),
            Some(c) => if c == 0 {
                Err(AddressError::Invalid)
            } else {
                match spec_parse_u16(s.subrange(c + 1, s.len() as int)) {
                    None => Err(AddressError::InvalidPort),
                    Some(p) => if p == 0 {
                        Err(AddressError::InvalidPort)
                    } else {
                        Ok((s.subrange(0, c), p))
                    },
                }
            },
        }
    }
}

/// The outcome of `parse_host_port` as the caller sees it.
pub open spec fn host_port_outcome(
    r: Result<(String, u16), String>,
    expected: Result<(Seq<u8>, u16), AddressError>,
) -> bool {
    match expected {
        Ok((h, p)) => r matches Ok((host, port)) && encode_utf8(host@) == h && port == p,
        Err(e) => r matches Err(m) && m@ == address_message(e),
    }
}

fn address_error(e: AddressError) -> (r: String)
    ensures
        r@ == address_message(e),
{
    match e {
        AddressError::Empty => "empty proxy address".to_string(),
        AddressError::Invalid => "invalid proxy address".to_string(),
        AddressError::InvalidPort => "invalid proxy port".to_string(),
        AddressError::Unbracketed => "IPv6 proxy addresses must be bracketed".to_string(),
    }
}

/// Splits a proxy address into host and port (see `spec_host_port`).
#[verifier::loop_isolation(false)]
pub fn parse_host_port(s0: &[u8], default_port: u16) -> (r: Result<(String, u16), String>)
    requires
        valid_utf8(s0@),
    ensures
        host_port_outcome(r, spec_host_port(s0@, default_port)),
{
    let n0 = s0.len();
    let s: &[u8] = if n0 > 0 && s0[n0 - 1] == 47 {
        &s0[0..n0 - 1]
    } else {
        s0
    };
    assert(s@ == strip_slash(s0@));
    proof {
        if n0 > 0 && s0@[n0 - 1] == 47 {
            lemma_ascii_delimited(s0@, 0, n0 - 1);
        }
    }
    let n = s.len();
    if n == 0 {
        return Err(address_error(AddressError::Empty));
    }
    let mut i: usize = 0;
    while i < n
        invariant
            i <= n,
            n == s@.len(),
            forall|j: int| 0 <= j < i ==> !forbidden_address_byte(#[trigger] s@[j]),
        decreases n - i,
    {
        let c = s[i];
        if c < 32 || c == 127 || c == 32 || c == 9 || c == 10 || c == 12 || c == 13 || c == 47 || c
            == 63 || c == 35 || c == 64 {
            assert(forbidden_address_byte(s@[i as int]));
            return Err(address_error(AddressError::Invalid));
        }
        i = i + 1;
    }
    if s[0] == 91 {
        let e = match find_byte(s, 93) {
            None => {
                return Err(address_error(AddressError::Invalid));
            },
            Some(e) => e,
        };
        proof {
            lemma_find_first(s@, 93);
        }
        if e <= 1 {
            return Err(address_error(AddressError::Invalid));
        }
        let host = &s[1..e];
        let tail = &s[e + 1..n];
        let port = if tail.len() == 0 {
            default_port
        } else if tail[0] == 58 {
            match parse_u16(&tail[1..tail.len()]) {
                Some(p) => p,
                None => {
                    assert(tail@.drop_first() =~= tail@.subrange(1, tail@.len() as int));
                    return Err(address_error(AddressError::InvalidPort));
                },
            }
        } else {
            return Err(address_error(AddressError::Invalid));
        };
        assert(tail@.drop_first() =~= tail@.subrange(1, tail@.len() as int));
        if port == 0 || !is_ipv6_text(host) {
            return Err(address_error(AddressError::Invalid));
        }
        proof {
            lemma_ascii_delimited(s@, 1, e as int);
        }
        return Ok((string_of(host), port));
    }
    if find_byte(s, 93).is_some() {
        return Err(address_error(AddressError::Invalid));
    }
    if count_bytes(s, 58) > 1 {
        return Err(address_error(AddressError::Unbracketed));
    }
    match rfind_byte(s, 58) {
        None => {
            proof {
                lemma_ascii_delimited(s@, 0, n as int);
                assert(s@.subrange(0, n as int) =~= s@);
            }
            Ok((string_of(s), default_port))
        },
        Some(c) => {
            proof {
                lemma_find_last(s@, 58);
            }
            if c == 0 {
                return Err(address_error(AddressError::Invalid));
            }
            let port = match parse_u16(&s[c + 1..n]) {
                None => {
                    return Err(address_error(AddressError::InvalidPort));
                },
                Some(p) => p,
            };
            if port == 0 {
                return Err(address_error(AddressError::InvalidPort));
            }
            proof {
                lemma_ascii_delimited(s@, 0, c as int);
            }
            Ok((string_of(&s[0..c]), port))
        },
    }
}

/// The scheme and address a proxy URL names, after trimming whitespace:
/// `socks5://` (default port 1080) or `http://` (default port 8080).
pub open spec fn spec_proxy_url(url: Seq<char>) -> Option<(bool, Seq<u8>)> {
    let b = encode_utf8(trim_chars(url));
    if b.len() >= 9 && b.subrange(0, 9) == seq![115u8, 111, 99, 107, 115, 53, 58, 47, 47] {
        Some((true, b.subrange(9, b.len() as int)))
    } else if b.len() >= 7 && b.subrange(0, 7) == seq![104u8, 116, 116, 112, 58, 47, 47] {
        Some((false, b.subrange(7, b.len() as int)))
    } else {
        None
    }
}

/// `unsupported proxy scheme: ` as bytes.
pub open spec fn unsupported_scheme_prefix() -> Seq<u8> {
    seq![117u8, 110, 115, 117, 112, 112, 111, 114, 116, 101, 100, 32, 112, 114, 111, 120, 121, 32, 115, 99, 104, 101, 109, 101, 58, 32]
}

/// The message for a proxy URL whose scheme is not supported: the prefix
/// and the URL.
fn unsupported_scheme_message(url: &str) -> (r: String)
    ensures
        encode_utf8(r@) == unsupported_scheme_prefix() + encode_utf8(url@),
{
    let prefix: [u8; 26] = [117, 110, 115, 117, 112, 112, 111, 114, 116, 101, 100, 32, 112, 114, 111, 120, 121, 32, 115, 99, 104, 101, 109, 101, 58, 32];
    assert(prefix@ =~= unsupported_scheme_prefix());
    let b = str_bytes(url);
    let mut out: Vec<u8> = Vec::new();
    crate::http::push_all(&mut out, prefix.as_slice());
    crate::http::push_all(&mut out, b);
    proof {
        crate::http::lemma_ascii_valid(prefix@);
        valid_utf8_concat(prefix@, b@);
    }
    string_of(out.as_slice())
}

fn starts_with(s: &[u8], prefix: &[u8]) -> (r: bool)
    ensures
        r == (s@.len() >= prefix@.len() && s@.subrange(0, prefix@.len() as int) == prefix@),
{
    if s.len() < prefix.len() {
        return false;
    }
    let mut i: usize = 0;
    while i < prefix.len()
        invariant
            i <= prefix@.len(),
            prefix@.len() <= s@.len(),
            forall|j: int| 0 <= j < i ==> s@[j] == prefix@[j],
        decreases prefix@.len() - i,
    {
        if s[i] != prefix[i] {
            assert(s@.subrange(0, prefix@.len() as int)[i as int] != prefix@[i as int]);
            return false;
        }
        i = i + 1;
    }
    assert(s@.subrange(0, prefix@.len() as int) =~= prefix@);
    true
}

impl ProxyConfig {
    /// Parses `socks5://host[:port]` or `http://host[:port]`.
    pub fn parse(url: &str) -> (r: Result<Self, String>)
        ensures
            spec_proxy_url(url@) is None ==> (r matches Err(m) && encode_utf8(m@) == unsupported_scheme_prefix()
                + encode_utf8(trim_chars(url@))),
            spec_proxy_url(url@) matches Some((socks, rest)) ==> match spec_host_port(
                rest,
                if socks {
                    1080u16
                } else {
                    8080u16
                },
            ) {
                Ok((h, p)) => if socks {
                    r matches Ok(ProxyConfig::Socks5 { host, port }) && encode_utf8(host@) == h
                        && port == p
                } else {
                    r matches Ok(ProxyConfig::Http { host, port }) && encode_utf8(host@) == h
                        && port == p
                },
                Err(e) => r matches Err(m) && m@ == address_message(e),
            },
    {
        let trimmed = str_trim(url);
        let b = str_bytes(trimmed);
        let n = b.len();
        let socks: [u8; 9] = [115, 111, 99, 107, 115, 53, 58, 47, 47];
        let http: [u8; 7] = [104, 116, 116, 112, 58, 47, 47];
        if starts_with(b, socks.as_slice()) {
            assert(socks@ =~= seq![115u8, 111, 99, 107, 115, 53, 58, 47, 47]);
            proof {
                lemma_ascii_delimited(b@, 9, n as int);
            }
            return match parse_host_port(&b[9..n], 1080) {
                Ok((host, port)) => Ok(ProxyConfig::Socks5 { host, port }),
                Err(e) => Err(e),
            };
        }
        assert(socks@ =~= seq![115u8, 111, 99, 107, 115, 53, 58, 47, 47]);
        if starts_with(b, http.as_slice()) {
            assert(http@ =~= seq![104u8, 116, 116, 112, 58, 47, 47]);
            proof {
                lemma_ascii_delimited(b@, 7, n as int);
            }
            return match parse_host_port(&b[7..n], 8080) {
                Ok((host, port)) => Ok(ProxyConfig::Http { host, port }),
                Err(e) => Err(e),
            };
        }
        assert(http@ =~= seq![104u8, 116, 116, 112, 58, 47, 47]);
        Err(unsupported_scheme_message(trimmed))
    }
}

} // verus!

verus! {

/// A byte that may not appear in a proxy target host.
pub open spec fn forbidden_target_byte(c: u8) -> bool {
    is_ascii_control(c) || is_ascii_space(c) || c == 47 || c == 92 || c == 63 || c == 35 || c == 64
}

/// The target host without the brackets of `[host]`.
pub open spec fn unbracket(s: Seq<u8>) -> Seq<u8> {
    if s.len() >= 2 && s[0] == 91 && s.last() == 93 {
        s.subrange(1, s.len() - 1)
    } else {
        s
    }
}

/// A target host the proxy may be asked to reach: unbracketed, one to 255
/// bytes, without controls, whitespace, `/`, `\`, `?`, `#` or `@`.
pub open spec fn valid_target_host(s: Seq<u8>) -> bool {
    let h = unbracket(s);
    &&& 0 < h.len() <= 255
    &&& forall|i: int| 0 <= i < h.len() ==> !forbidden_target_byte(#[trigger] h[i])
}

/// Checks a proxy target host and strips the brackets of `[host]`.
#[verifier::loop_isolation(false)]
pub fn validate_target_host(host: &str) -> (r: Result<String, String>)
    ensures
        valid_target_host(encode_utf8(host@)) ==> (r matches Ok(h) && encode_utf8(h@) == unbracket(
            encode_utf8(host@),
        )),
        !valid_target_host(encode_utf8(host@)) ==> (r matches Err(m) && m@
            == "invalid proxy target host"@),
{
    let b = str_bytes(host);
    let n = b.len();
    let h: &[u8] = if n >= 2 && b[0] == 91 && b[n - 1] == 93 {
        proof {
            lemma_ascii_delimited(b@, 1, n - 1);
        }
        &b[1..n - 1]
    } else {
        proof {
            lemma_ascii_delimited(b@, 0, n as int);
            assert(b@.subrange(0, n as int) =~= b@);
        }
        b
    };
    assert(h@ == unbracket(b@));
    if h.len() == 0 || h.len() > 255 {
        return Err("invalid proxy target host".to_string());
    }
    let mut i: usize = 0;
    while i < h.len()
        invariant
            i <= h@.len(),
            forall|j: int| 0 <= j < i ==> !forbidden_target_byte(#[trigger] h@[j]),
        decreases h@.len() - i,
    {
        let c = h[i];
        if c < 32 || c == 127 || c == 32 || c == 9 || c == 10 || c == 12 || c == 13 || c == 47 || c
            == 92 || c == 63 || c == 35 || c == 64 {
            assert(forbidden_target_byte(h@[i as int]));
            return Err("invalid proxy target host".to_string());
        }
        i = i + 1;
    }
    Ok(string_of(h))
}

/// The host as written in an HTTP `CONNECT` line: IPv6 addresses in
/// brackets.
pub fn format_target_host(host: &str) -> (r: String)
    ensures
        ipv6_text(encode_utf8(host@)) ==> encode_utf8(r@) == seq![91u8] + encode_utf8(host@) + seq![93u8],
        !ipv6_text(encode_utf8(host@)) ==> encode_utf8(r@) == encode_utf8(host@),
{
    let b = str_bytes(host);
    if is_ipv6_text(b) {
        let mut out: Vec<u8> = Vec::new();
        out.push(91);
        let mut i: usize = 0;
        while i < b.len()
            invariant
                i <= b@.len(),
                out@ == seq![91u8] + b@.subrange(0, i as int),
            decreases b@.len() - i,
        {
            out.push(b[i]);
            i = i + 1;
            assert(out@ =~= seq![91u8] + b@.subrange(0, i as int));
        }
        out.push(93);
        assert(out@ =~= seq![91u8] + b@ + seq![93u8]);
        proof {
            assert(valid_utf8(seq![91u8])) by {
                reveal_with_fuel(valid_utf8, 2);
            }
            assert(valid_utf8(seq![93u8])) by {
                reveal_with_fuel(valid_utf8, 2);
            }
            valid_utf8_concat(seq![91u8], b@);
            valid_utf8_concat(seq![91u8] + b@, seq![93u8]);
        }
        string_of(out.as_slice())
    } else {
        proof {
            lemma_ascii_delimited(b@, 0, b@.len() as int);
            assert(b@.subrange(0, b@.len() as int) =~= b@);
        }
        string_of(b)
    }
}

/// How a SOCKS5 connect request names its target: the address octets of an
/// IPv4 or IPv6 literal, or the host name itself, which the proxy resolves.
#[derive(Clone, Copy, Debug)]
pub enum Socks5Target {
    V4([u8; 4]),
    V6([u8; 16]),
    Name,
}

/// The target port in network byte order.
pub open spec fn port_bytes(port: u16) -> Seq<u8> {
    seq![(port / 256) as u8, (port % 256) as u8]
}

/// The SOCKS5 connect request for a target (version 5, CONNECT, reserved
/// byte, address type, address, port), or `None` where a host name is longer
/// than the one-byte length field allows.
pub open spec fn spec_socks5_request(host: Seq<u8>, target: Socks5Target, port: u16) -> Option<Seq<u8>> {
    let head = seq![5u8, 1u8, 0u8];
    match target {
        Socks5Target::V4(o) => Some(head + seq![1u8] + o@ + port_bytes(port)),
        Socks5Target::V6(o) => Some(head + seq![4u8] + o@ + port_bytes(port)),
        Socks5Target::Name => if host.len() > 255 {
            None
        } else {
            Some(head + seq![3u8, host.len() as u8] + host + port_bytes(port))
        },
    }
}

/// Builds the SOCKS5 connect request for `host:port`; `target` says whether
/// the host is an address literal (with its octets) or a name.
pub fn socks5_connect_request(host: &str, target: Socks5Target, port: u16) -> (r: Result<Vec<u8>, String>)
    ensures
        spec_socks5_request(encode_utf8(host@), target, port) matches Some(req) ==> (r matches Ok(v)
            && v@ == req),
        spec_socks5_request(encode_utf8(host@), target, port) is None ==> (r matches Err(m) && m@
            == "socks5 target host too long"@),
{
    let b = str_bytes(host);
    let mut req: Vec<u8> = Vec::new();
    req.push(5);
    req.push(1);
    req.push(0);
    match target {
        Socks5Target::V4(o) => {
            req.push(1);
            let mut i: usize = 0;
            while i < 4
                invariant
                    i <= 4,
                    req@ == seq![5u8, 1u8, 0u8, 1u8] + o@.subrange(0, i as int),
                decreases 4 - i,
            {
                req.push(o[i]);
                i = i + 1;
                assert(req@ =~= seq![5u8, 1u8, 0u8, 1u8] + o@.subrange(0, i as int));
            }
            assert(o@.subrange(0, 4) =~= o@);
        },
        Socks5Target::V6(o) => {
            req.push(4);
            let mut i: usize = 0;
            while i < 16
                invariant
                    i <= 16,
                    req@ == seq![5u8, 1u8, 0u8, 4u8] + o@.subrange(0, i as int),
                decreases 16 - i,
            {
                req.push(o[i]);
                i = i + 1;
                assert(req@ =~= seq![5u8, 1u8, 0u8, 4u8] + o@.subrange(0, i as int));
            }
            assert(o@.subrange(0, 16) =~= o@);
        },
        Socks5Target::Name => {
            if b.len() > 255 {
                return Err("socks5 target host too long".to_string());
            }
            req.push(3);
            req.push(b.len() as u8);
            let mut i: usize = 0;
            while i < b.len()
                invariant
                    i <= b@.len() <= 255,
                    req@ == seq![5u8, 1u8, 0u8, 3u8, b@.len() as u8] + b@.subrange(0, i as int),
                decreases b@.len() - i,
            {
                req.push(b[i]);
                i = i + 1;
                assert(req@ =~= seq![5u8, 1u8, 0u8, 3u8, b@.len() as u8] + b@.subrange(0, i as int));
            }
            assert(b@.subrange(0, b@.len() as int) =~= b@);
        },
    }
    let hi: u8 = (port / 256) as u8;
    let lo: u8 = (port % 256) as u8;
    req.push(hi);
    req.push(lo);
    proof {
        let head = seq![5u8, 1u8, 0u8];
        match target {
            Socks5Target::V4(o) => {
                assert(req@ =~= head + seq![1u8] + o@ + port_bytes(port));
            },
            Socks5Target::V6(o) => {
                assert(req@ =~= head + seq![4u8] + o@ + port_bytes(port));
            },
            Socks5Target::Name => {
                assert(req@ =~= head + seq![3u8, b@.len() as u8] + b@ + port_bytes(port));
            },
        }
    }
    Ok(req)
}

/// What follows the 4-byte header of a SOCKS5 connect reply: the bound
/// address to skip, by address type (IPv4: 6 bytes, IPv6: 18 bytes, domain:
/// a length byte first).
pub enum Socks5BindAddress {
    Fixed(usize),
    Domain,
}

/// Checks the header of a SOCKS5 connect reply (version 5, reserved byte
/// zero, status zero) and says how to skip the bound address.
pub fn socks5_reply_header(header: [u8; 4]) -> (r: Result<Socks5BindAddress, String>)
    ensures
        header[0] != 5 || header[2] != 0 ==> (r matches Err(m) && m@
            == "socks5 invalid version in response"@),
        header[0] == 5 && header[2] == 0 && header[1] != 0 ==> (r matches Err(m) && encode_utf8(m@)
            == socks5_status_prefix() + crate::http::decimal_bytes(header[1] as nat)),
        header[0] == 5 && header[2] == 0 && header[1] == 0 ==> match header[3] {
            1 => r matches Ok(Socks5BindAddress::Fixed(n)) && n == 6,
            4 => r matches Ok(Socks5BindAddress::Fixed(n)) && n == 18,
            3 => r matches Ok(Socks5BindAddress::Domain),
            _ => r matches Err(m) && m@ == "socks5 invalid address type in response"@,
        },
{
    if header[0] != 5 || header[2] != 0 {
        return Err("socks5 invalid version in response".to_string());
    }
    if header[1] != 0 {
        return Err(socks5_status_message(header[1]));
    }
    if header[3] == 1 {
        Ok(Socks5BindAddress::Fixed(6))
    } else if header[3] == 4 {
        Ok(Socks5BindAddress::Fixed(18))
    } else if header[3] == 3 {
        Ok(Socks5BindAddress::Domain)
    } else {
        Err("socks5 invalid address type in response".to_string())
    }
}

/// `socks5 connect failed: status ` as bytes.
pub open spec fn socks5_status_prefix() -> Seq<u8> {
    seq![115u8, 111, 99, 107, 115, 53, 32, 99, 111, 110, 110, 101, 99, 116, 32, 102, 97, 105, 108, 101, 100, 58, 32, 115, 116, 97, 116, 117, 115, 32]
}

proof fn lemma_decimal_ascii(n: nat)
    ensures
        forall|i: int| 0 <= i < crate::http::decimal_bytes(n).len() ==> #[trigger] crate::http::decimal_bytes(n)[i] < 128,
    decreases n,
{
    if n >= 10 {
        lemma_decimal_ascii(n / 10);
        let prev = crate::http::decimal_bytes(n / 10);
        let d = crate::http::decimal_bytes(n);
        assert(d == prev.push((48 + n % 10) as u8));
        assert forall|i: int| 0 <= i < d.len() implies #[trigger] d[i] < 128 by {
            if i < prev.len() {
                assert(d[i] == prev[i]);
            }
        }
    } else {
        assert(crate::http::decimal_bytes(n) == seq![(48 + n) as u8]);
    }
}

/// The message for a refused SOCKS5 connect: the prefix and the status in
/// decimal.
fn socks5_status_message(status: u8) -> (r: String)
    ensures
        encode_utf8(r@) == socks5_status_prefix() + crate::http::decimal_bytes(status as nat),
{
    let prefix: [u8; 30] = [115, 111, 99, 107, 115, 53, 32, 99, 111, 110, 110, 101, 99, 116, 32, 102, 97, 105, 108, 101, 100, 58, 32, 115, 116, 97, 116, 117, 115, 32];
    assert(prefix@ =~= socks5_status_prefix());
    let mut out: Vec<u8> = Vec::new();
    crate::http::push_all(&mut out, prefix.as_slice());
    crate::http::push_decimal_usize(&mut out, status as usize);
    proof {
        lemma_decimal_ascii(status as nat);
        let all = socks5_status_prefix() + crate::http::decimal_bytes(status as nat);
        assert(out@ =~= all);
        assert forall|i: int| 0 <= i < all.len() implies #[trigger] all[i] < 128 by {
            if i >= 30 {
                assert(all[i] == crate::http::decimal_bytes(status as nat)[i - 30]);
            }
        }
        crate::http::lemma_ascii_valid(all);
    }
    string_of(out.as_slice())
}

/// Whether the SOCKS5 method selection reply accepts "no authentication".
pub fn socks5_auth_accepted(reply: [u8; 2]) -> (r: bool)
    ensures
        r == (reply[0] == 5 && reply[1] == 0),
{
    reply[0] == 5 && reply[1] == 0
}

} // verus!

verus! {

// ---------------------------------------------------------------------
// The reply to an HTTP CONNECT
// ---------------------------------------------------------------------

/// How an HTTP proxy answered a CONNECT.
pub enum ConnectReply {
    /// Status 200: the tunnel is open.
    Open,
    /// The reply did not end in a blank line within the bytes read.
    TooLarge,
    /// Not UTF-8, or a status line without `HTTP/1.0` or `HTTP/1.1` and a
    /// three-byte status.
    Invalid,
    /// A three-byte status that is not a number.
    BadStatus,
    /// Another status.
    Refused(u16),
}

/// The status line of a reply: its text up to the first CRLF.
pub open spec fn status_line_of(resp: Seq<u8>) -> Seq<u8> {
    match crate::http::find_window(resp, crate::http::crlf(), 0) {
        Some(k) => resp.subrange(0, k),
        None => resp,
    }
}

/// How the reply `resp` (everything read up to its blank line, or up to
/// the reading limit) is taken.
pub open spec fn spec_connect_reply(resp: Seq<u8>) -> ConnectReply {
    if !(resp.len() >= 4 && resp.subrange(resp.len() - 4, resp.len() as int) == crate::http::crlfcrlf()) {
        ConnectReply::TooLarge
    } else if !valid_utf8(resp) {
        ConnectReply::Invalid
    } else {
        let line = decode_utf8(status_line_of(resp));
        let w1 = crate::http::first_word(line);
        let w2 = crate::http::first_word(crate::http::after_first_word(line));
        if (w1 != seq!['H', 'T', 'T', 'P', '/', '1', '.', '0'] && w1 != seq!['H', 'T', 'T', 'P', '/', '1', '.', '1'])
            || encode_utf8(w2).len() != 3 {
            ConnectReply::Invalid
        } else {
            match spec_parse_u16(encode_utf8(w2)) {
                None => ConnectReply::BadStatus,
                Some(s) => if s == 200 {
                    ConnectReply::Open
                } else {
                    ConnectReply::Refused(s)
                },
            }
        }
    }
}

/// `http proxy connect failed: status ` as bytes.
pub open spec fn connect_refused_prefix() -> Seq<u8> {
    seq![104u8, 116, 116, 112, 32, 112, 114, 111, 120, 121, 32, 99, 111, 110, 110, 101, 99, 116, 32, 102, 97, 105, 108, 101, 100, 58, 32, 115, 116, 97, 116, 117, 115, 32]
}

/// Checks an HTTP proxy's reply to CONNECT (see `spec_connect_reply`):
/// `Ok` when the tunnel is open, else the refusal's message.
pub fn check_connect_reply(resp: &[u8]) -> (r: Result<(), String>)
    ensures
        match spec_connect_reply(resp@) {
            ConnectReply::Open => r is Ok,
            ConnectReply::TooLarge => r matches Err(e) && e@ == "http proxy response too large"@,
            ConnectReply::Invalid => r matches Err(e) && e@ == "http proxy invalid response"@,
            ConnectReply::BadStatus => r matches Err(e) && e@ == "http proxy invalid status"@,
            ConnectReply::Refused(s) => r matches Err(e) && encode_utf8(e@) == connect_refused_prefix()
                + crate::http::decimal_bytes(s as nat),
        },
{
    let n = resp.len();
    let end: [u8; 4] = [13, 10, 13, 10];
    assert(end@ =~= crate::http::crlfcrlf());
    if n < 4 || !crate::http::bytes_equal(&resp[n - 4..n], end.as_slice()) {
        return Err("http proxy response too large".to_string());
    }
    let text = match crate::text::string_from_utf8(crate::text::bytes_to_vec(resp)) {
        Some(t) => t,
        None => {
            return Err("http proxy invalid response".to_string());
        },
    };
    let b = str_bytes(text.as_str());
    assert(b@ == resp@);
    let line_end = match crate::http::find_crlf(resp, 0) {
        Some(k) => k,
        None => n,
    };
    proof {
        crate::http::lemma_find_window(resp@, crate::http::crlf(), 0);
        if line_end < n {
            assert(resp@.subrange(line_end as int, line_end + 2)[0] == resp@[line_end as int]);
        }
        assert(resp@.subrange(0, line_end as int) =~= status_line_of(resp@)) by {
            if line_end == n {
                assert(resp@.subrange(0, n as int) =~= resp@);
            }
        }
        if line_end < n {
            assert(resp@[line_end as int] == 13);
        }
        lemma_ascii_delimited(resp@, 0, line_end as int);
    }
    let line = string_of(&resp[0..line_end]);
    proof {
        encode_utf8_decode_utf8(line@);
    }
    let cs = crate::text::chars_vec(line.as_str());
    proof {
        assert(cs@.subrange(0, cs@.len() as int) =~= cs@);
    }
    let (a1, b1) = crate::http::word_bounds(&cs, 0);
    let (a2, b2) = crate::http::word_bounds(&cs, b1);
    proof {
        assert(cs@.subrange(b1 as int, cs@.len() as int) == crate::http::after_first_word(cs@));
    }
    let w2 = crate::catalog::string_from(&cs[a2..b2]);
    let wb = str_bytes(w2.as_str());
    if !crate::http::is_http_version(&cs, a1, b1) || wb.len() != 3 {
        return Err("http proxy invalid response".to_string());
    }
    match parse_u16(wb) {
        None => Err("http proxy invalid status".to_string()),
        Some(s) => {
            if s == 200 {
                Ok(())
            } else {
                let prefix: [u8; 34] = [104, 116, 116, 112, 32, 112, 114, 111, 120, 121, 32, 99, 111, 110, 110, 101, 99, 116, 32, 102, 97, 105, 108, 101, 100, 58, 32, 115, 116, 97, 116, 117, 115, 32];
                assert(prefix@ =~= connect_refused_prefix());
                let mut out: Vec<u8> = Vec::new();
                crate::http::push_all(&mut out, prefix.as_slice());
                crate::http::push_decimal_usize(&mut out, s as usize);
                proof {
                    lemma_decimal_ascii(s as nat);
                    let all = connect_refused_prefix() + crate::http::decimal_bytes(s as nat);
                    assert(out@ =~= all);
                    assert forall|i: int| 0 <= i < all.len() implies #[trigger] all[i] < 128 by {
                        if i >= 34 {
                            assert(all[i] == crate::http::decimal_bytes(s as nat)[i - 34]);
                        }
                    }
                    crate::http::lemma_ascii_valid(all);
                }
                Err(string_of(out.as_slice()))
            }
        },
    }
}

} // verus!
