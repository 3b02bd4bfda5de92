use vstd::prelude::*;
use vstd::utf8::*;
use std::io::Read;
use std::sync::atomic::AtomicBool;
use std::time::{Duration, Instant};

use crate::text::{
    count_bytes, find_byte, find_first, ipv6_text, is_ascii_control, is_ascii_space, is_ipv6_text,
    lemma_ascii_delimited, lemma_find_first, lemma_find_last, parse_u16, rfind_byte, spec_parse_u16,
    str_bytes, string_of, chars_vec,
};

verus! {

/// Largest header block a response may have.
pub const MAX_HTTP_HEADER_BYTES: usize = 65536;

/// The transport of a URL.
#[derive(Clone, Copy, Debug, PartialEq, Eq, Structural)]
pub enum Scheme {
    Http,
    Https,
}

/// An `http` or `https` URL split into its parts.
#[derive(Debug)]
pub struct ParsedUrl {
    pub scheme: Scheme,
    pub host: String,
    pub port: u16,
    pub path: String,
}

/// A parsed URL as bytes: scheme, host, port and path.
pub type UrlModel = (Scheme, Seq<u8>, u16, Seq<u8>);

impl View for ParsedUrl {
    type V = UrlModel;

    open spec fn view(&self) -> UrlModel {
        (self.scheme, encode_utf8(self.host@), self.port, encode_utf8(self.path@))
    }
}

/// Why a URL was refused.
#[derive(Clone, Copy, Debug, PartialEq, Eq, Structural)]
pub enum UrlError {
    UnsupportedScheme,
    Invalid,
    InvalidPort,
}

/// The message reported for each refusal.
pub open spec fn url_message(e: UrlError) -> Seq<char> {
    match e {
        UrlError::UnsupportedScheme => "unsupported scheme"@,
        UrlError::Invalid => "invalid url"@,
        UrlError::InvalidPort => "invalid port"@,
    }
}

fn url_error(e: UrlError) -> (r: String)
    ensures
        r@ == url_message(e),
{
    match e {
        UrlError::UnsupportedScheme => "unsupported scheme".to_string(),
        UrlError::Invalid => "invalid url".to_string(),
        UrlError::InvalidPort => "invalid port".to_string(),
    }
}

/// `http://`
pub open spec fn http_prefix() -> Seq<u8> {
    seq![104u8, 116, 116, 112, 58, 47, 47]
}

/// `https://`
pub open spec fn https_prefix() -> Seq<u8> {
    seq![104u8, 116, 116, 112, 115, 58, 47, 47]
}

pub open spec fn starts_with(s: Seq<u8>, p: Seq<u8>) -> bool {
    s.len() >= p.len() && s.subrange(0, p.len() as int) == p
}

/// Where the authority of a URL ends: at the first `/`, `?` or `#`, or at
/// the end.
pub open spec fn authority_end(s: Seq<u8>) -> int
    decreases s.len(),
{
    if s.len() == 0 {
        0
    } else if s[0] == 47 || s[0] == 63 || s[0] == 35 {
        0
    } else {
        authority_end(s.drop_first()) + 1
    }
}

/// `s` up to its first `#`.
pub open spec fn before_fragment(s: Seq<u8>) -> Seq<u8> {
    match find_first(s, 35) {
        Some(i) => s.subrange(0, i),
        None => s,
    }
}

/// The request path for what follows the authority: `/` when nothing
/// does, a `/` before a bare query, else the text itself.
pub open spec fn url_path(suffix: Seq<u8>) -> Seq<u8> {
    if suffix.len() == 0 {
        seq![47u8]
    } else if suffix[0] == 63 {
        seq![47u8] + suffix
    } else {
        suffix
    }
}

/// A byte the authority may not hold.
pub open spec fn bad_authority_byte(c: u8) -> bool {
    is_ascii_control(c) || is_ascii_space(c) || c == 64 || c == 47 || c == 92 || c == 63 || c == 35
}

/// A byte the path may not hold.
pub open spec fn bad_path_byte(c: u8) -> bool {
    is_ascii_control(c) || c == 32
}

pub open spec fn default_port(scheme: Scheme) -> u16 {
    match scheme {
        Scheme::Http => 80,
        Scheme::Https => 443,
    }
}

/// The host and port of an authority (see `spec_parse_url`).
pub open spec fn spec_authority(hp: Seq<u8>, scheme: Scheme) -> Result<(Seq<u8>, u16), UrlError> {
    if hp[0] == 91 {
        let rest = hp.drop_first();
        match find_first(rest, 93) {
            None => Err(UrlError::Invalid),
            Some(e) => {
                let host = rest.subrange(0, e);
                let tail = rest.subrange(e + 1, rest.len() as int);
                if !ipv6_text(host) {
                    Err(UrlError::Invalid)
                } else if tail.len() == 0 {
                    Ok((host, default_port(scheme)))
                } else if tail[0] != 58 {
                    Err(UrlError::Invalid)
                } else {
                    match spec_parse_u16(tail.drop_first()) {
                        None => Err(UrlError::InvalidPort),
                        Some(p) => Ok((host, p)),
                    }
                }
            },
        }
    } else if find_first(hp, 91) is Some || find_first(hp, 93) is Some || crate::text::count_byte(hp, 58) > 1 {
        Err(UrlError::Invalid)
    } else {
        match crate::text::find_last(hp, 58) {
            Some(c) if c > 0 => match spec_parse_u16(hp.subrange(c + 1, hp.len() as int)) {
                None => Err(UrlError::InvalidPort),
                Some(p) => Ok((hp.subrange(0, c), p)),
            },
            _ => Ok((hp, default_port(scheme))),
        }
    }
}

/// The scheme of a URL and what follows its `://`.
pub open spec fn url_scheme(u: Seq<u8>) -> Option<(Scheme, Seq<u8>)> {
    if starts_with(u, http_prefix()) {
        Some((Scheme::Http, u.subrange(7, u.len() as int)))
    } else if starts_with(u, https_prefix()) {
        Some((Scheme::Https, u.subrange(8, u.len() as int)))
    } else {
        None
    }
}

/// The checks on an authority `hp` and a path: the authority must be
/// non-empty, without control bytes, whitespace, `@`, `\`; the path may
/// hold no control bytes or spaces; host and port come from
/// `spec_authority` and must be non-empty and non-zero.
pub open spec fn url_checked(scheme: Scheme, hp: Seq<u8>, path: Seq<u8>) -> Result<(Seq<u8>, u16), UrlError> {
    if hp.len() == 0 {
        Err(UrlError::Invalid)
    } else if (exists|i: int| 0 <= i < hp.len() && bad_authority_byte(#[trigger] hp[i])) || (exists|i: int|
        0 <= i < path.len() && bad_path_byte(#[trigger] path[i])) {
        Err(UrlError::Invalid)
    } else {
        match spec_authority(hp, scheme) {
            Err(e) => Err(e),
            Ok((host, port)) => if host.len() == 0 || port == 0 {
                Err(UrlError::Invalid)
            } else {
                Ok((host, port))
            },
        }
    }
}

/// A URL as `http://` or `https://`, an authority up to the first `/`,
/// `?` or `#`, and what follows without its fragment, which becomes the
/// path (see `url_path` and `url_checked`).
#[verifier::opaque]
pub open spec fn spec_parse_url(u: Seq<u8>) -> Result<UrlModel, UrlError> {
    match url_scheme(u) {
        None => Err(UrlError::UnsupportedScheme),
        Some((scheme, rest)) => {
            let ae = authority_end(rest);
            let hp = rest.subrange(0, ae);
            let path = url_path(before_fragment(rest.subrange(ae, rest.len() as int)));
            match url_checked(scheme, hp, path) {
                Err(e) => Err(e),
                Ok((host, port)) => Ok((scheme, host, port, path)),
            }
        },
    }
}

} // verus!

verus! {

/// Bytes below 128 are valid UTF-8.
pub proof fn lemma_ascii_valid(s: Seq<u8>)
    requires
        forall|i: int| 0 <= i < s.len() ==> #[trigger] s[i] < 128,
    ensures
        valid_utf8(s),
{
    assert(s.subrange(0, 0) =~= Seq::<u8>::empty());
    assert(partial_valid_utf8(s, 0));
    partial_valid_utf8_extend_ascii_block(s, 0, s.len() as int);
    assert(s.subrange(0, s.len() as int) =~= s);
}

/// What follows an ASCII byte of valid UTF-8 is valid UTF-8.
pub proof fn lemma_ascii_start(bytes: Seq<u8>, a: int)
    requires
        valid_utf8(bytes),
        0 <= a <= bytes.len(),
        a == bytes.len() || bytes[a] < 128,
    ensures
        valid_utf8(bytes.subrange(a, bytes.len() as int)),
{
    if a == bytes.len() {
        assert(bytes.subrange(a, a) =~= Seq::<u8>::empty());
        lemma_ascii_valid(Seq::<u8>::empty());
    } else {
        crate::text::lemma_split_at_ascii(bytes, a);
        let one = seq![bytes[a]];
        lemma_ascii_valid(one);
        valid_utf8_concat(one, bytes.subrange(a + 1, bytes.len() as int));
        assert(one + bytes.subrange(a + 1, bytes.len() as int) =~= bytes.subrange(a, bytes.len() as int));
    }
}

fn has_prefix(s: &[u8], prefix: &[u8]) -> (r: bool)
    ensures
        r == starts_with(s@, prefix@),
{
    if s.len() < prefix.len() {
        return false;
    }
    let mut i: usize = 0;
    while i < prefix.len()
        invariant
            i <= prefix@.len(),
            prefix@.len() <= s@.len(),
            forall|j: int| 0 <= j < i ==> s@[j] == prefix@[j],
        decreases prefix@.len() - i,
    {
        if s[i] != prefix[i] {
            assert(s@.subrange(0, prefix@.len() as int)[i as int] != prefix@[i as int]);
            return false;
        }
        i = i + 1;
    }
    assert(s@.subrange(0, prefix@.len() as int) =~= prefix@);
    true
}

proof fn lemma_authority_end(s: Seq<u8>)
    ensures
        0 <= authority_end(s) <= s.len(),
        forall|j: int| 0 <= j < authority_end(s) ==> !(s[j] == 47 || s[j] == 63 || s[j] == 35),
        authority_end(s) < s.len() ==> (s[authority_end(s)] == 47 || s[authority_end(s)] == 63 || s[authority_end(
            s,
        )] == 35),
    decreases s.len(),
{
    if s.len() > 0 && !(s[0] == 47 || s[0] == 63 || s[0] == 35) {
        lemma_authority_end(s.drop_first());
        assert forall|j: int| 0 <= j < authority_end(s) implies !(s[j] == 47 || s[j] == 63 || s[j] == 35) by {
            if j > 0 {
                assert(s[j] == s.drop_first()[j - 1]);
            }
        }
    }
}

#[verifier::loop_isolation(false)]
fn find_authority_end(s: &[u8]) -> (r: usize)
    ensures
        r == authority_end(s@),
{
    proof {
        lemma_authority_end(s@);
    }
    let mut i: usize = 0;
    while i < s.len()
        invariant
            i <= s@.len(),
            i <= authority_end(s@),
            forall|j: int| 0 <= j < i ==> !(s@[j] == 47 || s@[j] == 63 || s@[j] == 35),
        decreases s@.len() - i,
    {
        let c = s[i];
        if c == 47 || c == 63 || c == 35 {
            return i;
        }
        i = i + 1;
    }
    i
}

/// The host and port of an authority (see `spec_authority`), the host as
/// its start and end in `hp`.
#[verifier::loop_isolation(false)]
fn parse_authority(hp: &[u8], scheme: Scheme) -> (r: Result<(usize, usize, u16), UrlError>)
    requires
        hp@.len() > 0,
    ensures
        match spec_authority(hp@, scheme) {
            Ok((h, p)) => r matches Ok((a, b, port)) && a <= b <= hp@.len() && hp@.subrange(a as int, b as int)
                == h && port == p && (a == 0 || hp@[a - 1] < 128) && (b == hp@.len() || hp@[b as int] < 128),
            Err(e) => r == Err::<(usize, usize, u16), UrlError>(e),
        },
{
    let n = hp.len();
    let dport: u16 = match scheme {
        Scheme::Http => 80,
        Scheme::Https => 443,
    };
    if hp[0] == 91 {
        let rest = &hp[1..n];
        let e = match find_byte(rest, 93) {
            None => {
                return Err(UrlError::Invalid);
            },
            Some(e) => e,
        };
        proof {
            lemma_find_first(rest@, 93);
        }
        let host = &rest[0..e];
        let tail = &rest[e + 1..rest.len()];
        assert(rest@ =~= hp@.drop_first());
        if !is_ipv6_text(host) {
            return Err(UrlError::Invalid);
        }
        if tail.len() == 0 {
            assert(hp@.subrange(1, e + 1) =~= host@);
            return Ok((1, e + 1, dport));
        }
        if tail[0] != 58 {
            return Err(UrlError::Invalid);
        }
        assert(tail@.drop_first() =~= tail@.subrange(1, tail@.len() as int));
        match parse_u16(&tail[1..tail.len()]) {
            None => Err(UrlError::InvalidPort),
            Some(p) => {
                assert(hp@.subrange(1, e + 1) =~= host@);
                Ok((1, e + 1, p))
            },
        }
    } else {
        if find_byte(hp, 91).is_some() || find_byte(hp, 93).is_some() || count_bytes(hp, 58) > 1 {
            return Err(UrlError::Invalid);
        }
        match rfind_byte(hp, 58) {
            Some(c) => {
                proof {
                    lemma_find_last(hp@, 58);
                }
                if c > 0 {
                    match parse_u16(&hp[c + 1..n]) {
                        None => Err(UrlError::InvalidPort),
                        Some(p) => Ok((0, c, p)),
                    }
                } else {
                    assert(hp@.subrange(0, n as int) =~= hp@);
                    Ok((0, n, dport))
                }
            },
            None => {
                assert(hp@.subrange(0, n as int) =~= hp@);
                Ok((0, n, dport))
            },
        }
    }
}

fn check_url(scheme: Scheme, hp: &[u8], path: &[u8]) -> (r: Result<(usize, usize, u16), UrlError>)
    ensures
        match url_checked(scheme, hp@, path@) {
            Ok((h, p)) => r matches Ok((a, b, port)) && a <= b <= hp@.len() && hp@.subrange(a as int, b as int)
                == h && port == p && (a == 0 || hp@[a - 1] < 128) && (b == hp@.len() || hp@[b as int] < 128),
            Err(e) => r == Err::<(usize, usize, u16), UrlError>(e),
        },
{
    if hp.len() == 0 {
        return Err(UrlError::Invalid);
    }
    let mut i: usize = 0;
    while i < hp.len()
        invariant
            i <= hp@.len(),
            forall|j: int| 0 <= j < i ==> !bad_authority_byte(#[trigger] hp@[j]),
        decreases hp@.len() - i,
    {
        let c = hp[i];
        if c < 32 || c == 127 || c == 32 || c == 9 || c == 10 || c == 12 || c == 13 || c == 64 || c == 47
            || c == 92 || c == 63 || c == 35 {
            assert(bad_authority_byte(hp@[i as int]));
            return Err(UrlError::Invalid);
        }
        i = i + 1;
    }
    let mut i: usize = 0;
    while i < path.len()
        invariant
            i <= path@.len(),
            forall|j: int| 0 <= j < hp@.len() ==> !bad_authority_byte(#[trigger] hp@[j]),
            forall|j: int| 0 <= j < i ==> !bad_path_byte(#[trigger] path@[j]),
        decreases path@.len() - i,
    {
        let c = path[i];
        if c < 32 || c == 127 || c == 32 {
            assert(bad_path_byte(path@[i as int]));
            return Err(UrlError::Invalid);
        }
        i = i + 1;
    }
    let (a, b, port) = parse_authority(hp, scheme)?;
    if a == b || port == 0 {
        return Err(UrlError::Invalid);
    }
    Ok((a, b, port))
}

/// The path of a URL from what follows its authority (see `url_path`).
fn build_path(suffix: &[u8]) -> (r: Vec<u8>)
    requires
        valid_utf8(suffix@),
    ensures
        r@ == url_path(before_fragment(suffix@)),
        valid_utf8(r@),
{
    proof {
        lemma_find_first(suffix@, 35);
    }
    let sfx: &[u8] = match find_byte(suffix, 35) {
        Some(i) => {
            proof {
                lemma_ascii_delimited(suffix@, 0, i as int);
            }
            &suffix[0..i]
        },
        None => suffix,
    };
    assert(sfx@ == before_fragment(suffix@));
    let mut path: Vec<u8> = Vec::new();
    if sfx.len() == 0 || sfx[0] == 63 {
        path.push(47);
    }
    let mut k: usize = 0;
    let ghost base = path@;
    while k < sfx.len()
        invariant
            k <= sfx@.len(),
            path@ == base + sfx@.subrange(0, k as int),
        decreases sfx@.len() - k,
    {
        path.push(sfx[k]);
        k = k + 1;
        assert(path@ =~= base + sfx@.subrange(0, k as int));
    }
    assert(sfx@.subrange(0, k as int) =~= sfx@);
    assert(path@ =~= url_path(sfx@));
    proof {
        lemma_ascii_valid(base);
        valid_utf8_concat(base, sfx@);
    }
    path
}

/// Splits a URL into scheme, host, port and path (see `spec_parse_url`).
fn parse_url_bytes(u: &[u8]) -> (r: Result<ParsedUrl, UrlError>)
    requires
        valid_utf8(u@),
    ensures
        match spec_parse_url(u@) {
            Ok(m) => r matches Ok(p) && p@ == m,
            Err(e) => r matches Err(e2) && e2 == e,
        },
{
    proof {
        reveal(spec_parse_url);
    }
    let n = u.len();
    let http: [u8; 7] = [104, 116, 116, 112, 58, 47, 47];
    let https: [u8; 8] = [104, 116, 116, 112, 115, 58, 47, 47];
    assert(http@ =~= http_prefix());
    assert(https@ =~= https_prefix());
    let (scheme, start) = if has_prefix(u, http.as_slice()) {
        (Scheme::Http, 7usize)
    } else if has_prefix(u, https.as_slice()) {
        (Scheme::Https, 8usize)
    } else {
        return Err(UrlError::UnsupportedScheme);
    };
    let rest = &u[start..n];
    proof {
        assert(u@[start - 1] == 47);
        lemma_ascii_delimited(u@, start as int, n as int);
    }
    assert(url_scheme(u@) == Some((scheme, rest@)));
    let ae = find_authority_end(rest);
    proof {
        lemma_authority_end(rest@);
        lemma_ascii_delimited(rest@, 0, ae as int);
        lemma_ascii_start(rest@, ae as int);
    }
    let hp = &rest[0..ae];
    let path = build_path(&rest[ae..rest.len()]);
    let (a, b, port) = match check_url(scheme, hp, path.as_slice()) {
        Ok(t) => t,
        Err(e) => {
            return Err(e);
        },
    };
    proof {
        lemma_ascii_delimited(hp@, a as int, b as int);
    }
    let host = string_of(&hp[a..b]);
    let path_string = string_of(path.as_slice());
    Ok(ParsedUrl { scheme, host, port, path: path_string })
}

/// Splits an `http` or `https` URL into scheme, host, port and path (see
/// `spec_parse_url`), or says why it cannot.
pub fn parse_url(url: &str) -> (r: Result<ParsedUrl, String>)
    ensures
        match spec_parse_url(encode_utf8(url@)) {
            Ok(m) => r matches Ok(p) && p@ == m,
            Err(e) => r matches Err(s) && s@ == url_message(e),
        },
{
    match parse_url_bytes(str_bytes(url)) {
        Ok(p) => Ok(p),
        Err(e) => Err(url_error(e)),
    }
}

} // verus!

verus! {

// ---------------------------------------------------------------------
// Authorities, origins and redirects
// ---------------------------------------------------------------------

/// The decimal digits of `n`.
pub open spec fn decimal_bytes(n: nat) -> Seq<u8>
    decreases n,
{
    if n < 10 {
        seq![(48 + n) as u8]
    } else {
        decimal_bytes(n / 10).push((48 + n % 10) as u8)
    }
}

pub proof fn lemma_decimal_ascii(n: nat)
    ensures
        forall|i: int| 0 <= i < decimal_bytes(n).len() ==> #[trigger] decimal_bytes(n)[i] < 128,
    decreases n,
{
    if n >= 10 {
        lemma_decimal_ascii(n / 10);
        let d = decimal_bytes(n / 10);
        assert(decimal_bytes(n) == d.push((48 + n % 10) as u8));
        assert forall|i: int| 0 <= i < decimal_bytes(n).len() implies #[trigger] decimal_bytes(n)[i] < 128 by {
            if i < d.len() {
                assert(decimal_bytes(n)[i] == d[i]);
            }
        }
    }
}

fn push_decimal(out: &mut Vec<u8>, n: u16)
    ensures
        final(out)@ == old(out)@ + decimal_bytes(n as nat),
    decreases n,
{
    if n >= 10 {
        push_decimal(out, n / 10);
    }
    let ghost before = out@;
    out.push(48 + (n % 10) as u8);
    proof {
        if n >= 10 {
            assert(out@ =~= old(out)@ + decimal_bytes(n as nat));
        } else {
            assert(out@ =~= old(out)@ + decimal_bytes(n as nat));
        }
    }
}

/// `host[:port]` as a request names it: an IPv6 host in brackets, the port
/// only when it is not the scheme's default.
pub open spec fn authority_bytes(m: UrlModel) -> Seq<u8> {
    let host = if ipv6_text(m.1) {
        seq![91u8] + m.1 + seq![93u8]
    } else {
        m.1
    };
    if m.2 == default_port(m.0) {
        host
    } else {
        host + seq![58u8] + decimal_bytes(m.2 as nat)
    }
}

pub fn push_all(out: &mut Vec<u8>, s: &[u8])
    ensures
        final(out)@ == old(out)@ + s@,
{
    let mut i: usize = 0;
    while i < s.len()
        invariant
            i <= s@.len(),
            out@ == old(out)@ + s@.subrange(0, i as int),
        decreases s@.len() - i,
    {
        out.push(s[i]);
        i = i + 1;
        assert(out@ =~= old(out)@ + s@.subrange(0, i as int));
    }
    assert(s@.subrange(0, i as int) =~= s@);
}

fn authority_into(out: &mut Vec<u8>, parsed: &ParsedUrl)
    ensures
        final(out)@ == old(out)@ + authority_bytes(parsed@),
{
    let host = str_bytes(parsed.host.as_str());
    let v6 = is_ipv6_text(host);
    if v6 {
        out.push(91);
    }
    push_all(out, host);
    if v6 {
        out.push(93);
    }
    let dport: u16 = match parsed.scheme {
        Scheme::Http => 80,
        Scheme::Https => 443,
    };
    if parsed.port != dport {
        out.push(58);
        push_decimal(out, parsed.port);
    }
    proof {
        if v6 {
            if parsed.port != dport {
                assert(out@ =~= old(out)@ + authority_bytes(parsed@));
            } else {
                assert(out@ =~= old(out)@ + authority_bytes(parsed@));
            }
        } else {
            if parsed.port != dport {
                assert(out@ =~= old(out)@ + authority_bytes(parsed@));
            } else {
                assert(out@ =~= old(out)@ + authority_bytes(parsed@));
            }
        }
    }
}

proof fn lemma_authority_valid(m: UrlModel)
    requires
        valid_utf8(m.1),
    ensures
        valid_utf8(authority_bytes(m)),
{
    let br = seq![91u8];
    let cl = seq![93u8];
    let colon = seq![58u8];
    lemma_ascii_valid(br);
    lemma_ascii_valid(cl);
    lemma_ascii_valid(colon);
    lemma_decimal_ascii(m.2 as nat);
    lemma_ascii_valid(decimal_bytes(m.2 as nat));
    valid_utf8_concat(br, m.1);
    valid_utf8_concat(br + m.1, cl);
    let host = if ipv6_text(m.1) {
        br + m.1 + cl
    } else {
        m.1
    };
    valid_utf8_concat(host, colon);
    valid_utf8_concat(host + colon, decimal_bytes(m.2 as nat));
}

/// The authority of a parsed URL (see `authority_bytes`).
pub fn format_authority(parsed: &ParsedUrl) -> (r: String)
    ensures
        encode_utf8(r@) == authority_bytes(parsed@),
{
    let mut out: Vec<u8> = Vec::new();
    authority_into(&mut out, parsed);
    proof {
        encode_utf8_valid_utf8(parsed.host@);
        lemma_authority_valid(parsed@);
        assert(out@ =~= authority_bytes(parsed@));
    }
    string_of(out.as_slice())
}

/// `http` or `https`.
pub open spec fn scheme_name(s: Scheme) -> Seq<u8> {
    match s {
        Scheme::Http => seq![104u8, 116, 116, 112],
        Scheme::Https => seq![104u8, 116, 116, 112, 115],
    }
}

/// `://`
pub open spec fn scheme_sep() -> Seq<u8> {
    seq![58u8, 47, 47]
}

/// `scheme://authority`
pub open spec fn base_bytes(m: UrlModel) -> Seq<u8> {
    scheme_name(m.0) + scheme_sep() + authority_bytes(m)
}

/// The directory of a path: what precedes its last `/` when that is not
/// empty, else `/`; always ending in `/`.
pub open spec fn base_dir(path: Seq<u8>) -> Seq<u8> {
    let dir = match crate::text::find_last(path, 47) {
        Some(i) if i > 0 => path.subrange(0, i),
        _ => seq![47u8],
    };
    if dir.last() == 47 {
        dir
    } else {
        dir.push(47u8)
    }
}

/// Where a redirect's `Location` (already trimmed) points from the URL
/// `m`: nothing when empty; an absolute `http(s)://` location as is; a
/// network-path location with the current scheme; an absolute path on the
/// current origin; else a path relative to the current path's directory.
#[verifier::opaque]
pub open spec fn spec_resolve_location(m: UrlModel, loc: Seq<u8>) -> Option<Seq<u8>> {
    if loc.len() == 0 {
        None
    } else if starts_with(loc, http_prefix()) || starts_with(loc, https_prefix()) {
        Some(loc)
    } else if starts_with(loc, seq![47u8, 47]) {
        Some(scheme_name(m.0) + scheme_sep() + loc.subrange(2, loc.len() as int))
    } else if loc[0] == 47 {
        Some(base_bytes(m) + loc)
    } else {
        Some(base_bytes(m) + base_dir(m.3) + loc)
    }
}

fn missing_location() -> (r: String)
    ensures
        r@ == "http redirect missing location"@,
{
    "http redirect missing location".to_string()
}

proof fn lemma_base_valid(m: UrlModel)
    requires
        valid_utf8(m.1),
        valid_utf8(m.3),
    ensures
        valid_utf8(base_bytes(m)),
        valid_utf8(scheme_name(m.0) + scheme_sep()),
        valid_utf8(base_dir(m.3)),
{
    lemma_ascii_valid(scheme_name(m.0));
    lemma_ascii_valid(scheme_sep());
    valid_utf8_concat(scheme_name(m.0), scheme_sep());
    lemma_authority_valid(m);
    valid_utf8_concat(scheme_name(m.0) + scheme_sep(), authority_bytes(m));
    let path = m.3;
    let slash = seq![47u8];
    lemma_ascii_valid(slash);
    crate::text::lemma_find_last(path, 47);
    let dir = match crate::text::find_last(path, 47) {
        Some(i) if i > 0 => path.subrange(0, i),
        _ => slash,
    };
    if let Some(i) = crate::text::find_last(path, 47) {
        if i > 0 {
            crate::text::lemma_ascii_delimited(path, 0, i);
        }
    }
    valid_utf8_concat(dir, slash);
    assert(dir.push(47u8) =~= dir + slash);
}

/// Resolves a redirect's `Location` header against the URL it answered
/// (see `spec_resolve_location`); the location is trimmed first.
pub fn resolve_location(parsed: &ParsedUrl, location: &str) -> (r: Result<String, String>)
    ensures
        match spec_resolve_location(parsed@, encode_utf8(crate::text::trim_chars(location@))) {
            Some(u) => r matches Ok(s) && encode_utf8(s@) == u,
            None => r matches Err(e) && e@ == "http redirect missing location"@,
        },
{
    proof {
        reveal(spec_resolve_location);
    }
    let loc = str_bytes(crate::text::str_trim(location));
    let n = loc.len();
    if n == 0 {
        return Err(missing_location());
    }
    let http: [u8; 7] = [104, 116, 116, 112, 58, 47, 47];
    let https: [u8; 8] = [104, 116, 116, 112, 115, 58, 47, 47];
    assert(http@ =~= http_prefix());
    assert(https@ =~= https_prefix());
    if has_prefix(loc, http.as_slice()) || has_prefix(loc, https.as_slice()) {
        return Ok(string_of(loc));
    }
    proof {
        encode_utf8_valid_utf8(parsed.host@);
        encode_utf8_valid_utf8(parsed.path@);
        lemma_base_valid(parsed@);
    }
    let http_name: [u8; 4] = [104, 116, 116, 112];
    let https_name: [u8; 5] = [104, 116, 116, 112, 115];
    let sep: [u8; 3] = [58, 47, 47];
    let mut out: Vec<u8> = Vec::new();
    match parsed.scheme {
        Scheme::Http => {
            push_all(&mut out, http_name.as_slice());
        },
        Scheme::Https => {
            push_all(&mut out, https_name.as_slice());
        },
    }
    push_all(&mut out, sep.as_slice());
    assert(out@ =~= scheme_name(parsed@.0) + scheme_sep());
    if n >= 2 && loc[0] == 47 && loc[1] == 47 {
        let ghost head = out@;
        push_all(&mut out, &loc[2..n]);
        proof {
            assert(starts_with(loc@, seq![47u8, 47])) by {
                assert(loc@.subrange(0, 2) =~= seq![47u8, 47]);
            }
            crate::text::lemma_ascii_delimited(loc@, 2, n as int);
            valid_utf8_concat(head, loc@.subrange(2, n as int));
        }
        return Ok(string_of(out.as_slice()));
    }
    assert(!starts_with(loc@, seq![47u8, 47]));
    authority_into(&mut out, parsed);
    assert(out@ =~= base_bytes(parsed@));
    let ghost base = out@;
    if loc[0] == 47 {
        push_all(&mut out, loc);
        proof {
            valid_utf8_concat(base, loc@);
        }
        return Ok(string_of(out.as_slice()));
    }
    let path = str_bytes(parsed.path.as_str());
    proof {
        crate::text::lemma_find_last(path@, 47);
    }
    let slash: [u8; 1] = [47];
    let dir: &[u8] = match rfind_byte(path, 47) {
        Some(i) => if i > 0 {
            &path[0..i]
        } else {
            slash.as_slice()
        },
        None => slash.as_slice(),
    };
    assert(slash@ =~= seq![47u8]);
    push_all(&mut out, dir);
    if dir[dir.len() - 1] != 47 {
        out.push(47);
    }
    assert(out@ =~= base + base_dir(parsed@.3));
    let ghost mid = out@;
    push_all(&mut out, loc);
    proof {
        valid_utf8_concat(base, base_dir(parsed@.3));
        valid_utf8_concat(mid, loc@);
        assert(out@ =~= base_bytes(parsed@) + base_dir(parsed@.3) + loc@);
    }
    Ok(string_of(out.as_slice()))
}

} // verus!

verus! {

/// Both URLs parse, with the same scheme, the same host in any ASCII case,
/// and the same port.
pub open spec fn spec_same_origin(a: Seq<u8>, b: Seq<u8>) -> bool {
    match (spec_parse_url(a), spec_parse_url(b)) {
        (Ok(x), Ok(y)) => x.0 == y.0 && crate::storage::eq_ignore_case(x.1, y.1) && x.2 == y.2,
        _ => false,
    }
}

/// Whether two URLs share an origin (see `spec_same_origin`).
pub fn same_origin(first: &str, second: &str) -> (r: bool)
    ensures
        r == spec_same_origin(encode_utf8(first@), encode_utf8(second@)),
{
    let a = match parse_url(first) {
        Ok(p) => p,
        Err(_) => {
            return false;
        },
    };
    let b = match parse_url(second) {
        Ok(p) => p,
        Err(_) => {
            return false;
        },
    };
    a.scheme == b.scheme && crate::storage::eq_ignore_ascii_case(
        str_bytes(a.host.as_str()),
        str_bytes(b.host.as_str()),
    ) && a.port == b.port
}

/// Resolves a redirect location against a base URL (see `parse_url` and
/// `resolve_location`).
pub fn resolve_url(base: &str, location: &str) -> (r: Result<String, String>)
    ensures
        match spec_parse_url(encode_utf8(base@)) {
            Err(e) => r matches Err(s) && s@ == url_message(e),
            Ok(m) => match spec_resolve_location(m, encode_utf8(crate::text::trim_chars(location@))) {
                Some(u) => r matches Ok(s) && encode_utf8(s@) == u,
                None => r matches Err(e) && e@ == "http redirect missing location"@,
            },
        },
{
    let parsed = parse_url(base)?;
    resolve_location(&parsed, location)
}

/// Refuses a redirect from `https` to anything else.
pub fn validate_redirect_transport(current: Scheme, next: Scheme) -> (r: Result<(), String>)
    ensures
        (current == Scheme::Https && next != Scheme::Https) ==> (r matches Err(e) && e@
            == "https redirect downgrade refused"@),
        !(current == Scheme::Https && next != Scheme::Https) ==> r is Ok,
{
    if current == Scheme::Https && next != Scheme::Https {
        return Err("https redirect downgrade refused".to_string());
    }
    Ok(())
}

/// The statuses that redirect: 301, 302, 303, 307 and 308.
pub fn is_redirect(status: u16) -> (r: bool)
    ensures
        r == (status == 301 || status == 302 || status == 303 || status == 307 || status == 308),
{
    status == 301 || status == 302 || status == 303 || status == 307 || status == 308
}

/// ASCII lower case of each byte.
pub open spec fn lower_bytes(s: Seq<u8>) -> Seq<u8> {
    s.map_values(|c: u8| crate::storage::ascii_lower(c))
}

/// The first header from position `i` on whose name equals `name` in
/// lower case.
pub open spec fn find_header_from(headers: Seq<(Seq<u8>, Seq<u8>)>, name: Seq<u8>, i: int) -> Option<int>
    decreases headers.len() - i,
{
    if i < 0 || i >= headers.len() {
        None
    } else if headers[i].0 == lower_bytes(name) {
        Some(i)
    } else {
        find_header_from(headers, name, i + 1)
    }
}

/// The first header whose name equals `name` in lower case.
pub open spec fn find_header(headers: Seq<(Seq<u8>, Seq<u8>)>, name: Seq<u8>) -> Option<int> {
    find_header_from(headers, name, 0)
}

/// Headers as bytes.
pub open spec fn headers_view(h: Seq<(String, String)>) -> Seq<(Seq<u8>, Seq<u8>)> {
    h.map_values(|p: (String, String)| (encode_utf8(p.0@), encode_utf8(p.1@)))
}

pub fn lower_vec(s: &[u8]) -> (r: Vec<u8>)
    ensures
        r@ == lower_bytes(s@),
{
    let mut out: Vec<u8> = Vec::new();
    let mut i: usize = 0;
    while i < s.len()
        invariant
            i <= s@.len(),
            out@ == lower_bytes(s@.subrange(0, i as int)),
        decreases s@.len() - i,
    {
        let c = s[i];
        let l = if 65 <= c && c <= 90 {
            c + 32
        } else {
            c
        };
        out.push(l);
        i = i + 1;
        assert(out@ =~= lower_bytes(s@.subrange(0, i as int)));
    }
    assert(s@.subrange(0, i as int) =~= s@);
    out
}

pub fn bytes_equal(a: &[u8], b: &[u8]) -> (r: bool)
    ensures
        r == (a@ == b@),
{
    if a.len() != b.len() {
        return false;
    }
    let mut i: usize = 0;
    while i < a.len()
        invariant
            i <= a@.len(),
            a@.len() == b@.len(),
            forall|j: int| 0 <= j < i ==> a@[j] == b@[j],
        decreases a@.len() - i,
    {
        if a[i] != b[i] {
            return false;
        }
        i = i + 1;
    }
    assert(a@ =~= b@);
    true
}

/// The value of the first header whose name is `name` in lower case.
pub fn header_value_bytes(headers: &[(String, String)], name: &[u8]) -> (r: Option<String>)
    ensures
        match find_header(headers_view(headers@), name@) {
            Some(i) => r matches Some(v) && v@ == headers@[i].1@,
            None => r is None,
        },
{
    let lname = lower_vec(name);
    let ghost hv = headers_view(headers@);
    let mut i: usize = 0;
    while i < headers.len()
        invariant
            i <= headers@.len(),
            hv == headers_view(headers@),
            lname@ == lower_bytes(name@),
            find_header(hv, name@) == find_header_from(hv, name@, i as int),
        decreases headers@.len() - i,
    {
        let key = str_bytes(headers[i].0.as_str());
        if bytes_equal(key, lname.as_slice()) {
            return Some(headers[i].1.clone());
        }
        i = i + 1;
    }
    None
}

pub proof fn lemma_find_header(headers: Seq<(Seq<u8>, Seq<u8>)>, name: Seq<u8>, i: int)
    requires
        0 <= i,
    ensures
        find_header_from(headers, name, i) matches Some(k) ==> i <= k < headers.len() && headers[k].0
            == lower_bytes(name),
    decreases headers.len() - i,
{
    if i < headers.len() && headers[i].0 != lower_bytes(name) {
        lemma_find_header(headers, name, i + 1);
    }
}

/// The value of the first header named `name` in lower case.
pub fn header_value(headers: &[(String, String)], name: &str) -> (r: Option<String>)
    ensures
        match find_header(headers_view(headers@), encode_utf8(name@)) {
            Some(i) => r matches Some(v) && v@ == headers@[i].1@,
            None => r is None,
        },
{
    header_value_bytes(headers, str_bytes(name))
}

/// A byte of an HTTP token: ASCII letters and digits and `!#$%&'*+-.^_`|~`.
pub open spec fn token_byte(c: u8) -> bool {
    (48 <= c <= 57) || (65 <= c <= 90) || (97 <= c <= 122) || c == 33 || c == 35 || c == 36 || c == 37
        || c == 38 || c == 39 || c == 42 || c == 43 || c == 45 || c == 46 || c == 94 || c == 95 || c == 96
        || c == 124 || c == 126
}

/// A request header the library may send: a non-empty token name and a
/// value without CR, LF or NUL.
pub open spec fn header_ok(name: Seq<u8>, value: Seq<u8>) -> bool {
    &&& name.len() > 0
    &&& forall|i: int| 0 <= i < name.len() ==> token_byte(#[trigger] name[i])
    &&& forall|i: int| 0 <= i < value.len() ==> #[trigger] value[i] != 13 && value[i] != 10 && value[i] != 0
}

fn check_header(name: &[u8], value: &[u8]) -> (r: bool)
    ensures
        r == header_ok(name@, value@),
{
    if name.len() == 0 {
        return false;
    }
    let mut i: usize = 0;
    while i < name.len()
        invariant
            i <= name@.len(),
            forall|j: int| 0 <= j < i ==> token_byte(#[trigger] name@[j]),
        decreases name@.len() - i,
    {
        let c = name[i];
        if !((48 <= c && c <= 57) || (65 <= c && c <= 90) || (97 <= c && c <= 122) || c == 33 || c == 35
            || c == 36 || c == 37 || c == 38 || c == 39 || c == 42 || c == 43 || c == 45 || c == 46 || c
            == 94 || c == 95 || c == 96 || c == 124 || c == 126) {
            assert(!token_byte(name@[i as int]));
            return false;
        }
        i = i + 1;
    }
    let mut i: usize = 0;
    while i < value.len()
        invariant
            i <= value@.len(),
            forall|j: int| 0 <= j < i ==> #[trigger] value@[j] != 13 && value@[j] != 10 && value@[j] != 0,
        decreases value@.len() - i,
    {
        let c = value[i];
        if c == 13 || c == 10 || c == 0 {
            return false;
        }
        i = i + 1;
    }
    true
}

/// Refuses request headers that are not `header_ok`.
pub fn validate_headers(headers: &[(&str, String)]) -> (r: Result<(), String>)
    ensures
        (forall|i: int|
            0 <= i < headers@.len() ==> header_ok(
                encode_utf8((#[trigger] headers@[i]).0@),
                encode_utf8(headers@[i].1@),
            )) ==> r is Ok,
        !(forall|i: int|
            0 <= i < headers@.len() ==> header_ok(
                encode_utf8((#[trigger] headers@[i]).0@),
                encode_utf8(headers@[i].1@),
            )) ==> (r matches Err(e) && e@ == "invalid http header"@),
{
    let mut i: usize = 0;
    while i < headers.len()
        invariant
            i <= headers@.len(),
            forall|j: int|
                0 <= j < i ==> header_ok(encode_utf8((#[trigger] headers@[j]).0@), encode_utf8(headers@[j].1@)),
        decreases headers@.len() - i,
    {
        let (name, value) = &headers[i];
        if !check_header(str_bytes(name), str_bytes(value.as_str())) {
            return Err("invalid http header".to_string());
        }
        i = i + 1;
    }
    Ok(())
}

/// The memory one response of at most `max_body` body bytes may hold at
/// once: three copies of the body and two of the largest header block.
pub fn response_memory_budget(max_body: usize) -> (r: Option<usize>)
    ensures
        max_body * 3 + 2 * MAX_HTTP_HEADER_BYTES <= usize::MAX ==> r == Some((max_body * 3 + 2
            * MAX_HTTP_HEADER_BYTES) as usize),
        max_body * 3 + 2 * MAX_HTTP_HEADER_BYTES > usize::MAX ==> r is None,
{
    match max_body.checked_mul(3) {
        None => None,
        Some(t) => t.checked_add(2 * MAX_HTTP_HEADER_BYTES),
    }
}

/// The most bytes a response may take on the wire: twice the body limit and
/// the header limit, saturating.
pub fn response_wire_limit(max_body: usize) -> (r: usize)
    ensures
        r == (if max_body * 2 + MAX_HTTP_HEADER_BYTES > usize::MAX {
            usize::MAX as int
        } else {
            max_body * 2 + MAX_HTTP_HEADER_BYTES
        }),
{
    let doubled = match max_body.checked_mul(2) {
        Some(d) => d,
        None => usize::MAX,
    };
    doubled.saturating_add(MAX_HTTP_HEADER_BYTES)
}

// ---------------------------------------------------------------------
// Public addresses
// ---------------------------------------------------------------------

/// An IPv4 address (by its octets) that is globally routable: not
/// unspecified, broadcast, multicast, loopback, private, link-local,
/// `0.0.0.0/8`, reserved (`240.0.0.0/4`), shared (`100.64.0.0/10`), IETF
/// (`192.0.0.0/24`), documentation or benchmarking.
pub open spec fn public_ipv4(o: [u8; 4]) -> bool {
    let (a, b, c, d) = (o[0], o[1], o[2], o[3]);
    &&& !(a == 0 && b == 0 && c == 0 && d == 0)
    &&& !(a == 255 && b == 255 && c == 255 && d == 255)
    &&& !(224 <= a <= 239)
    &&& a != 127
    &&& a != 10
    &&& !(a == 172 && 16 <= b <= 31)
    &&& !(a == 192 && b == 168)
    &&& !(a == 169 && b == 254)
    &&& a != 0
    &&& a < 240
    &&& !(a == 100 && 64 <= b <= 127)
    &&& !(a == 192 && b == 0 && c == 0)
    &&& !(a == 192 && b == 0 && c == 2)
    &&& !(a == 198 && (b == 18 || b == 19))
    &&& !(a == 198 && b == 51 && c == 100)
    &&& !(a == 203 && b == 0 && c == 113)
}

/// An IPv6 address (by its segments) that is globally routable: an
/// IPv4-mapped address when its IPv4 address is; otherwise in `2000::/3`
/// but not `2001::/23`, documentation (`2001:db8::/32`), 6to4
/// (`2002::/16`) or `3ff0::/12`.
pub open spec fn public_ipv6(s: [u16; 8]) -> bool {
    if s[0] == 0 && s[1] == 0 && s[2] == 0 && s[3] == 0 && s[4] == 0 && s[5] == 0xffff {
        public_ipv4([(s[6] / 256) as u8, (s[6] % 256) as u8, (s[7] / 256) as u8, (s[7] % 256) as u8])
    } else {
        &&& 0x2000 <= s[0] <= 0x3fff
        &&& !(s[0] == 0x2001 && s[1] <= 0x01ff)
        &&& !(s[0] == 0x2001 && s[1] == 0x0db8)
        &&& s[0] != 0x2002
        &&& !(0x3ff0 <= s[0] <= 0x3fff)
    }
}

/// Whether an IPv4 address may be fetched from (see `public_ipv4`).
pub fn is_public_ipv4(o: [u8; 4]) -> (r: bool)
    ensures
        r == public_ipv4(o),
{
    let a = o[0];
    let b = o[1];
    let c = o[2];
    let d = o[3];
    !(a == 0 && b == 0 && c == 0 && d == 0) && !(a == 255 && b == 255 && c == 255 && d == 255) && !(224
        <= a && a <= 239) && a != 127 && a != 10 && !(a == 172 && 16 <= b && b <= 31) && !(a == 192 && b
        == 168) && !(a == 169 && b == 254) && a != 0 && a < 240 && !(a == 100 && 64 <= b && b <= 127)
        && !(a == 192 && b == 0 && c == 0) && !(a == 192 && b == 0 && c == 2) && !(a == 198 && (b == 18
        || b == 19)) && !(a == 198 && b == 51 && c == 100) && !(a == 203 && b == 0 && c == 113)
}

/// Whether an IPv6 address may be fetched from (see `public_ipv6`).
pub fn is_public_ipv6(s: [u16; 8]) -> (r: bool)
    ensures
        r == public_ipv6(s),
{
    if s[0] == 0 && s[1] == 0 && s[2] == 0 && s[3] == 0 && s[4] == 0 && s[5] == 0xffff {
        let o: [u8; 4] = [(s[6] / 256) as u8, (s[6] % 256) as u8, (s[7] / 256) as u8, (s[7] % 256) as u8];
        return is_public_ipv4(o);
    }
    0x2000 <= s[0] && s[0] <= 0x3fff && !(s[0] == 0x2001 && s[1] <= 0x01ff) && !(s[0] == 0x2001 && s[1]
        == 0x0db8) && s[0] != 0x2002 && !(0x3ff0 <= s[0] && s[0] <= 0x3fff)
}

} // verus!

verus! {

// ---------------------------------------------------------------------
// Responses
// ---------------------------------------------------------------------

pub open spec fn crlf() -> Seq<u8> {
    seq![13u8, 10]
}

pub open spec fn crlfcrlf() -> Seq<u8> {
    seq![13u8, 10, 13, 10]
}

/// The first position at or after `i` where the non-empty `p` occurs in
/// `d`.
pub open spec fn find_window(d: Seq<u8>, p: Seq<u8>, i: int) -> Option<int>
    decreases d.len() - i,
{
    if i < 0 || p.len() == 0 || i + p.len() > d.len() {
        None
    } else if d.subrange(i, i + p.len()) == p {
        Some(i)
    } else {
        find_window(d, p, i + 1)
    }
}

pub proof fn lemma_find_window(d: Seq<u8>, p: Seq<u8>, i: int)
    requires
        0 <= i,
        p.len() > 0,
    ensures
        find_window(d, p, i) matches Some(k) ==> i <= k && k + p.len() <= d.len() && d.subrange(k, k + p.len())
            == p && forall|j: int| i <= j < k ==> #[trigger] d.subrange(j, j + p.len()) != p,
        find_window(d, p, i) is None ==> forall|j: int|
            i <= j && j + p.len() <= d.len() ==> #[trigger] d.subrange(j, j + p.len()) != p,
    decreases d.len() - i,
{
    if i + p.len() <= d.len() && d.subrange(i, i + p.len()) != p {
        lemma_find_window(d, p, i + 1);
    }
}

/// Finds `p` in `d` from `start` on (see `find_window`).
pub fn find_bytes(d: &[u8], p: &[u8], start: usize) -> (r: Option<usize>)
    requires
        p@.len() > 0,
    ensures
        r matches Some(k) ==> find_window(d@, p@, start as int) == Some(k as int),
        r is None ==> find_window(d@, p@, start as int) is None,
{
    proof {
        lemma_find_window(d@, p@, start as int);
    }
    if start > d.len() || p.len() > d.len() - start {
        return None;
    }
    let mut i: usize = start;
    while i <= d.len() - p.len()
        invariant
            start <= i,
            p@.len() > 0,
            p@.len() <= d@.len(),
            i <= d@.len() - p@.len() + 1,
            find_window(d@, p@, start as int) == find_window(d@, p@, i as int),
        decreases d@.len() - i,
    {
        let mut k: usize = 0;
        let mut same = true;
        while k < p.len()
            invariant
                k <= p@.len(),
                i + p.len() <= d.len(),
                same == (forall|x: int| 0 <= x < k ==> d@[i + x] == p@[x]),
            decreases p@.len() - k,
        {
            if d[i + k] != p[k] {
                same = false;
            }
            k = k + 1;
        }
        if same {
            assert(d@.subrange(i as int, i + p@.len()) =~= p@);
            return Some(i);
        }
        assert(d@.subrange(i as int, i + p@.len()) != p@) by {
            let x = choose|x: int| 0 <= x < p@.len() && d@[i + x] != p@[x];
            assert(d@.subrange(i as int, i + p@.len())[x] != p@[x]);
        }
        i = i + 1;
    }
    None
}

/// Where the header block of a response ends: at the first blank line.
pub fn find_header_end(data: &[u8]) -> (r: Option<usize>)
    ensures
        r matches Some(k) ==> find_window(data@, crlfcrlf(), 0) == Some(k as int),
        r is None ==> find_window(data@, crlfcrlf(), 0) is None,
{
    let p: [u8; 4] = [13, 10, 13, 10];
    assert(p@ =~= crlfcrlf());
    find_bytes(data, p.as_slice(), 0)
}

/// The next CRLF at or after `start`.
pub fn find_crlf(data: &[u8], start: usize) -> (r: Option<usize>)
    ensures
        r matches Some(k) ==> find_window(data@, crlf(), start as int) == Some(k as int),
        r is None ==> find_window(data@, crlf(), start as int) is None,
{
    let p: [u8; 2] = [13, 10];
    assert(p@ =~= crlf());
    find_bytes(data, p.as_slice(), start)
}

/// The leading run of non-whitespace characters.
pub open spec fn take_token(s: Seq<char>) -> Seq<char>
    decreases s.len(),
{
    if s.len() == 0 || crate::text::is_unicode_whitespace(s[0]) {
        Seq::empty()
    } else {
        seq![s[0]] + take_token(s.drop_first())
    }
}

/// The first whitespace-separated word.
pub open spec fn first_word(s: Seq<char>) -> Seq<char> {
    take_token(crate::text::trim_start_chars(s))
}

/// What follows the first word.
pub open spec fn after_first_word(s: Seq<char>) -> Seq<char> {
    let t = crate::text::trim_start_chars(s);
    t.subrange(take_token(t).len() as int, t.len() as int)
}

/// The status of a status line: its first word must be `HTTP/1.0` or
/// `HTTP/1.1` and its second three bytes that parse as a `u16`.
pub open spec fn spec_parse_status(line: Seq<char>) -> Option<u16> {
    let w1 = first_word(line);
    let w2 = first_word(after_first_word(line));
    if w1 != seq!['H', 'T', 'T', 'P', '/', '1', '.', '0'] && w1 != seq!['H', 'T', 'T', 'P', '/', '1', '.', '1'] {
        None
    } else if w2.len() == 0 || encode_utf8(w2).len() != 3 {
        None
    } else {
        spec_parse_u16(encode_utf8(w2))
    }
}

proof fn lemma_take_token(s: Seq<char>)
    ensures
        take_token(s).len() <= s.len(),
        take_token(s) == s.subrange(0, take_token(s).len() as int),
        forall|i: int| 0 <= i < take_token(s).len() ==> !crate::text::is_unicode_whitespace(#[trigger] s[i]),
        take_token(s).len() < s.len() ==> crate::text::is_unicode_whitespace(s[take_token(s).len() as int]),
    decreases s.len(),
{
    if s.len() > 0 && !crate::text::is_unicode_whitespace(s[0]) {
        lemma_take_token(s.drop_first());
        assert(take_token(s) =~= s.subrange(0, take_token(s).len() as int));
        assert forall|i: int| 0 <= i < take_token(s).len() implies !crate::text::is_unicode_whitespace(
            #[trigger] s[i],
        ) by {
            if i > 0 {
                assert(s[i] == s.drop_first()[i - 1]);
            }
        }
    } else {
        assert(s.subrange(0, 0) =~= Seq::<char>::empty());
    }
}

proof fn lemma_trim_start(s: Seq<char>)
    ensures
        crate::text::trim_start_chars(s).len() <= s.len(),
        crate::text::trim_start_chars(s) == s.subrange(
            s.len() - crate::text::trim_start_chars(s).len(),
            s.len() as int,
        ),
        forall|i: int|
            0 <= i < s.len() - crate::text::trim_start_chars(s).len() ==> crate::text::is_unicode_whitespace(
                #[trigger] s[i],
            ),
        crate::text::trim_start_chars(s).len() > 0 ==> !crate::text::is_unicode_whitespace(
            crate::text::trim_start_chars(s)[0],
        ),
    decreases s.len(),
{
    if s.len() > 0 && crate::text::is_unicode_whitespace(s[0]) {
        lemma_trim_start(s.drop_first());
        assert forall|i: int|
            0 <= i < s.len() - crate::text::trim_start_chars(s).len() implies crate::text::is_unicode_whitespace(
            #[trigger] s[i],
        ) by {
            if i > 0 {
                assert(s[i] == s.drop_first()[i - 1]);
            }
        }
    } else {
        assert(s.subrange(0, s.len() as int) =~= s);
    }
}

fn is_ws(c: char) -> (r: bool)
    ensures
        r == crate::text::is_unicode_whitespace(c),
{
    let u = c as u32;
    (9 <= u && u <= 13) || u == 32 || u == 0x85 || u == 0xa0 || u == 0x1680 || (0x2000 <= u && u <= 0x200a)
        || u == 0x2028 || u == 0x2029 || u == 0x202f || u == 0x205f || u == 0x3000
}

/// Skips whitespace from `i`, then returns where the next word ends.
pub(crate) fn word_bounds(s: &Vec<char>, i: usize) -> (r: (usize, usize))
    requires
        i <= s@.len(),
    ensures
        i <= r.0 <= r.1 <= s@.len(),
        crate::text::trim_start_chars(s@.subrange(i as int, s@.len() as int)) == s@.subrange(
            r.0 as int,
            s@.len() as int,
        ),
        first_word(s@.subrange(i as int, s@.len() as int)) == s@.subrange(r.0 as int, r.1 as int),
        after_first_word(s@.subrange(i as int, s@.len() as int)) == s@.subrange(r.1 as int, s@.len() as int),
{
    let ghost rest = s@.subrange(i as int, s@.len() as int);
    let mut a = i;
    while a < s.len() && is_ws(s[a])
        invariant
            i <= a <= s@.len(),
            crate::text::trim_start_chars(rest) == crate::text::trim_start_chars(
                s@.subrange(a as int, s@.len() as int),
            ),
        decreases s@.len() - a,
    {
        assert(s@.subrange(a as int, s@.len() as int).drop_first() =~= s@.subrange(a + 1, s@.len() as int));
        a = a + 1;
    }
    assert(crate::text::trim_start_chars(s@.subrange(a as int, s@.len() as int)) == s@.subrange(
        a as int,
        s@.len() as int,
    ));
    let mut b = a;
    let ghost t = s@.subrange(a as int, s@.len() as int);
    while b < s.len() && !is_ws(s[b])
        invariant
            a <= b <= s@.len(),
            t == s@.subrange(a as int, s@.len() as int),
            take_token(t) == s@.subrange(a as int, b as int) + take_token(s@.subrange(b as int, s@.len() as int)),
        decreases s@.len() - b,
    {
        assert(s@.subrange(b as int, s@.len() as int).drop_first() =~= s@.subrange(b + 1, s@.len() as int));
        assert(s@.subrange(a as int, b + 1) =~= s@.subrange(a as int, b as int) + seq![s@[b as int]]);
        b = b + 1;
    }
    assert(take_token(s@.subrange(b as int, s@.len() as int)) =~= Seq::<char>::empty());
    assert(take_token(t) =~= s@.subrange(a as int, b as int));
    assert(t.subrange(b - a, t.len() as int) =~= s@.subrange(b as int, s@.len() as int));
    (a, b)
}

proof fn lemma_non_ascii_encoding(chars: Seq<char>, k: int)
    requires
        0 <= k < chars.len(),
        chars[k] as u32 > 127,
    ensures
        exists|j: int| 0 <= j < encode_utf8(chars).len() && #[trigger] encode_utf8(chars)[j] >= 128,
    decreases chars.len(),
{
    let c0 = chars[0] as u32;
    let e0 = encode_scalar(c0);
    assert(encode_utf8(chars) == e0 + encode_utf8(chars.drop_first()));
    if k == 0 {
        if has_width_2_encoding(c0) {
            assert(leading_byte_width_2(c0) >= 128) by (bit_vector);
        } else if has_width_3_encoding(c0) {
            assert(leading_byte_width_3(c0) >= 128) by (bit_vector);
        } else {
            assert(leading_byte_width_4(c0) >= 128) by (bit_vector);
        }
        assert(encode_utf8(chars)[0] >= 128);
    } else {
        lemma_non_ascii_encoding(chars.drop_first(), k - 1);
        let j = choose|j: int|
            0 <= j < encode_utf8(chars.drop_first()).len() && #[trigger] encode_utf8(chars.drop_first())[j] >= 128;
        assert(encode_utf8(chars)[e0.len() + j] >= 128);
    }
}

proof fn lemma_non_ascii_status(w: Seq<char>, k: int)
    requires
        0 <= k < w.len(),
        w[k] as u32 > 127,
    ensures
        encode_utf8(w).len() != 3 || spec_parse_u16(encode_utf8(w)) is None,
{
    lemma_non_ascii_encoding(w, k);
    let e = encode_utf8(w);
    let j = choose|j: int| 0 <= j < e.len() && #[trigger] e[j] >= 128;
    if e.len() == 3 {
        if e[0] == 43 {
            assert(e.drop_first()[j - 1] == e[j]);
            assert(!crate::text::is_ascii_digit(e.drop_first()[j - 1]));
        } else {
            assert(!crate::text::is_ascii_digit(e[j]));
        }
    }
}

/// Characters below 128 encode as themselves, one byte each.
pub proof fn lemma_ascii_encode(chars: Seq<char>)
    requires
        forall|i: int| 0 <= i < chars.len() ==> (#[trigger] chars[i]) as u32 <= 127,
    ensures
        encode_utf8(chars).len() == chars.len(),
        forall|i: int| 0 <= i < chars.len() ==> #[trigger] encode_utf8(chars)[i] == (chars[i] as u32) as u8,
    decreases chars.len(),
{
    if chars.len() > 0 {
        let c0 = chars[0] as u32;
        assert(c0 <= 127);
        assert(leading_byte_width_1(c0) == c0 as u8) by (bit_vector)
            requires
                c0 <= 127,
        ;
        assert(encode_scalar(c0) == seq![leading_byte_width_1(c0)]);
        assert(encode_utf8(chars) == encode_scalar(c0) + encode_utf8(chars.drop_first()));
        lemma_ascii_encode(chars.drop_first());
        assert forall|i: int| 0 <= i < chars.len() implies #[trigger] encode_utf8(chars)[i] == (chars[i] as u32) as u8 by {
            if i > 0 {
                assert(encode_utf8(chars)[i] == encode_utf8(chars.drop_first())[i - 1]);
                assert(chars[i] == chars.drop_first()[i - 1]);
            }
        }
    }
}

fn http_parse_error() -> (r: String)
    ensures
        r@ == "http parse error"@,
{
    "http parse error".to_string()
}

pub(crate) fn is_http_version(cs: &Vec<char>, a: usize, b: usize) -> (r: bool)
    requires
        a <= b <= cs@.len(),
    ensures
        r == (cs@.subrange(a as int, b as int) == seq!['H', 'T', 'T', 'P', '/', '1', '.', '0'] || cs@.subrange(
            a as int,
            b as int,
        ) == seq!['H', 'T', 'T', 'P', '/', '1', '.', '1']),
{
    let ghost w = cs@.subrange(a as int, b as int);
    let ghost v10 = seq!['H', 'T', 'T', 'P', '/', '1', '.', '0'];
    let ghost v11 = seq!['H', 'T', 'T', 'P', '/', '1', '.', '1'];
    if b - a != 8 {
        assert(w.len() != v10.len());
        return false;
    }
    let ok = cs[a] == 'H' && cs[a + 1] == 'T' && cs[a + 2] == 'T' && cs[a + 3] == 'P' && cs[a + 4] == '/'
        && cs[a + 5] == '1' && cs[a + 6] == '.' && (cs[a + 7] == '0' || cs[a + 7] == '1');
    proof {
        if ok {
            if cs@[a + 7] == '0' {
                assert(w =~= v10);
            } else {
                assert(w =~= v11);
            }
        } else {
            if w == v10 {
                assert(w[0] == v10[0] && w[1] == v10[1] && w[2] == v10[2] && w[3] == v10[3] && w[4] == v10[4]
                    && w[5] == v10[5] && w[6] == v10[6] && w[7] == v10[7]);
            }
            if w == v11 {
                assert(w[0] == v11[0] && w[1] == v11[1] && w[2] == v11[2] && w[3] == v11[3] && w[4] == v11[4]
                    && w[5] == v11[5] && w[6] == v11[6] && w[7] == v11[7]);
            }
        }
    }
    ok
}

/// The UTF-8 bytes of a word that is all ASCII; nothing for a word with
/// another character, which cannot be a status.
fn ascii_word_bytes(cs: &Vec<char>, a: usize, b: usize) -> (r: Option<Vec<u8>>)
    requires
        a <= b <= cs@.len(),
    ensures
        r matches Some(v) ==> v@ == encode_utf8(cs@.subrange(a as int, b as int)),
        r is None ==> (encode_utf8(cs@.subrange(a as int, b as int)).len() != 3 || spec_parse_u16(
            encode_utf8(cs@.subrange(a as int, b as int)),
        ) is None),
{
    let ghost w = cs@.subrange(a as int, b as int);
    let mut bytes: Vec<u8> = Vec::new();
    let mut k = a;
    while k < b
        invariant
            a <= k <= b,
            b <= cs@.len(),
            w == cs@.subrange(a as int, b as int),
            bytes@.len() == k - a,
            forall|x: int| 0 <= x < k - a ==> (#[trigger] w[x]) as u32 <= 127 && bytes@[x] == (w[x] as u32) as u8,
        decreases b - k,
    {
        let u = cs[k] as u32;
        assert(w[k - a] == cs@[k as int]);
        if u > 127 {
            proof {
                lemma_non_ascii_status(w, k - a);
            }
            return None;
        }
        bytes.push(u as u8);
        k = k + 1;
    }
    proof {
        lemma_ascii_encode(w);
        assert(bytes@ =~= encode_utf8(w));
    }
    Some(bytes)
}

/// The status code of a status line (see `spec_parse_status`).
pub fn parse_status(line: &str) -> (r: Result<u16, String>)
    ensures
        spec_parse_status(line@) matches Some(s) ==> r == Ok::<u16, String>(s),
        spec_parse_status(line@) is None ==> (r matches Err(e) && e@ == "http parse error"@),
{
    let cs = chars_vec(line);
    proof {
        assert(cs@.subrange(0, cs@.len() as int) =~= line@);
    }
    let (a1, b1) = word_bounds(&cs, 0);
    if !is_http_version(&cs, a1, b1) {
        return Err(http_parse_error());
    }
    let (a2, b2) = word_bounds(&cs, b1);
    if a2 == b2 {
        return Err(http_parse_error());
    }
    let bytes = match ascii_word_bytes(&cs, a2, b2) {
        Some(v) => v,
        None => {
            return Err(http_parse_error());
        },
    };
    if bytes.len() != 3 {
        return Err(http_parse_error());
    }
    match parse_u16(bytes.as_slice()) {
        Some(s) => Ok(s),
        None => Err(http_parse_error()),
    }
}

} // verus!

verus! {

/// `b` without leading and trailing whitespace, as `str::trim` leaves it.
pub open spec fn trim_bytes(b: Seq<u8>) -> Seq<u8> {
    encode_utf8(crate::text::trim_chars(decode_utf8(b)))
}

/// The trimmed text of `bytes` as a `String` (see `trim_bytes`).
pub fn trimmed(bytes: &[u8]) -> (r: String)
    requires
        valid_utf8(bytes@),
    ensures
        encode_utf8(r@) == trim_bytes(bytes@),
{
    let s = string_of(bytes);
    proof {
        encode_utf8_decode_utf8(s@);
    }
    crate::text::str_trim(s.as_str()).to_owned()
}

/// Replacing one ASCII byte of valid UTF-8 by another keeps it valid.
proof fn lemma_replace_ascii(s: Seq<u8>, p: int, c: u8)
    requires
        valid_utf8(s),
        0 <= p < s.len(),
        s[p] < 128,
        c < 128,
    ensures
        valid_utf8(s.update(p, c)),
{
    crate::text::lemma_split_at_ascii(s, p);
    let one = seq![c];
    lemma_ascii_valid(one);
    let left = s.subrange(0, p);
    let right = s.subrange(p + 1, s.len() as int);
    valid_utf8_concat(left, one);
    valid_utf8_concat(left + one, right);
    assert(left + one + right =~= s.update(p, c));
}

pub proof fn lemma_lower_valid(s: Seq<u8>, k: int)
    requires
        valid_utf8(s),
        0 <= k <= s.len(),
    ensures
        valid_utf8(lower_bytes(s.subrange(0, k)) + s.subrange(k, s.len() as int)),
    decreases k,
{
    if k == 0 {
        assert(lower_bytes(s.subrange(0, 0)) + s.subrange(0, s.len() as int) =~= s);
    } else {
        lemma_lower_valid(s, k - 1);
        let prev = lower_bytes(s.subrange(0, k - 1)) + s.subrange(k - 1, s.len() as int);
        let next = lower_bytes(s.subrange(0, k)) + s.subrange(k, s.len() as int);
        let c = s[k - 1];
        if 65 <= c <= 90 {
            lemma_replace_ascii(prev, k - 1, (c + 32) as u8);
            assert(next =~= prev.update(k - 1, (c + 32) as u8));
        } else {
            assert(next =~= prev);
        }
    }
}

/// `Content-Length`, lower case.
pub open spec fn content_length_name() -> Seq<u8> {
    seq![99u8, 111, 110, 116, 101, 110, 116, 45, 108, 101, 110, 103, 116, 104]
}

/// `Transfer-Encoding`, lower case.
pub open spec fn transfer_encoding_name() -> Seq<u8> {
    seq![116u8, 114, 97, 110, 115, 102, 101, 114, 45, 101, 110, 99, 111, 100, 105, 110, 103]
}

/// `chunked`
pub open spec fn chunked_name() -> Seq<u8> {
    seq![99u8, 104, 117, 110, 107, 101, 100]
}

/// The parts of `s` from `pos` on, split at each `sep`.
pub open spec fn split_from(s: Seq<u8>, sep: Seq<u8>, pos: int) -> Seq<Seq<u8>>
    decreases s.len() - pos,
{
    if pos < 0 || pos > s.len() || sep.len() == 0 {
        Seq::empty()
    } else {
        match find_window(s, sep, pos) {
            None => seq![s.subrange(pos, s.len() as int)],
            Some(i) => {
                proof {
                    lemma_find_window(s, sep, pos);
                }
                seq![s.subrange(pos, i)] + split_from(s, sep, i + sep.len())
            },
        }
    }
}

/// Whether some comma-separated part of a header value is `chunked` in
/// any ASCII case, once trimmed.
pub open spec fn has_chunked(value: Seq<u8>) -> bool {
    exists|i: int|
        0 <= i < split_from(value, seq![44u8], 0).len() && crate::storage::eq_ignore_case(
            trim_bytes(#[trigger] split_from(value, seq![44u8], 0)[i]),
            chunked_name(),
        )
}

/// The value of a decimal string as `str::parse::<usize>` takes it: an
/// optional `+`, then one or more digits whose value fits.
pub open spec fn spec_parse_usize(s: Seq<u8>) -> Option<usize> {
    let digits = if s.len() > 0 && s[0] == 43 {
        s.drop_first()
    } else {
        s
    };
    if digits.len() == 0 || !crate::text::all_decimal(digits) || crate::text::decimal_value(digits)
        > usize::MAX {
        None
    } else {
        Some(crate::text::decimal_value(digits) as usize)
    }
}

/// Headers read so far, the declared content length and whether the body
/// is chunked.
pub type HeaderState = (Seq<(Seq<u8>, Seq<u8>)>, Option<usize>, bool);

/// One header line: blank lines are skipped; a line needs a `:`; the name
/// is trimmed and lower-cased and must not be empty; the value is trimmed
/// and may hold no control bytes but tab. `content-length` must parse
/// and agree with an earlier one; `transfer-encoding` may make the body
/// chunked.
pub open spec fn header_step(st: HeaderState, line: Seq<u8>) -> Option<HeaderState> {
    if line.len() == 0 {
        Some(st)
    } else {
        match find_first(line, 58) {
            None => None,
            Some(c) => {
                let name = lower_bytes(trim_bytes(line.subrange(0, c)));
                let value = trim_bytes(line.subrange(c + 1, line.len() as int));
                if name.len() == 0 || exists|i: int|
                    0 <= i < value.len() && is_ascii_control(#[trigger] value[i]) && value[i] != 9 {
                    None
                } else {
                    let headers = st.0.push((name, value));
                    if name == content_length_name() {
                        match spec_parse_usize(value) {
                            None => None,
                            Some(n) => if st.1 matches Some(old) && old != n {
                                None
                            } else {
                                Some((headers, Some(n), st.2))
                            },
                        }
                    } else if name == transfer_encoding_name() && has_chunked(value) {
                        Some((headers, st.1, true))
                    } else {
                        Some((headers, st.1, st.2))
                    }
                }
            },
        }
    }
}

/// The header lines, in order.
pub open spec fn header_fold(lines: Seq<Seq<u8>>) -> Option<HeaderState>
    decreases lines.len(),
{
    if lines.len() == 0 {
        Some((Seq::empty(), None, false))
    } else {
        match header_fold(lines.drop_last()) {
            None => None,
            Some(st) => header_step(st, lines.last()),
        }
    }
}

/// Parses a decimal `usize` (see `spec_parse_usize`).
pub fn parse_usize(s: &[u8]) -> (r: Option<usize>)
    ensures
        r == spec_parse_usize(s@),
{
    let start: usize = if s.len() > 0 && s[0] == 43 {
        1
    } else {
        0
    };
    let ghost digits = if s@.len() > 0 && s@[0] == 43 {
        s@.drop_first()
    } else {
        s@
    };
    assert(digits =~= s@.subrange(start as int, s@.len() as int));
    if start == s.len() {
        return None;
    }
    let mut value: usize = 0;
    let mut i: usize = start;
    while i < s.len()
        invariant
            start <= i <= s@.len(),
            digits == s@.subrange(start as int, s@.len() as int),
            digits == (if s@.len() > 0 && s@[0] == 43 {
                s@.drop_first()
            } else {
                s@
            }),
            digits.len() > 0,
            crate::text::all_decimal(s@.subrange(start as int, i as int)),
            value == crate::text::decimal_value(s@.subrange(start as int, i as int)),
        decreases s@.len() - i,
    {
        let c = s[i];
        if c < 48 || c > 57 {
            assert(!crate::text::is_ascii_digit(digits[i - start]));
            return None;
        }
        assert(s@.subrange(start as int, i + 1).drop_last() =~= s@.subrange(start as int, i as int));
        let next = match value.checked_mul(10) {
            Some(v) => v.checked_add((c - 48) as usize),
            None => None,
        };
        match next {
            Some(v) => {
                value = v;
            },
            None => {
                proof {
                    assert(crate::text::all_decimal(s@.subrange(start as int, i + 1)));
                    if crate::text::all_decimal(digits) {
                        lemma_decimal_prefix(digits, i + 1 - start);
                        assert(digits.subrange(0, i + 1 - start) =~= s@.subrange(start as int, i + 1));
                    }
                }
                return None;
            },
        }
        i = i + 1;
    }
    assert(s@.subrange(start as int, i as int) =~= digits);
    Some(value)
}

proof fn lemma_decimal_prefix(s: Seq<u8>, k: int)
    requires
        0 <= k <= s.len(),
        crate::text::all_decimal(s),
    ensures
        crate::text::decimal_value(s.subrange(0, k)) <= crate::text::decimal_value(s),
    decreases s.len() - k,
{
    if k < s.len() {
        lemma_decimal_prefix(s, k + 1);
        assert(s.subrange(0, k + 1).drop_last() =~= s.subrange(0, k));
    } else {
        assert(s.subrange(0, k) =~= s);
    }
}

} // verus!

verus! {

/// Some part of `parts` is `chunked` once trimmed.
pub open spec fn any_chunked(parts: Seq<Seq<u8>>) -> bool {
    exists|i: int|
        0 <= i < parts.len() && crate::storage::eq_ignore_case(trim_bytes(#[trigger] parts[i]), chunked_name())
}

proof fn lemma_any_chunked_concat(a: Seq<Seq<u8>>, b: Seq<Seq<u8>>)
    ensures
        any_chunked(a + b) == (any_chunked(a) || any_chunked(b)),
{
    if any_chunked(a + b) {
        let i = choose|i: int|
            0 <= i < (a + b).len() && crate::storage::eq_ignore_case(trim_bytes(#[trigger] (a + b)[i]), chunked_name());
        if i < a.len() {
            assert(a[i] == (a + b)[i]);
        } else {
            assert(b[i - a.len()] == (a + b)[i]);
        }
    }
    if any_chunked(a) {
        let i = choose|i: int| 0 <= i < a.len() && crate::storage::eq_ignore_case(trim_bytes(#[trigger] a[i]), chunked_name());
        assert((a + b)[i] == a[i]);
    }
    if any_chunked(b) {
        let i = choose|i: int| 0 <= i < b.len() && crate::storage::eq_ignore_case(trim_bytes(#[trigger] b[i]), chunked_name());
        assert((a + b)[a.len() + i] == b[i]);
    }
}

/// Whether a header value names the chunked coding (see `has_chunked`).
fn has_chunked_exec(value: &[u8]) -> (r: bool)
    requires
        valid_utf8(value@),
    ensures
        r == has_chunked(value@),
{
    let comma: [u8; 1] = [44];
    let chunked: [u8; 7] = [99, 104, 117, 110, 107, 101, 100];
    assert(comma@ =~= seq![44u8]);
    assert(chunked@ =~= chunked_name());
    let ghost sep = seq![44u8];
    let ghost all = split_from(value@, sep, 0);
    let ghost mut done: Seq<Seq<u8>> = Seq::empty();
    assert(done + all =~= all);
    let mut pos: usize = 0;
    loop
        invariant
            pos <= value@.len(),
            pos == 0 || value@[pos - 1] == 44,
            valid_utf8(value@),
            sep == seq![44u8],
            has_chunked(value@) == any_chunked(all),
            all == done + split_from(value@, sep, pos as int),
            !any_chunked(done),
            comma@ == sep,
            chunked@ == chunked_name(),
        decreases value@.len() - pos,
    {
        proof {
            lemma_find_window(value@, sep, pos as int);
        }
        let end = match find_bytes(value, comma.as_slice(), pos) {
            Some(k) => k,
            None => value.len(),
        };
        proof {
            if end < value@.len() {
                assert(value@.subrange(end as int, end + 1)[0] == value@[end as int]);
                assert(value@[end as int] == 44);
            }
            crate::text::lemma_ascii_delimited(value@, pos as int, end as int);
        }
        let part = trimmed(&value[pos..end]);
        let hit = crate::storage::eq_ignore_ascii_case(str_bytes(part.as_str()), chunked.as_slice());
        let ghost p = value@.subrange(pos as int, end as int);
        if hit {
            proof {
                let rest = split_from(value@, sep, pos as int);
                assert(rest[0] == p);
                assert(any_chunked(rest));
                lemma_any_chunked_concat(done, rest);
            }
            return true;
        }
        if end == value.len() {
            proof {
                let rest = split_from(value@, sep, pos as int);
                assert(rest =~= seq![p]);
                assert(!any_chunked(rest));
                lemma_any_chunked_concat(done, rest);
            }
            return false;
        }
        proof {
            let rest = split_from(value@, sep, pos as int);
            assert(rest == seq![p] + split_from(value@, sep, end + 1));
            lemma_any_chunked_concat(done, seq![p]);
            assert(done + rest =~= done.push(p) + split_from(value@, sep, end + 1));
            assert(!any_chunked(seq![p]));
            assert(done + seq![p] =~= done.push(p));
            done = done.push(p);
        }
        pos = end + 1;
    }
}

/// Headers read so far, the declared content length and whether the body
/// is chunked.
struct HeaderAcc {
    headers: Vec<(String, String)>,
    content_length: Option<usize>,
    chunked: bool,
}

impl View for HeaderAcc {
    type V = HeaderState;

    closed spec fn view(&self) -> HeaderState {
        (headers_view(self.headers@), self.content_length, self.chunked)
    }
}

/// Applies one header line (see `header_step`); false when it is refused.
#[verifier::rlimit(30)]
#[verifier::loop_isolation(false)]
fn header_step_exec(acc: &mut HeaderAcc, line: &[u8]) -> (ok: bool)
    requires
        valid_utf8(line@),
    ensures
        match header_step(old(acc)@, line@) {
            Some(st) => ok && final(acc)@ == st,
            None => !ok,
        },
{
    if line.len() == 0 {
        return true;
    }
    let c = match find_byte(line, 58) {
        None => {
            return false;
        },
        Some(c) => c,
    };
    proof {
        lemma_find_first(line@, 58);
        crate::text::lemma_ascii_delimited(line@, 0, c as int);
        crate::text::lemma_ascii_delimited(line@, c + 1, line@.len() as int);
    }
    let name_t = trimmed(&line[0..c]);
    let name_b = lower_vec(str_bytes(name_t.as_str()));
    let value = trimmed(&line[c + 1..line.len()]);
    let vb = str_bytes(value.as_str());
    let ghost name_s = lower_bytes(trim_bytes(line@.subrange(0, c as int)));
    let ghost value_s = trim_bytes(line@.subrange(c + 1, line@.len() as int));
    assert(name_b@ == name_s);
    assert(vb@ == value_s);
    if name_b.len() == 0 {
        return false;
    }
    let mut i: usize = 0;
    while i < vb.len()
        invariant
            i <= vb@.len(),
            forall|j: int| 0 <= j < i ==> !(is_ascii_control(#[trigger] vb@[j]) && vb@[j] != 9),
        decreases vb@.len() - i,
    {
        let b = vb[i];
        if (b < 32 || b == 127) && b != 9 {
            assert(is_ascii_control(vb@[i as int]) && vb@[i as int] != 9);
            return false;
        }
        i = i + 1;
    }
    proof {
        encode_utf8_valid_utf8(name_t@);
        lemma_lower_valid(encode_utf8(name_t@), encode_utf8(name_t@).len() as int);
        assert(lower_bytes(encode_utf8(name_t@).subrange(0, encode_utf8(name_t@).len() as int)) + encode_utf8(
            name_t@,
        ).subrange(encode_utf8(name_t@).len() as int, encode_utf8(name_t@).len() as int) =~= name_b@);
    }
    let name = string_of(name_b.as_slice());
    let cl: [u8; 14] = [99, 111, 110, 116, 101, 110, 116, 45, 108, 101, 110, 103, 116, 104];
    let te: [u8; 17] = [116, 114, 97, 110, 115, 102, 101, 114, 45, 101, 110, 99, 111, 100, 105, 110, 103];
    assert(cl@ =~= content_length_name());
    assert(te@ =~= transfer_encoding_name());
    let ghost before = acc.headers@;
    if bytes_equal(name_b.as_slice(), cl.as_slice()) {
        let n = match parse_usize(vb) {
            None => {
                return false;
            },
            Some(n) => n,
        };
        if let Some(old) = acc.content_length {
            if old != n {
                return false;
            }
        }
        acc.headers.push((name, value));
        acc.content_length = Some(n);
    } else {
        let chunk = bytes_equal(name_b.as_slice(), te.as_slice()) && has_chunked_exec(vb);
        acc.headers.push((name, value));
        if chunk {
            acc.chunked = true;
        }
    }
    proof {
        assert(headers_view(acc.headers@) =~= headers_view(before).push((name_s, value_s)));
    }
    true
}

} // verus!

verus! {

/// The value of a string of hexadecimal digits.
pub open spec fn hex_value(s: Seq<u8>) -> nat
    decreases s.len(),
{
    if s.len() == 0 {
        0
    } else {
        hex_value(s.drop_last()) * 16 + hex_digit(s.last())
    }
}

pub open spec fn hex_digit(c: u8) -> nat {
    if 48 <= c <= 57 {
        (c - 48) as nat
    } else if 97 <= c <= 102 {
        (c - 87) as nat
    } else {
        (c - 55) as nat
    }
}

pub open spec fn all_hex(s: Seq<u8>) -> bool {
    forall|i: int| 0 <= i < s.len() ==> crate::text::is_ascii_hex(#[trigger] s[i])
}

/// `usize::from_str_radix(s, 16)`: an optional `+`, then one or more
/// hexadecimal digits whose value fits.
pub open spec fn spec_parse_hex(s: Seq<u8>) -> Option<usize> {
    let digits = if s.len() > 0 && s[0] == 43 {
        s.drop_first()
    } else {
        s
    };
    if digits.len() == 0 || !all_hex(digits) || hex_value(digits) > usize::MAX {
        None
    } else {
        Some(hex_value(digits) as usize)
    }
}

proof fn lemma_hex_lower(d: Seq<u8>)
    ensures
        all_hex(d) == all_hex(lower_bytes(d)),
        all_hex(d) ==> hex_value(d) == hex_value(lower_bytes(d)),
    decreases d.len(),
{
    let l = lower_bytes(d);
    assert forall|i: int| 0 <= i < d.len() implies crate::text::is_ascii_hex(#[trigger] d[i])
        == crate::text::is_ascii_hex(l[i]) by {
        assert(l[i] == crate::storage::ascii_lower(d[i]));
    }
    if all_hex(d) != all_hex(l) {
        if all_hex(d) {
            let i = choose|i: int| 0 <= i < l.len() && !crate::text::is_ascii_hex(#[trigger] l[i]);
            assert(crate::text::is_ascii_hex(d[i]));
        } else {
            let i = choose|i: int| 0 <= i < d.len() && !crate::text::is_ascii_hex(#[trigger] d[i]);
            assert(crate::text::is_ascii_hex(l[i]));
        }
    }
    if d.len() > 0 && all_hex(d) {
        let p = d.drop_last();
        assert(lower_bytes(p) =~= l.drop_last());
        assert forall|i: int| 0 <= i < p.len() implies crate::text::is_ascii_hex(#[trigger] p[i]) by {
            assert(p[i] == d[i]);
        }
        lemma_hex_lower(p);
        let c = d.last();
        assert(crate::text::is_ascii_hex(d[d.len() - 1]));
        assert(l.last() == crate::storage::ascii_lower(c));
        assert(hex_digit(c) == hex_digit(crate::storage::ascii_lower(c)));
    }
}

/// Hexadecimal is read in any case: a text and its ASCII lower-case form
/// have the same value (so `A` to `F` count 10 to 15 as `a` to `f` do).
pub proof fn lemma_parse_hex_ignores_case(s: Seq<u8>)
    ensures
        spec_parse_hex(s) == spec_parse_hex(lower_bytes(s)),
{
    let l = lower_bytes(s);
    if s.len() > 0 {
        assert(l[0] == crate::storage::ascii_lower(s[0]));
        assert(s.drop_first().map_values(|c: u8| crate::storage::ascii_lower(c)) =~= l.drop_first());
        lemma_hex_lower(s.drop_first());
    }
    lemma_hex_lower(s);
}

/// The digit characters `0` to `9` and `a` to `f`, in order.
pub open spec fn hex_char(i: int) -> u8 {
    if i < 10 {
        (48 + i) as u8
    } else {
        (87 + i) as u8
    }
}

/// Each hexadecimal digit alone stands for its place among `0123456789abcdef`,
/// and a digit appended to a number multiplies it by 16 and adds its own
/// value.
pub proof fn lemma_parse_hex_positional(s: Seq<u8>, c: u8)
    ensures
        forall|i: int| 0 <= i < 16 ==> spec_parse_hex(seq![#[trigger] hex_char(i)]) == Some(i as usize),
        (s.len() > 0 && s[0] != 43 && spec_parse_hex(s.push(c)) is Some) ==> ({
            &&& spec_parse_hex(s) is Some
            &&& spec_parse_hex(seq![c]) is Some
            &&& spec_parse_hex(s.push(c))->Some_0 == spec_parse_hex(s)->Some_0 * 16 + spec_parse_hex(seq![c])->Some_0
        }),
{
    assert forall|i: int| 0 <= i < 16 implies spec_parse_hex(seq![#[trigger] hex_char(i)]) == Some(i as usize) by {
        let t = seq![hex_char(i)];
        assert(t.drop_last() =~= Seq::<u8>::empty());
        assert(t.last() == hex_char(i));
        assert(hex_digit(hex_char(i)) == i);
        assert(hex_value(t) == hex_value(t.drop_last()) * 16 + hex_digit(t.last()));
        assert(hex_value(t) == i);
        assert(all_hex(t));
        assert(t[0] != 43);
    }
    if s.len() > 0 && s[0] != 43 && spec_parse_hex(s.push(c)) is Some {
        let t = s.push(c);
        assert(t[0] == s[0]);
        assert(t.drop_last() =~= s);
        assert forall|i: int| 0 <= i < s.len() implies crate::text::is_ascii_hex(#[trigger] s[i]) by {
            assert(t[i] == s[i]);
        }
        assert(crate::text::is_ascii_hex(t[t.len() - 1]));
        let one = seq![c];
        assert(one.drop_last() =~= Seq::<u8>::empty());
        assert(one.last() == c);
        assert(all_hex(one));
        assert(hex_value(one) == hex_value(one.drop_last()) * 16 + hex_digit(one.last()));
        assert(hex_value(one) == hex_digit(c));
        assert(hex_digit(c) <= 15);
        assert(hex_value(t) == hex_value(t.drop_last()) * 16 + hex_digit(t.last()));
        assert(hex_value(t) == hex_value(s) * 16 + hex_digit(c));
        assert(one[0] == c);
        if c == 43 {
            assert(false);
        }
    }
}

proof fn lemma_hex_prefix(s: Seq<u8>, k: int)
    requires
        0 <= k <= s.len(),
    ensures
        hex_value(s.subrange(0, k)) <= hex_value(s),
    decreases s.len() - k,
{
    if k < s.len() {
        lemma_hex_prefix(s, k + 1);
        assert(s.subrange(0, k + 1).drop_last() =~= s.subrange(0, k));
    } else {
        assert(s.subrange(0, k) =~= s);
    }
}

/// Parses a hexadecimal `usize` (see `spec_parse_hex`).
#[verifier::rlimit(40)]
pub fn parse_hex(s: &[u8]) -> (r: Option<usize>)
    ensures
        r == spec_parse_hex(s@),
{
    let start: usize = if s.len() > 0 && s[0] == 43 {
        1
    } else {
        0
    };
    let ghost digits = if s@.len() > 0 && s@[0] == 43 {
        s@.drop_first()
    } else {
        s@
    };
    assert(digits =~= s@.subrange(start as int, s@.len() as int));
    if start == s.len() {
        return None;
    }
    let mut value: usize = 0;
    let mut i: usize = start;
    while i < s.len()
        invariant
            start <= i <= s@.len(),
            digits == s@.subrange(start as int, s@.len() as int),
            digits == (if s@.len() > 0 && s@[0] == 43 {
                s@.drop_first()
            } else {
                s@
            }),
            digits.len() > 0,
            forall|j: int| start <= j < i ==> crate::text::is_ascii_hex(#[trigger] s@[j]),
            value == hex_value(s@.subrange(start as int, i as int)),
        decreases s@.len() - i,
    {
        let c = s[i];
        let d: usize = if 48 <= c && c <= 57 {
            (c - 48) as usize
        } else if 97 <= c && c <= 102 {
            (c - 87) as usize
        } else if 65 <= c && c <= 70 {
            (c - 55) as usize
        } else {
            assert(!crate::text::is_ascii_hex(digits[i - start]));
            assert(!all_hex(digits));
            return None;
        };
        assert(s@.subrange(start as int, i + 1).drop_last() =~= s@.subrange(start as int, i as int));
        let next = match value.checked_mul(16) {
            Some(v) => v.checked_add(d),
            None => None,
        };
        match next {
            Some(v) => {
                value = v;
            },
            None => {
                proof {
                    assert(hex_digit(c) == d);
                    assert(hex_value(s@.subrange(start as int, i + 1)) == value * 16 + d);
                    lemma_hex_prefix(digits, i + 1 - start);
                    assert(digits.subrange(0, i + 1 - start) =~= s@.subrange(start as int, i + 1));
                }
                return None;
            },
        }
        i = i + 1;
    }
    assert(s@.subrange(start as int, i as int) =~= digits);
    Some(value)
}

/// `s` up to its first `;`.
pub open spec fn before_semicolon(s: Seq<u8>) -> Seq<u8> {
    match find_first(s, 59) {
        Some(i) => s.subrange(0, i),
        None => s,
    }
}

/// The body of a chunked transfer from `pos` on: chunks of a hexadecimal
/// size line (extensions after `;` ignored) and that many bytes and CRLF,
/// ended by a zero-size chunk followed by CRLF or, later, a blank line.
pub open spec fn spec_chunked(body: Seq<u8>, pos: int) -> Option<Seq<u8>>
    decreases body.len() - pos,
{
    if pos < 0 || pos > body.len() {
        None
    } else {
        match find_window(body, crlf(), pos) {
            None => None,
            Some(le) => {
                let line = body.subrange(pos, le);
                if !valid_utf8(line) {
                    None
                } else {
                    match spec_parse_hex(trim_bytes(before_semicolon(line))) {
                        None => None,
                        Some(size) => {
                            proof {
                                lemma_find_window(body, crlf(), pos);
                            }
                            let p2 = le + 2;
                            if size == 0 {
                                if (p2 + 2 <= body.len() && body.subrange(p2, p2 + 2) == crlf()) || find_window(
                                    body,
                                    crlfcrlf(),
                                    p2,
                                ) is Some {
                                    Some(Seq::empty())
                                } else {
                                    None
                                }
                            } else {
                                let end = p2 + size;
                                if end > usize::MAX || end + 2 > body.len() || body[end] != 13 || body[end + 1]
                                    != 10 {
                                    None
                                } else {
                                    match spec_chunked(body, end + 2) {
                                        None => None,
                                        Some(rest) => Some(body.subrange(p2, end) + rest),
                                    }
                                }
                            }
                        },
                    }
                }
            },
        }
    }
}

/// Decodes a chunked body (see `spec_chunked`).
#[verifier::rlimit(100)]
#[verifier::spinoff_prover]
pub fn decode_chunked(body: &[u8]) -> (r: Result<Vec<u8>, String>)
    ensures
        match spec_chunked(body@, 0) {
            Some(b) => r matches Ok(v) && v@ == b,
            None => r matches Err(e) && e@ == "http parse error"@,
        },
{
    let mut out: Vec<u8> = Vec::new();
    let mut pos: usize = 0;
    let semi: [u8; 1] = [59];
    loop
        invariant
            pos <= body@.len(),
            spec_chunked(body@, 0) == (match spec_chunked(body@, pos as int) {
                Some(rest) => Some(out@ + rest),
                None => None::<Seq<u8>>,
            }),
        decreases body@.len() - pos,
    {
        let line_end = match find_crlf(body, pos) {
            Some(k) => k,
            None => {
                return Err(http_parse_error());
            },
        };
        proof {
            lemma_find_window(body@, crlf(), pos as int);
        }
        assert(line_end + 2 <= body.len());
        let line = &body[pos..line_end];
        let line_string = match crate::text::string_from_utf8(crate::text::bytes_to_vec(line)) {
            Some(s) => s,
            None => {
                return Err(http_parse_error());
            },
        };
        let lb = str_bytes(line_string.as_str());
        assert(lb@ == line@);
        proof {
            lemma_find_first(lb@, 59);
        }
        let size_part: &[u8] = match find_byte(lb, 59) {
            Some(i) => {
                proof {
                    crate::text::lemma_ascii_delimited(lb@, 0, i as int);
                }
                &lb[0..i]
            },
            None => lb,
        };
        assert(size_part@ == before_semicolon(line@));
        let size_text = trimmed(size_part);
        let size = match parse_hex(str_bytes(size_text.as_str())) {
            Some(s) => s,
            None => {
                return Err(http_parse_error());
            },
        };
        let p2 = line_end + 2;
        if size == 0 {
            let crlfcrlf_arr: [u8; 4] = [13, 10, 13, 10];
            assert(crlfcrlf_arr@ =~= crlfcrlf());
            let direct = body.len() - p2 >= 2 && body[p2] == 13 && body[p2 + 1] == 10;
            proof {
                if p2 + 2 <= body@.len() {
                    if body@.subrange(p2 as int, p2 + 2) == crlf() {
                        assert(body@.subrange(p2 as int, p2 + 2)[0] == body@[p2 as int]);
                        assert(body@.subrange(p2 as int, p2 + 2)[1] == body@[p2 + 1]);
                    }
                    if direct {
                        assert(body@.subrange(p2 as int, p2 + 2) =~= crlf());
                    }
                }
            }
            if direct || find_bytes(body, crlfcrlf_arr.as_slice(), p2).is_some() {
                proof {
                    assert(out@ + Seq::<u8>::empty() =~= out@);
                }
                return Ok(out);
            }
            return Err(http_parse_error());
        }
        let end = match p2.checked_add(size) {
            Some(e) => e,
            None => {
                return Err(http_parse_error());
            },
        };
        if end > body.len() || body.len() - end < 2 || body[end] != 13 || body[end + 1] != 10 {
            return Err(http_parse_error());
        }
        let ghost before = out@;
        let mut k = p2;
        while k < end
            invariant
                p2 <= k <= end,
                end <= body@.len(),
                out@ == before + body@.subrange(p2 as int, k as int),
            decreases end - k,
        {
            out.push(body[k]);
            k = k + 1;
            assert(out@ =~= before + body@.subrange(p2 as int, k as int));
        }
        proof {
            let next = spec_chunked(body@, end + 2);
            match next {
                Some(rest) => {
                    assert(before + (body@.subrange(p2 as int, end as int) + rest) =~= out@ + rest);
                },
                None => {},
            }
        }
        pos = end + 2;
    }
}

} // verus!

verus! {

/// A response: status, headers (names in lower case) and body.
#[derive(Debug)]
pub struct HttpResponse {
    pub status: u16,
    pub headers: Vec<(String, String)>,
    pub body: Vec<u8>,
}

/// A response as bytes.
pub type ResponseModel = (u16, Seq<(Seq<u8>, Seq<u8>)>, Seq<u8>);

impl View for HttpResponse {
    type V = ResponseModel;

    open spec fn view(&self) -> ResponseModel {
        (self.status, headers_view(self.headers@), self.body@)
    }
}

/// A response on the wire: a header block of at most
/// `MAX_HTTP_HEADER_BYTES` bytes up to the first blank line, valid UTF-8,
/// whose first line is the status line (see `spec_parse_status`) and whose
/// other lines are headers (see `header_fold`); then the body, decoded
/// when chunked, else cut to a declared content length, which it must
/// reach.
pub open spec fn spec_parse_response(data: Seq<u8>) -> Result<ResponseModel, Seq<char>> {
    match find_window(data, crlfcrlf(), 0) {
        None => Err("http parse error"@),
        Some(he) => if he > MAX_HTTP_HEADER_BYTES {
            Err("http response headers too large"@)
        } else {
            let hb = data.subrange(0, he);
            let body = data.subrange(he + 4, data.len() as int);
            if !valid_utf8(hb) {
                Err("http parse error"@)
            } else {
                let lines = split_from(hb, crlf(), 0);
                match spec_parse_status(decode_utf8(lines[0])) {
                    None => Err("http parse error"@),
                    Some(status) => match header_fold(lines.drop_first()) {
                        None => Err("http parse error"@),
                        Some((hs, cl, chunked)) => if chunked {
                            match spec_chunked(body, 0) {
                                None => Err("http parse error"@),
                                Some(b) => Ok((status, hs, b)),
                            }
                        } else {
                            match cl {
                                Some(n) => if body.len() < n {
                                    Err("http parse error"@)
                                } else {
                                    Ok((status, hs, body.subrange(0, n as int)))
                                },
                                None => Ok((status, hs, body)),
                            }
                        },
                    },
                }
            }
        },
    }
}

/// The chars of a valid UTF-8 line, as a `String`.
fn line_string(bytes: &[u8]) -> (r: String)
    requires
        valid_utf8(bytes@),
    ensures
        r@ == decode_utf8(bytes@),
{
    let s = string_of(bytes);
    proof {
        encode_utf8_decode_utf8(s@);
    }
    s
}

/// The header lines from `start` on (see `header_fold`).
fn header_lines(h: &[u8], start: usize) -> (r: Option<HeaderAcc>)
    requires
        valid_utf8(h@),
        2 <= start <= h@.len(),
        h@[start - 1] == 10,
    ensures
        match header_fold(split_from(h@, crlf(), start as int)) {
            Some(st) => r matches Some(acc) && acc@ == st,
            None => r is None,
        },
{
    let ghost lines = split_from(h@, crlf(), start as int);
    let mut acc = HeaderAcc { headers: Vec::new(), content_length: None, chunked: false };
    proof {
        assert(headers_view(acc.headers@) =~= Seq::<(Seq<u8>, Seq<u8>)>::empty());
    }
    let ghost mut done: Seq<Seq<u8>> = Seq::empty();
    let mut pos = start;
    assert(lines =~= done + split_from(h@, crlf(), pos as int));
    loop
        invariant_except_break
            start <= pos <= h@.len(),
            h@[pos - 1] == 10,
            valid_utf8(h@),
            lines == split_from(h@, crlf(), start as int),
            lines == done + split_from(h@, crlf(), pos as int),
            header_fold(done) == Some(acc@),
        ensures
            lines == done,
            header_fold(done) == Some(acc@),
        decreases h@.len() - pos,
    {
        proof {
            lemma_find_window(h@, crlf(), pos as int);
        }
        let next = find_crlf(h, pos);
        let end = match next {
            Some(e) => e,
            None => h.len(),
        };
        proof {
            if end < h@.len() {
                assert(h@.subrange(end as int, end + 2)[0] == h@[end as int]);
                assert(h@.subrange(end as int, end + 2)[1] == h@[end + 1]);
            }
            crate::text::lemma_ascii_delimited(h@, pos as int, end as int);
        }
        let line = &h[pos..end];
        if !header_step_exec(&mut acc, line) {
            proof {
                let rest = split_from(h@, crlf(), pos as int);
                assert(rest[0] == line@);
                assert(lines.subrange(0, done.len() as int + 1) =~= done.push(line@));
                assert(done.push(line@).drop_last() =~= done);
                lemma_header_fold_prefix(lines, done.len() as int);
            }
            return None;
        }
        proof {
            assert(done.push(line@).drop_last() =~= done);
            let rest = split_from(h@, crlf(), pos as int);
            match next {
                Some(e) => {
                    assert(rest == seq![line@] + split_from(h@, crlf(), e + 2));
                    assert(done + rest =~= done.push(line@) + split_from(h@, crlf(), e + 2));
                },
                None => {
                    assert(rest == seq![line@]);
                    assert(done + rest =~= done.push(line@));
                },
            }
            done = done.push(line@);
        }
        match next {
            Some(e) => {
                assert(e + 2 <= h.len());
                pos = e + 2;
            },
            None => {
                break;
            },
        }
    }
    Some(acc)
}

/// The body of a response: decoded when chunked, else cut to the content
/// length, which it must reach.
fn response_body(chunked: bool, content_length: Option<usize>, body: &[u8]) -> (r: Result<Vec<u8>, String>)
    ensures
        chunked ==> match spec_chunked(body@, 0) {
            Some(b) => r matches Ok(v) && v@ == b,
            None => r matches Err(e) && e@ == "http parse error"@,
        },
        !chunked ==> match content_length {
            Some(n) => if body@.len() < n {
                r matches Err(e) && e@ == "http parse error"@
            } else {
                r matches Ok(v) && v@ == body@.subrange(0, n as int)
            },
            None => r matches Ok(v) && v@ == body@,
        },
{
    if chunked {
        decode_chunked(body)
    } else {
        match content_length {
            Some(n) => {
                if body.len() < n {
                    return Err(http_parse_error());
                }
                Ok(crate::text::bytes_to_vec(&body[0..n]))
            },
            None => Ok(crate::text::bytes_to_vec(body)),
        }
    }
}

/// Parses a response (see `spec_parse_response`).
#[verifier::rlimit(60)]
pub fn parse_http_response(data: &[u8]) -> (r: Result<HttpResponse, String>)
    ensures
        match spec_parse_response(data@) {
            Ok(v) => r matches Ok(p) && p@ == v,
            Err(m) => r matches Err(e) && e@ == m,
        },
{
    let he = match find_header_end(data) {
        None => {
            return Err(http_parse_error());
        },
        Some(k) => k,
    };
    proof {
        lemma_find_window(data@, crlfcrlf(), 0);
    }
    if he > MAX_HTTP_HEADER_BYTES {
        return Err("http response headers too large".to_string());
    }
    assert(he + 4 <= data.len());
    let hb = &data[0..he];
    let body = &data[he + 4..data.len()];
    let hs = match crate::text::string_from_utf8(crate::text::bytes_to_vec(hb)) {
        Some(s) => s,
        None => {
            return Err(http_parse_error());
        },
    };
    let h = str_bytes(hs.as_str());
    assert(h@ == hb@);
    let ghost lines = split_from(h@, crlf(), 0);
    proof {
        lemma_find_window(h@, crlf(), 0);
    }
    let first = find_crlf(h, 0);
    let l0end = match first {
        Some(k) => k,
        None => h.len(),
    };
    proof {
        if l0end < h@.len() {
            assert(h@.subrange(l0end as int, l0end + 2)[0] == h@[l0end as int]);
            assert(h@.subrange(l0end as int, l0end + 2)[1] == h@[l0end + 1]);
        }
        crate::text::lemma_ascii_delimited(h@, 0, l0end as int);
    }
    assert(lines[0] == h@.subrange(0, l0end as int));
    let status_line = line_string(&h[0..l0end]);
    let status = parse_status(status_line.as_str())?;
    let acc = match first {
        Some(k) => {
            assert(lines.drop_first() =~= split_from(h@, crlf(), k + 2));
            match header_lines(h, k + 2) {
                Some(a) => a,
                None => {
                    return Err(http_parse_error());
                },
            }
        },
        None => {
            assert(h@.subrange(0, h@.len() as int) =~= h@);
            assert(lines =~= seq![h@]);
            assert(lines.drop_first() =~= Seq::<Seq<u8>>::empty());
            let a = HeaderAcc { headers: Vec::new(), content_length: None, chunked: false };
            assert(headers_view(a.headers@) =~= Seq::<(Seq<u8>, Seq<u8>)>::empty());
            a
        },
    };
    let body_out = response_body(acc.chunked, acc.content_length, body)?;
    Ok(HttpResponse { status, headers: acc.headers, body: body_out })
}

proof fn lemma_header_fold_prefix(lines: Seq<Seq<u8>>, k: int)
    requires
        0 <= k < lines.len(),
        header_fold(lines.subrange(0, k + 1)) is None,
    ensures
        header_fold(lines) is None,
    decreases lines.len() - k,
{
    if k + 1 < lines.len() {
        assert(lines.subrange(0, k + 2).drop_last() =~= lines.subrange(0, k + 1));
        lemma_header_fold_prefix(lines, k + 1);
    } else {
        assert(lines.subrange(0, k + 1) =~= lines);
    }
}

} // verus!

verus! {

// ---------------------------------------------------------------------
// Requests and redirects
// ---------------------------------------------------------------------

/// Where a redirect may lead when it must stay on one origin.
#[derive(Debug)]
pub struct Origin {
    pub scheme: Scheme,
    pub host: String,
    pub port: u16,
}

impl Origin {
    /// The origin of a parsed URL, its host in lower case.
    pub fn from_url(parsed: &ParsedUrl) -> (r: Origin)
        ensures
            r.scheme == parsed.scheme,
            encode_utf8(r.host@) == lower_bytes(encode_utf8(parsed.host@)),
            r.port == parsed.port,
    {
        let lowered = lower_vec(str_bytes(parsed.host.as_str()));
        proof {
            let b = encode_utf8(parsed.host@);
            encode_utf8_valid_utf8(parsed.host@);
            lemma_lower_valid(b, b.len() as int);
            assert(lower_bytes(b.subrange(0, b.len() as int)) + b.subrange(b.len() as int, b.len() as int)
                =~= lowered@);
        }
        Origin { scheme: parsed.scheme, host: string_of(lowered.as_slice()), port: parsed.port }
    }

    /// Whether a URL is on this origin: same scheme and port, host equal
    /// in any ASCII case.
    pub fn matches(&self, parsed: &ParsedUrl) -> (r: bool)
        ensures
            r == (self.scheme == parsed.scheme && crate::storage::eq_ignore_case(
                encode_utf8(self.host@),
                encode_utf8(parsed.host@),
            ) && self.port == parsed.port),
    {
        self.scheme == parsed.scheme && crate::storage::eq_ignore_ascii_case(
            str_bytes(self.host.as_str()),
            str_bytes(parsed.host.as_str()),
        ) && self.port == parsed.port
    }
}

/// `location`
pub open spec fn location_name() -> Seq<u8> {
    seq![108u8, 111, 99, 97, 116, 105, 111, 110]
}

/// What to do after a response.
#[derive(Debug)]
pub enum Hop {
    /// The body to return.
    Done(Vec<u8>),
    /// The URL to fetch next.
    Follow(String),
}

/// `http status {status}`
pub open spec fn status_message(status: u16) -> Seq<u8> {
    seq![104u8, 116, 116, 112, 32, 115, 116, 97, 116, 117, 115, 32] + decimal_bytes(status as nat)
}

fn status_error(status: u16) -> (r: String)
    ensures
        encode_utf8(r@) == status_message(status),
{
    let prefix: [u8; 12] = [104, 116, 116, 112, 32, 115, 116, 97, 116, 117, 115, 32];
    let mut out: Vec<u8> = Vec::new();
    push_all(&mut out, prefix.as_slice());
    push_decimal(&mut out, status);
    proof {
        assert(out@ =~= status_message(status));
        lemma_decimal_ascii(status as nat);
        assert forall|i: int| 0 <= i < out@.len() implies #[trigger] out@[i] < 128 by {
            if i >= 12 {
                assert(out@[i] == decimal_bytes(status as nat)[i - 12]);
            }
        }
        lemma_ascii_valid(out@);
    }
    string_of(out.as_slice())
}

/// Where a redirect to the URL `u` may go: `u` must parse, must not leave
/// `https` and, when an origin is given, must stay on it.
pub open spec fn spec_follow_url(current: UrlModel, u: Seq<u8>, origin: Option<(Scheme, Seq<u8>, u16)>) -> Result<
    Seq<u8>,
    Seq<char>,
> {
    match spec_parse_url(u) {
        Err(e) => Err(url_message(e)),
        Ok(m) => if current.0 == Scheme::Https && m.0 != Scheme::Https {
            Err("https redirect downgrade refused"@)
        } else if origin matches Some(o) && !(o.0 == m.0 && crate::storage::eq_ignore_case(o.1, m.1) && o.2
            == m.2) {
            Err("cross-origin http redirect refused"@)
        } else {
            Ok(u)
        },
    }
}

/// Where a redirect leads: its `Location`, trimmed and resolved (see
/// `spec_resolve_location` and `spec_follow_url`).
pub open spec fn spec_follow(
    current: UrlModel,
    headers: Seq<(Seq<u8>, Seq<u8>)>,
    origin: Option<(Scheme, Seq<u8>, u16)>,
) -> Result<Seq<u8>, Seq<char>> {
    match find_header(headers, location_name()) {
        None => Err("http redirect missing location"@),
        Some(i) => match spec_resolve_location(
            current,
            encode_utf8(crate::text::trim_chars(decode_utf8(headers[i].1))),
        ) {
            None => Err("http redirect missing location"@),
            Some(u) => spec_follow_url(current, u, origin),
        },
    }
}

pub open spec fn origin_view(origin: Option<&Origin>) -> Option<(Scheme, Seq<u8>, u16)> {
    match origin {
        Some(o) => Some((o.scheme, encode_utf8(o.host@), o.port)),
        None => None,
    }
}

fn follow_url(current: &ParsedUrl, next_url: String, origin: Option<&Origin>) -> (r: Result<String, String>)
    ensures
        match spec_follow_url(current@, encode_utf8(next_url@), origin_view(origin)) {
            Ok(u) => r matches Ok(s) && encode_utf8(s@) == u,
            Err(m) => r matches Err(e) && e@ == m,
        },
{
    let next = match parse_url(next_url.as_str()) {
        Ok(n) => n,
        Err(e) => {
            return Err(e);
        },
    };
    if let Err(e) = validate_redirect_transport(current.scheme, next.scheme) {
        return Err(e);
    }
    if let Some(o) = origin {
        if !o.matches(&next) {
            return Err("cross-origin http redirect refused".to_string());
        }
    }
    Ok(next_url)
}

/// Follows a redirect (see `spec_follow`).
fn follow_redirect(current: &ParsedUrl, headers: &[(String, String)], origin: Option<&Origin>) -> (r: Result<
    String,
    String,
>)
    ensures
        match spec_follow(current@, headers_view(headers@), origin_view(origin)) {
            Ok(u) => r matches Ok(s) && encode_utf8(s@) == u,
            Err(m) => r matches Err(e) && e@ == m,
        },
{
    let name: [u8; 8] = [108, 111, 99, 97, 116, 105, 111, 110];
    assert(name@ =~= location_name());
    proof {
        assert(lower_bytes(location_name()) =~= location_name());
    }
    let location = match header_value_bytes(headers, name.as_slice()) {
        Some(v) => v,
        None => {
            return Err(missing_location());
        },
    };
    let ghost hv = headers_view(headers@);
    let ghost i = find_header(hv, location_name())->0;
    proof {
        lemma_find_header(hv, location_name(), 0);
        assert(hv[i].1 == encode_utf8(headers@[i].1@));
        encode_utf8_decode_utf8(location@);
        assert(decode_utf8(hv[i].1) == location@);
    }
    let ghost loc = encode_utf8(crate::text::trim_chars(location@));
    let resolved = resolve_location(current, location.as_str());
    assert(spec_follow(current@, hv, origin_view(origin)) == match spec_resolve_location(current@, loc) {
        None => Err("http redirect missing location"@),
        Some(u) => spec_follow_url(current@, u, origin_view(origin)),
    });
    match resolved {
        Ok(u) => follow_url(current, u, origin),
        Err(e) => Err(e),
    }
}

/// The outcome of a response to a GET, as bytes: a redirect (301, 302,
/// 303, 307, 308) is followed to its resolved `Location`, which must
/// parse, must not leave `https` and, when an origin is given, must stay
/// on it; any other status but 200 and 206 is refused, and so is a body
/// over `max_bytes`.
pub open spec fn spec_next_hop(
    current: UrlModel,
    response: ResponseModel,
    max_bytes: usize,
    origin: Option<(Scheme, Seq<u8>, u16)>,
) -> Result<Result<Seq<u8>, Seq<u8>>, Seq<char>> {
    let status = response.0;
    if status == 301 || status == 302 || status == 303 || status == 307 || status == 308 {
        match spec_follow(current, response.1, origin) {
            Err(m) => Err(m),
            Ok(u) => Ok(Err(u)),
        }
    } else if status != 200 && status != 206 {
        Err(decode_utf8(status_message(status)))
    } else if response.2.len() > max_bytes {
        Err("http response too large"@)
    } else {
        Ok(Ok(response.2))
    }
}

/// Decides what follows a response (see `spec_next_hop`): the body
/// (`Ok(Ok(..))`), a URL to follow (`Ok(Err(..))`), or why the request
/// failed.
pub fn next_hop(current: &ParsedUrl, response: HttpResponse, max_bytes: usize, origin: Option<&Origin>) -> (r:
    Result<Hop, String>)
    ensures
        match spec_next_hop(current@, response@, max_bytes, origin_view(origin)) {
            Ok(Ok(b)) => r matches Ok(Hop::Done(v)) && v@ == b,
            Ok(Err(u)) => r matches Ok(Hop::Follow(s)) && encode_utf8(s@) == u,
            Err(m) => r matches Err(e) && e@ == m,
        },
{
    if is_redirect(response.status) {
        let next_url = follow_redirect(current, response.headers.as_slice(), origin)?;
        return Ok(Hop::Follow(next_url));
    }
    if response.status != 200 && response.status != 206 {
        let m = status_error(response.status);
        proof {
            encode_utf8_decode_utf8(m@);
        }
        return Err(m);
    }
    if response.body.len() > max_bytes {
        return Err("http response too large".to_string());
    }
    Ok(Hop::Done(response.body))
}

/// Refuses a request when no redirects are left.
pub fn check_redirects_left(redirects_left: usize) -> (r: Result<(), String>)
    ensures
        redirects_left == 0 ==> (r matches Err(e) && e@ == "http redirect limit reached"@),
        redirects_left > 0 ==> r is Ok,
{
    if redirects_left == 0 {
        return Err("http redirect limit reached".to_string());
    }
    Ok(())
}

} // verus!

verus! {

/// ` HTTP/1.1\r\nHost: `
pub open spec fn request_host_part() -> Seq<u8> {
    seq![32u8, 72, 84, 84, 80, 47, 49, 46, 49, 13, 10, 72, 111, 115, 116, 58, 32]
}

/// `\r\nUser-Agent: rustorrent/0.1\r\nConnection: close\r\n`
pub open spec fn request_fixed_headers() -> Seq<u8> {
    seq![
        13u8, 10, 85, 115, 101, 114, 45, 65, 103, 101, 110, 116, 58, 32, 114, 117, 115, 116, 111, 114, 114,
        101, 110, 116, 47, 48, 46, 49, 13, 10, 67, 111, 110, 110, 101, 99, 116, 105, 111, 110, 58, 32, 99,
        108, 111, 115, 101, 13, 10,
    ]
}

/// `Content-Length: `
pub open spec fn content_length_prefix() -> Seq<u8> {
    seq![67u8, 111, 110, 116, 101, 110, 116, 45, 76, 101, 110, 103, 116, 104, 58, 32]
}

/// Each header as `name: value\r\n`.
pub open spec fn header_lines_bytes(headers: Seq<(Seq<u8>, Seq<u8>)>) -> Seq<u8>
    decreases headers.len(),
{
    if headers.len() == 0 {
        Seq::empty()
    } else {
        header_lines_bytes(headers.drop_last()) + headers.last().0 + seq![58u8, 32] + headers.last().1 + crlf()
    }
}

/// A request head: `GET` (or `POST` with a content length) of the URL's
/// path, the host, the fixed headers, the caller's headers and a blank
/// line.
pub open spec fn request_bytes(post_len: Option<usize>, m: UrlModel, headers: Seq<(Seq<u8>, Seq<u8>)>) -> Seq<
    u8,
> {
    let method = match post_len {
        Some(_) => seq![80u8, 79, 83, 84, 32],
        None => seq![71u8, 69, 84, 32],
    };
    let length = match post_len {
        Some(n) => content_length_prefix() + decimal_bytes(n as nat) + crlf(),
        None => Seq::empty(),
    };
    method + m.3 + request_host_part() + authority_bytes(m) + request_fixed_headers() + length
        + header_lines_bytes(headers) + crlf()
}

pub open spec fn str_headers_view(h: Seq<(&str, String)>) -> Seq<(Seq<u8>, Seq<u8>)> {
    h.map_values(|p: (&str, String)| (encode_utf8(p.0@), encode_utf8(p.1@)))
}

pub fn push_decimal_usize(out: &mut Vec<u8>, n: usize)
    ensures
        final(out)@ == old(out)@ + decimal_bytes(n as nat),
    decreases n,
{
    if n >= 10 {
        push_decimal_usize(out, n / 10);
    }
    out.push(48 + (n % 10) as u8);
    proof {
        assert(out@ =~= old(out)@ + decimal_bytes(n as nat));
    }
}

/// The head of a request (see `request_bytes`).
pub fn build_request(post_len: Option<usize>, parsed: &ParsedUrl, headers: &[(&str, String)]) -> (r: Vec<u8>)
    ensures
        r@ == request_bytes(post_len, parsed@, str_headers_view(headers@)),
{
    let get: [u8; 4] = [71, 69, 84, 32];
    let post: [u8; 5] = [80, 79, 83, 84, 32];
    let host: [u8; 17] = [32, 72, 84, 84, 80, 47, 49, 46, 49, 13, 10, 72, 111, 115, 116, 58, 32];
    let fixed: [u8; 49] = [
        13, 10, 85, 115, 101, 114, 45, 65, 103, 101, 110, 116, 58, 32, 114, 117, 115, 116, 111, 114, 114,
        101, 110, 116, 47, 48, 46, 49, 13, 10, 67, 111, 110, 110, 101, 99, 116, 105, 111, 110, 58, 32, 99,
        108, 111, 115, 101, 13, 10,
    ];
    let clen: [u8; 16] = [67, 111, 110, 116, 101, 110, 116, 45, 76, 101, 110, 103, 116, 104, 58, 32];
    let sep: [u8; 2] = [58, 32];
    let nl: [u8; 2] = [13, 10];
    assert(get@ =~= seq![71u8, 69, 84, 32]);
    assert(post@ =~= seq![80u8, 79, 83, 84, 32]);
    assert(host@ =~= request_host_part());
    assert(fixed@ =~= request_fixed_headers());
    assert(clen@ =~= content_length_prefix());
    assert(sep@ =~= seq![58u8, 32]);
    assert(nl@ =~= crlf());
    let mut out: Vec<u8> = Vec::new();
    match post_len {
        Some(_) => push_all(&mut out, post.as_slice()),
        None => push_all(&mut out, get.as_slice()),
    }
    push_all(&mut out, str_bytes(parsed.path.as_str()));
    push_all(&mut out, host.as_slice());
    authority_into(&mut out, parsed);
    push_all(&mut out, fixed.as_slice());
    if let Some(n) = post_len {
        push_all(&mut out, clen.as_slice());
        push_decimal_usize(&mut out, n);
        push_all(&mut out, nl.as_slice());
    }
    let ghost head = out@;
    let ghost hv = str_headers_view(headers@);
    let mut i: usize = 0;
    while i < headers.len()
        invariant
            i <= headers@.len(),
            hv == str_headers_view(headers@),
            sep@ == seq![58u8, 32],
            nl@ == crlf(),
            out@ == head + header_lines_bytes(hv.subrange(0, i as int)),
        decreases headers@.len() - i,
    {
        let (k, v) = &headers[i];
        push_all(&mut out, str_bytes(k));
        push_all(&mut out, sep.as_slice());
        push_all(&mut out, str_bytes(v.as_str()));
        push_all(&mut out, nl.as_slice());
        proof {
            assert(hv.subrange(0, i + 1).drop_last() =~= hv.subrange(0, i as int));
            assert(out@ =~= head + header_lines_bytes(hv.subrange(0, i + 1)));
        }
        i = i + 1;
    }
    assert(hv.subrange(0, i as int) =~= hv);
    push_all(&mut out, nl.as_slice());
    proof {
        assert(out@ =~= request_bytes(post_len, parsed@, hv));
    }
    out
}

} // verus!

verus! {

// ---------------------------------------------------------------------
// Reading a response within a budget
// ---------------------------------------------------------------------

/// Longest wait for any progress on a connection, in nanoseconds.
pub const HTTP_IO_TIMEOUT_NANOS: u128 = 15_000_000_000;

/// Longest single wait before the budget is checked again, in nanoseconds.
pub const HTTP_IO_POLL_NANOS: u128 = 250_000_000;

/// A stream whose reads and writes can be given a timeout.
pub trait DeadlineStream {
    fn set_read_timeout(&self, timeout: Option<Duration>) -> std::io::Result<()>;

    fn set_write_timeout(&self, timeout: Option<Duration>) -> std::io::Result<()>;
}

/// What a request may still spend: an absolute deadline and an optional
/// cancellation flag.
#[derive(Clone, Copy)]
pub struct RequestBudget<'a> {
    pub deadline: Instant,
    pub cancel: Option<&'a AtomicBool>,
}

impl<'a> RequestBudget<'a> {
    pub fn new(deadline: Instant, cancel: Option<&'a AtomicBool>) -> (r: Self)
        ensures
            r.deadline == deadline,
            r.cancel == cancel,
    {
        RequestBudget { deadline, cancel }
    }
}

/// The wait before the next I/O call, or why the request stops: a set
/// cancellation flag first, then a spent deadline, then an idle connection;
/// otherwise the least of what the deadline leaves, what the idle limit
/// leaves and the poll interval.
pub open spec fn spec_io_timeout(cancelled: bool, request_left: u128, idle_elapsed: u128) -> Result<u128, Seq<char>> {
    if cancelled {
        Err("http request cancelled"@)
    } else if request_left == 0 {
        Err("http request deadline exceeded"@)
    } else if idle_elapsed >= HTTP_IO_TIMEOUT_NANOS {
        Err("http I/O timed out"@)
    } else {
        let idle_left = (HTTP_IO_TIMEOUT_NANOS - idle_elapsed) as u128;
        let m = if request_left < idle_left { request_left } else { idle_left };
        Ok(if m < HTTP_IO_POLL_NANOS { m } else { HTTP_IO_POLL_NANOS })
    }
}

/// Decides the wait before the next I/O call (see `spec_io_timeout`); the
/// wait is in nanoseconds.
pub fn io_timeout_nanos(cancelled: bool, request_left: u128, idle_elapsed: u128) -> (r: Result<u64, String>)
    ensures
        match spec_io_timeout(cancelled, request_left, idle_elapsed) {
            Ok(t) => r matches Ok(w) && w == t,
            Err(m) => r matches Err(e) && e@ == m,
        },
{
    if cancelled {
        return Err("http request cancelled".to_string());
    }
    if request_left == 0 {
        return Err("http request deadline exceeded".to_string());
    }
    if idle_elapsed >= HTTP_IO_TIMEOUT_NANOS {
        return Err("http I/O timed out".to_string());
    }
    let idle_left = HTTP_IO_TIMEOUT_NANOS - idle_elapsed;
    let m = if request_left < idle_left { request_left } else { idle_left };
    let w = if m < HTTP_IO_POLL_NANOS { m } else { HTTP_IO_POLL_NANOS };
    Ok(w as u64)
}

/// Whether the cancellation flag is set (`AtomicBool::load`). The flag is
/// shared with other threads, so nothing is stated of the answer.
#[verifier::external_body]
fn flag_is_set(flag: &AtomicBool) -> (r: bool) {
    flag.load(std::sync::atomic::Ordering::SeqCst)
}

/// A duration of `nanos` nanoseconds (`Duration::from_nanos`).
#[verifier::external_body]
fn duration_of_nanos(nanos: u64) -> (r: Duration) {
    Duration::from_nanos(nanos)
}

/// One `Read::read` into a buffer of `max` bytes, keeping the bytes it
/// reports; `Read::read` documents that it reports at most the buffer's
/// length.
#[verifier::external_body]
fn read_at_most<R: Read>(reader: &mut R, max: usize) -> (r: Result<Vec<u8>, std::io::Error>)
    ensures
        r matches Ok(v) ==> v@.len() <= max,
{
    let mut buf = vec![0u8; max];
    let n = reader.read(&mut buf)?;
    buf.truncate(n);
    Ok(buf)
}

/// The kinds of I/O error the response reader tells apart.
pub enum IoErrorKind {
    Interrupted,
    TimedOut,
    WouldBlock,
    Other,
}

/// The kind of an I/O error (`io::Error::kind`).
#[verifier::external_body]
fn io_error_kind(err: &std::io::Error) -> (r: IoErrorKind) {
    match err.kind() {
        std::io::ErrorKind::Interrupted => IoErrorKind::Interrupted,
        std::io::ErrorKind::TimedOut => IoErrorKind::TimedOut,
        std::io::ErrorKind::WouldBlock => IoErrorKind::WouldBlock,
        _ => IoErrorKind::Other,
    }
}

/// `http read failed: ` and the I/O error's own text.
#[verifier::external_body]
fn read_failure_text(err: &std::io::Error) -> (r: String) {
    format!("http read failed: {err}")
}

/// The wait before the next read, from the clock, the budget and the time
/// of the last progress.
fn next_timeout(budget: &RequestBudget, last_progress: &Instant) -> (r: Result<u64, String>) {
    let cancelled = match budget.cancel {
        Some(flag) => flag_is_set(flag),
        None => false,
    };
    let t = crate::piece::now();
    let request_left = crate::piece::elapsed_nanos(&t, &budget.deadline);
    let idle_elapsed = crate::piece::elapsed_nanos(last_progress, &t);
    io_timeout_nanos(cancelled, request_left, idle_elapsed)
}

/// Reads a whole response, until the peer closes the connection, within
/// the budget and at most `response_wire_limit(max_body)` bytes; more is
/// refused as too large. Each read waits at most until the deadline, the
/// idle limit or the poll interval. What the bytes are depends on the
/// stream.
pub fn read_response_limited<S: DeadlineStream + Read>(reader: &mut S, max_body: usize, budget: RequestBudget) -> (r: Result<Vec<u8>, String>)
    ensures
        r matches Ok(v) ==> v@.len() <= (if max_body * 2 + MAX_HTTP_HEADER_BYTES > usize::MAX {
            usize::MAX as int
        } else {
            max_body * 2 + MAX_HTTP_HEADER_BYTES
        }),
{
    let wire_limit = response_wire_limit(max_body);
    let read_limit = wire_limit.saturating_add(1);
    let mut response: Vec<u8> = Vec::new();
    let mut last_progress = crate::piece::now();
    let mut polls: u64 = u64::MAX;
    while polls > 0
        invariant
            response@.len() <= wire_limit,
            wire_limit == (if max_body * 2 + MAX_HTTP_HEADER_BYTES > usize::MAX {
                usize::MAX as int
            } else {
                max_body * 2 + MAX_HTTP_HEADER_BYTES
            }),
            read_limit == (if wire_limit == usize::MAX { usize::MAX as int } else { wire_limit + 1 }),
        decreases polls,
    {
        polls = polls - 1;
        let timeout = next_timeout(&budget, &last_progress)?;
        match reader.set_read_timeout(Some(duration_of_nanos(timeout))) {
            Ok(()) => {},
            Err(err) => {
                return Err(read_failure_text(&err));
            },
        }
        let remaining = read_limit - response.len();
        if remaining == 0 {
            return Err("http response too large".to_string());
        }
        let read_len = if remaining < 8192 { remaining } else { 8192 };
        match read_at_most(reader, read_len) {
            Ok(chunk) => {
                if chunk.len() == 0 {
                    return Ok(response);
                }
                if chunk.len() > wire_limit - response.len() {
                    return Err("http response too large".to_string());
                }
                let mut i: usize = 0;
                let ghost before = response@;
                while i < chunk.len()
                    invariant
                        i <= chunk@.len(),
                        before.len() + chunk@.len() <= wire_limit,
                        response@ == before + chunk@.subrange(0, i as int),
                    decreases chunk@.len() - i,
                {
                    response.push(chunk[i]);
                    i = i + 1;
                    assert(response@ =~= before + chunk@.subrange(0, i as int));
                }
                last_progress = crate::piece::now();
            },
            Err(err) => {
                match io_error_kind(&err) {
                    IoErrorKind::Interrupted => {},
                    IoErrorKind::TimedOut => {},
                    IoErrorKind::WouldBlock => {},
                    IoErrorKind::Other => {
                        return Err(read_failure_text(&err));
                    },
                }
            },
        }
    }
    Err("http request deadline exceeded".to_string())
}

} // verus!
