use vstd::prelude::*;
use vstd::utf8::*;

use vstd::string::StringExecFns;
use crate::http::{
    bytes_equal, decimal_bytes, find_bytes, find_window, lemma_ascii_valid, lemma_find_window,
    lower_bytes, lower_vec, push_all, push_decimal_usize, split_from, trim_bytes, trimmed,
};
use crate::storage::{eq_ignore_ascii_case, eq_ignore_case};
use crate::text::{bytes_to_vec, find_byte, find_first, lemma_find_first, str_bytes, string_of};

verus! {

/// One entry of a feed.
#[derive(Debug, Clone)]
pub struct FeedItem {
    pub title: String,
    pub link: String,
    pub is_torrent: bool,
    pub guid: String,
}

/// A subscribed feed.
#[derive(Debug, Clone)]
pub struct RssFeed {
    pub url: String,
    pub title: String,
    pub items: Vec<FeedItem>,
    pub last_poll: u64,
    pub poll_interval_secs: u64,
}

/// A download rule: items of `feed_url` (or of any feed when empty) whose
/// title matches `pattern`.
#[derive(Debug, Clone)]
pub struct RssRule {
    pub name: String,
    pub feed_url: String,
    pub pattern: String,
}

/// Feeds, rules and the keys of items already downloaded.
pub struct RssState {
    pub feeds: Vec<RssFeed>,
    pub rules: Vec<RssRule>,
    pub seen_guids: Vec<String>,
}

/// Most seen keys kept; the oldest go first.
pub const MAX_SEEN_GUIDS: usize = 50_000;

/// Most feeds a saved state may hold.
pub const MAX_RSS_FEEDS: usize = 1_024;

/// Most rules a saved state may hold.
pub const MAX_RSS_RULES: usize = 1_024;

/// Longest text field of a feed, rule or item.
pub const MAX_RSS_TEXT_BYTES: usize = 8192;

/// Longest rule pattern.
pub const MAX_RSS_PATTERN_BYTES: usize = 512;

/// Most items read from one feed.
pub const MAX_FEED_ITEMS: usize = 2_000;

impl RssState {
    /// No feeds, rules or seen items.
    pub fn new() -> (r: Self)
        ensures
            r.feeds@.len() == 0,
            r.rules@.len() == 0,
            r.seen_guids@.len() == 0,
    {
        RssState { feeds: Vec::new(), rules: Vec::new(), seen_guids: Vec::new() }
    }
}

// ---------------------------------------------------------------------
// Links
// ---------------------------------------------------------------------

/// `magnet:?`
pub open spec fn magnet_prefix() -> Seq<u8> {
    seq![109u8, 97, 103, 110, 101, 116, 58, 63]
}

/// `.torrent`
pub open spec fn torrent_suffix() -> Seq<u8> {
    seq![46u8, 116, 111, 114, 114, 101, 110, 116]
}

/// `bittorrent`
pub open spec fn bittorrent_name() -> Seq<u8> {
    seq![98u8, 105, 116, 116, 111, 114, 114, 101, 110, 116]
}

/// `s` before the first `x`.
pub open spec fn before_first(s: Seq<u8>, x: u8) -> Seq<u8> {
    match find_first(s, x) {
        Some(i) => s.subrange(0, i),
        None => s,
    }
}

pub open spec fn ends_with(s: Seq<u8>, p: Seq<u8>) -> bool {
    s.len() >= p.len() && s.subrange(s.len() - p.len(), s.len() as int) == p
}

/// `p` occurs in `s`.
pub open spec fn contains_bytes(s: Seq<u8>, p: Seq<u8>) -> bool {
    p.len() == 0 || find_window(s, p, 0) is Some
}

/// A trimmed value that starts with `magnet:?` in any ASCII case.
pub open spec fn spec_is_magnet(v: Seq<u8>) -> bool {
    let t = trim_bytes(v);
    t.len() >= 8 && eq_ignore_case(t.subrange(0, 8), magnet_prefix())
}

/// A magnet link, or a URL whose path (before any query or fragment) ends
/// in `.torrent` in any ASCII case.
pub open spec fn spec_is_torrent_url(v: Seq<u8>) -> bool {
    let t = trim_bytes(v);
    spec_is_magnet(t) || ends_with(lower_bytes(before_first(before_first(t, 35), 63)), torrent_suffix())
}

/// A content type that names BitTorrent.
pub open spec fn spec_is_torrent_content_type(v: Seq<u8>) -> bool {
    contains_bytes(lower_bytes(trim_bytes(v)), bittorrent_name())
}

fn ends_with_exec(s: &[u8], p: &[u8]) -> (r: bool)
    ensures
        r == ends_with(s@, p@),
{
    if s.len() < p.len() {
        return false;
    }
    let start = s.len() - p.len();
    let r = bytes_equal(&s[start..s.len()], p);
    r
}

fn contains_exec(s: &[u8], p: &[u8]) -> (r: bool)
    ensures
        r == contains_bytes(s@, p@),
{
    if p.len() == 0 {
        return true;
    }
    find_bytes(s, p, 0).is_some()
}

fn before_first_exec(s: &[u8], x: u8) -> (r: &[u8])
    ensures
        r@ == before_first(s@, x),
{
    match find_byte(s, x) {
        Some(i) => &s[0..i],
        None => s,
    }
}

/// Whether a value is a magnet link (see `spec_is_magnet`).
pub fn is_magnet_link(value: &str) -> (r: bool)
    ensures
        r == spec_is_magnet(encode_utf8(value@)),
{
    let t = trimmed(str_bytes(value));
    let b = str_bytes(t.as_str());
    let prefix: [u8; 8] = [109, 97, 103, 110, 101, 116, 58, 63];
    assert(prefix@ =~= magnet_prefix());
    b.len() >= 8 && eq_ignore_ascii_case(&b[0..8], prefix.as_slice())
}

/// Whether a link points at a torrent (see `spec_is_torrent_url`).
pub fn is_torrent_url(value: &str) -> (r: bool)
    ensures
        r == spec_is_torrent_url(encode_utf8(value@)),
{
    let t = trimmed(str_bytes(value));
    proof {
        encode_utf8_decode_utf8(t@);
    }
    if is_magnet_link(t.as_str()) {
        return true;
    }
    let b = str_bytes(t.as_str());
    let path = before_first_exec(before_first_exec(b, 35), 63);
    let lowered = lower_vec(path);
    let suffix: [u8; 8] = [46, 116, 111, 114, 114, 101, 110, 116];
    assert(suffix@ =~= torrent_suffix());
    ends_with_exec(lowered.as_slice(), suffix.as_slice())
}

/// Whether a content type names BitTorrent (see
/// `spec_is_torrent_content_type`).
pub fn is_torrent_content_type(value: &str) -> (r: bool)
    ensures
        r == spec_is_torrent_content_type(encode_utf8(value@)),
{
    let t = trimmed(str_bytes(value));
    let lowered = lower_vec(str_bytes(t.as_str()));
    let name: [u8; 10] = [98, 105, 116, 116, 111, 114, 114, 101, 110, 116];
    assert(name@ =~= bittorrent_name());
    contains_exec(lowered.as_slice(), name.as_slice())
}

// ---------------------------------------------------------------------
// Title patterns
// ---------------------------------------------------------------------

/// Matches the parts of a `*` pattern in order from `pos`: the first part
/// must start the text, each later one is found after the one before.
pub open spec fn glob_walk(parts: Seq<Seq<u8>>, t: Seq<u8>, idx: int, pos: int) -> bool
    decreases parts.len() - idx,
{
    if idx < 0 || idx >= parts.len() {
        true
    } else if parts[idx].len() == 0 {
        glob_walk(parts, t, idx + 1, pos)
    } else {
        match find_window(t, parts[idx], pos) {
            None => false,
            Some(f) => if idx == 0 && f != 0 {
                false
            } else {
                glob_walk(parts, t, idx + 1, f + parts[idx].len())
            },
        }
    }
}

/// Whether `ps` places each non-empty part from `idx` on in `t`, at or
/// after `pos`, each part starting at or after the end of every earlier one.
pub open spec fn parts_placed(parts: Seq<Seq<u8>>, t: Seq<u8>, idx: int, pos: int, ps: Seq<int>) -> bool {
    &&& ps.len() == parts.len()
    &&& forall|k: int|
        idx <= k < parts.len() && parts[k].len() > 0 ==> pos <= #[trigger] ps[k] && ps[k] + parts[k].len() <= t.len()
            && t.subrange(ps[k], ps[k] + parts[k].len()) == parts[k]
    &&& forall|k: int, m: int|
        idx <= k < m < parts.len() && parts[k].len() > 0 && parts[m].len() > 0 ==> #[trigger] ps[k] + parts[k].len()
            <= #[trigger] ps[m]
}

/// A walk that succeeds found the non-empty parts in the text in order,
/// without overlap, none before `pos`.
pub proof fn lemma_glob_walk_in_order(parts: Seq<Seq<u8>>, t: Seq<u8>, idx: int, pos: int)
    requires
        0 <= idx,
        0 <= pos,
        glob_walk(parts, t, idx, pos),
    ensures
        exists|ps: Seq<int>| #[trigger] parts_placed(parts, t, idx, pos, ps),
    decreases parts.len() - idx,
{
    if idx >= parts.len() {
        let ps = Seq::new(parts.len(), |k: int| 0int);
        assert(parts_placed(parts, t, idx, pos, ps));
    } else if parts[idx].len() == 0 {
        lemma_glob_walk_in_order(parts, t, idx + 1, pos);
        let ps = choose|ps: Seq<int>| #[trigger] parts_placed(parts, t, idx + 1, pos, ps);
        assert(parts_placed(parts, t, idx, pos, ps));
    } else {
        let f = find_window(t, parts[idx], pos)->Some_0;
        lemma_find_window(t, parts[idx], pos);
        let e = f + parts[idx].len();
        lemma_glob_walk_in_order(parts, t, idx + 1, e);
        let ps0 = choose|ps: Seq<int>| #[trigger] parts_placed(parts, t, idx + 1, e, ps);
        let ps = ps0.update(idx, f);
        assert forall|k: int| idx <= k < parts.len() && parts[k].len() > 0 implies pos <= #[trigger] ps[k] && ps[k]
            + parts[k].len() <= t.len() && t.subrange(ps[k], ps[k] + parts[k].len()) == parts[k] by {
            if k > idx {
                assert(ps[k] == ps0[k]);
            }
        }
        assert forall|k: int, m: int|
            idx <= k < m < parts.len() && parts[k].len() > 0 && parts[m].len() > 0 implies #[trigger] ps[k]
            + parts[k].len() <= #[trigger] ps[m] by {
            assert(ps[m] == ps0[m]);
            assert(e <= ps0[m]);
            if k > idx {
                assert(ps[k] == ps0[k]);
                assert(ps0[k] + parts[k].len() <= ps0[m]);
            }
        }
        assert(parts_placed(parts, t, idx, pos, ps));
    }
}

/// A `*` pattern that matches a text has its parts in the text in pattern
/// order, without overlap: for `a*b`, `b` occurs after the `a`.
pub proof fn lemma_glob_single_in_order(p: Seq<u8>, t: Seq<u8>)
    requires
        spec_glob_single(p, t),
        split_from(p, seq![42u8], 0).len() > 1,
    ensures
        exists|ps: Seq<int>| #[trigger] parts_placed(split_from(p, seq![42u8], 0), t, 0, 0, ps),
{
    lemma_glob_walk_in_order(split_from(p, seq![42u8], 0), t, 0, 0);
}

/// One alternative of a pattern: without `*` it must occur in the text;
/// with `*` its parts must occur in order, the first at the start and the
/// last at the end.
pub open spec fn spec_glob_single(p: Seq<u8>, t: Seq<u8>) -> bool {
    let parts = split_from(p, seq![42u8], 0);
    if parts.len() == 1 {
        contains_bytes(t, p)
    } else {
        glob_walk(parts, t, 0, 0) && (parts.last().len() > 0 ==> ends_with(t, parts.last()))
    }
}

/// A rule pattern: empty or `*` matches anything; else `|`-separated
/// alternatives, trimmed and compared in ASCII lower case, any of which
/// matches (empty alternatives never do).
pub open spec fn spec_glob(pattern: Seq<u8>, text: Seq<u8>) -> bool {
    if pattern.len() == 0 || pattern == seq![42u8] {
        true
    } else {
        exists|i: int|
            0 <= i < split_from(pattern, seq![124u8], 0).len() && lower_bytes(
                trim_bytes(#[trigger] split_from(pattern, seq![124u8], 0)[i]),
            ).len() > 0 && spec_glob_single(
                lower_bytes(trim_bytes(split_from(pattern, seq![124u8], 0)[i])),
                lower_bytes(text),
            )
    }
}

} // verus!

verus! {

/// The parts of `s` split at each `sep`, as ranges.
pub fn split_ranges(s: &[u8], sep: u8) -> (r: Vec<(usize, usize)>)
    ensures
        r@.len() == split_from(s@, seq![sep], 0).len(),
        forall|k: int|
            0 <= k < r@.len() ==> (#[trigger] r@[k]).0 <= r@[k].1 <= s@.len() && s@.subrange(
                r@[k].0 as int,
                r@[k].1 as int,
            ) == split_from(s@, seq![sep], 0)[k] && (r@[k].0 == 0 || s@[r@[k].0 - 1] == sep) && (r@[k].1
                == s@.len() || s@[r@[k].1 as int] == sep),
{
    let one: [u8; 1] = [sep];
    assert(one@ =~= seq![sep]);
    let ghost p = seq![sep];
    let ghost all = split_from(s@, p, 0);
    let mut out: Vec<(usize, usize)> = Vec::new();
    let mut pos: usize = 0;
    loop
        invariant
            pos <= s@.len(),
            pos == 0 || s@[pos - 1] == sep,
            one@ == p,
            p == seq![sep],
            all == split_from(s@, p, 0),
            out@.len() + split_from(s@, p, pos as int).len() == all.len(),
            forall|k: int| 0 <= k < out@.len() ==> all[k] == s@.subrange((#[trigger] out@[k]).0 as int, out@[k].1 as int),
            forall|k: int| 0 <= k < split_from(s@, p, pos as int).len() ==> all[out@.len() + k] == split_from(s@, p, pos as int)[k],
            forall|k: int|
                0 <= k < out@.len() ==> (#[trigger] out@[k]).0 <= out@[k].1 <= s@.len() && (out@[k].0 == 0
                    || s@[out@[k].0 - 1] == sep) && (out@[k].1 == s@.len() || s@[out@[k].1 as int] == sep),
        decreases s@.len() - pos,
    {
        proof {
            lemma_find_window(s@, p, pos as int);
        }
        let found = find_bytes(s, one.as_slice(), pos);
        let end = match found {
            Some(k) => k,
            None => s.len(),
        };
        proof {
            if end < s@.len() {
                assert(s@.subrange(end as int, end + 1)[0] == s@[end as int]);
            }
        }
        let ghost rest = split_from(s@, p, pos as int);
        out.push((pos, end));
        match found {
            Some(k) => {
                assert(k < s.len());
                proof {
                    assert(rest == seq![s@.subrange(pos as int, k as int)] + split_from(s@, p, k + 1));
                    assert(all[out@.len() - 1] == rest[0]);
                    assert forall|j: int| 0 <= j < split_from(s@, p, k + 1).len() implies all[out@.len() + j]
                        == #[trigger] split_from(s@, p, k + 1)[j] by {
                        assert(rest[j + 1] == split_from(s@, p, k + 1)[j]);
                    }
                }
                pos = k + 1;
            },
            None => {
                proof {
                    assert(rest == seq![s@.subrange(pos as int, s@.len() as int)]);
                    assert(all[out@.len() - 1] == rest[0]);
                }
                return out;
            },
        }
    }
}

/// Whether one pattern alternative matches (see `spec_glob_single`).
pub fn glob_match_single(pattern: &[u8], text: &[u8]) -> (r: bool)
    ensures
        r == spec_glob_single(pattern@, text@),
{
    let parts = split_ranges(pattern, 42);
    let ghost ps = split_from(pattern@, seq![42u8], 0);
    if parts.len() == 1 {
        proof {
            assert(pattern@.subrange(parts@[0].0 as int, parts@[0].1 as int) == ps[0]);
        }
        return contains_exec(text, pattern);
    }
    let mut pos: usize = 0;
    let mut idx: usize = 0;
    while idx < parts.len()
        invariant
            idx <= parts@.len(),
            pos <= text@.len(),
            parts@.len() == ps.len(),
            ps == split_from(pattern@, seq![42u8], 0),
            ps.len() != 1,
            forall|k: int| 0 <= k < parts@.len() ==> (#[trigger] parts@[k]).0 <= parts@[k].1 <= pattern@.len()
                && pattern@.subrange(parts@[k].0 as int, parts@[k].1 as int) == ps[k],
            glob_walk(ps, text@, 0, 0) == glob_walk(ps, text@, idx as int, pos as int),
        decreases parts@.len() - idx,
    {
        let (a, b) = parts[idx];
        let part = &pattern[a..b];
        assert(part@ == ps[idx as int]);
        if part.len() > 0 {
            proof {
                lemma_find_window(text@, part@, pos as int);
            }
            match find_bytes(text, part, pos) {
                Some(f) => {
                    assert(f + part.len() <= text.len());
                    if idx == 0 && f != 0 {
                        assert(!glob_walk(ps, text@, idx as int, pos as int));
                        return false;
                    }
                    pos = f + part.len();
                },
                None => {
                    assert(!glob_walk(ps, text@, idx as int, pos as int));
                    return false;
                },
            }
        }
        idx = idx + 1;
    }
    let (a, b) = parts[parts.len() - 1];
    let last = &pattern[a..b];
    assert(last@ == ps.last());
    if last.len() > 0 && !ends_with_exec(text, last) {
        return false;
    }
    true
}

/// Whether a rule pattern matches a title (see `spec_glob`).
pub fn glob_match(pattern: &str, text: &str) -> (r: bool)
    ensures
        r == spec_glob(encode_utf8(pattern@), encode_utf8(text@)),
{
    let pb = str_bytes(pattern);
    if pb.len() == 0 || (pb.len() == 1 && pb[0] == 42) {
        proof {
            if pb.len() == 1 && pb@[0] == 42 {
                assert(pb@ =~= seq![42u8]);
            }
        }
        return true;
    }
    assert(pb@ != seq![42u8]) by {
        if pb@ == seq![42u8] {
            assert(pb@[0] == 42);
        }
    }
    let tl = lower_vec(str_bytes(text));
    let alts = split_ranges(pb, 124);
    let ghost ps = split_from(pb@, seq![124u8], 0);
    let mut i: usize = 0;
    while i < alts.len()
        invariant
            i <= alts@.len(),
            alts@.len() == ps.len(),
            ps == split_from(pb@, seq![124u8], 0),
            pb@ == encode_utf8(pattern@),
            pb@.len() > 0,
            pb@ != seq![42u8],
            valid_utf8(pb@),
            tl@ == lower_bytes(encode_utf8(text@)),
            forall|k: int|
                0 <= k < alts@.len() ==> (#[trigger] alts@[k]).0 <= alts@[k].1 <= pb@.len() && pb@.subrange(
                    alts@[k].0 as int,
                    alts@[k].1 as int,
                ) == ps[k] && (alts@[k].0 == 0 || pb@[alts@[k].0 - 1] == 124) && (alts@[k].1 == pb@.len()
                    || pb@[alts@[k].1 as int] == 124),
            forall|k: int|
                0 <= k < i ==> !(lower_bytes(trim_bytes(#[trigger] ps[k])).len() > 0 && spec_glob_single(
                    lower_bytes(trim_bytes(ps[k])),
                    lower_bytes(encode_utf8(text@)),
                )),
        decreases alts@.len() - i,
    {
        let (a, b) = alts[i];
        proof {
            crate::text::lemma_ascii_delimited(pb@, a as int, b as int);
        }
        let alt = trimmed(&pb[a..b]);
        let lowered = lower_vec(str_bytes(alt.as_str()));
        if lowered.len() > 0 && glob_match_single(lowered.as_slice(), tl.as_slice()) {
            proof {
                let k = i as int;
                assert(pb@.subrange(a as int, b as int) == ps[k]);
                assert(lower_bytes(trim_bytes(ps[k])).len() > 0);
                assert(spec_glob_single(lower_bytes(trim_bytes(ps[k])), lower_bytes(encode_utf8(text@))));
            }
            return true;
        }
        i = i + 1;
    }
    false
}

} // verus!

verus! {

// ---------------------------------------------------------------------
// Seen items
// ---------------------------------------------------------------------

/// The last `k` base-256 digits of `n`, most significant first.
pub open spec fn be_bytes(n: nat, k: nat) -> Seq<u8>
    decreases k,
{
    if k == 0 {
        Seq::empty()
    } else {
        be_bytes(n / 256, (k - 1) as nat).push((n % 256) as u8)
    }
}

fn push_be(out: &mut Vec<u8>, n: u64, k: usize)
    ensures
        final(out)@ == old(out)@ + be_bytes(n as nat, k as nat),
    decreases k,
{
    if k > 0 {
        push_be(out, n / 256, k - 1);
        out.push((n % 256) as u8);
        proof {
            assert(out@ =~= old(out)@ + be_bytes(n as nat, k as nat));
        }
    } else {
        assert(out@ =~= old(out)@ + be_bytes(n as nat, k as nat));
    }
}

/// A lower-case hexadecimal digit.
pub open spec fn hex_char(d: int) -> u8 {
    if d < 10 {
        (48 + d) as u8
    } else {
        (87 + d) as u8
    }
}

/// Each byte as two lower-case hexadecimal digits.
pub open spec fn hex_bytes(b: Seq<u8>) -> Seq<u8>
    decreases b.len(),
{
    if b.len() == 0 {
        Seq::empty()
    } else {
        hex_bytes(b.drop_last()) + seq![hex_char((b.last() / 16) as int), hex_char((b.last() % 16) as int)]
    }
}

/// The key that records an item of a feed as downloaded: `v3:` and the
/// hexadecimal SHA-256 of the feed URL's length (8 bytes, big-endian), the
/// feed URL and the item's guid.
pub open spec fn seen_key_bytes(feed_url: Seq<u8>, guid: Seq<u8>) -> Seq<u8> {
    seq![118u8, 51, 58] + hex_bytes(
        crate::sha256::sha256_digest(be_bytes(feed_url.len(), 8) + feed_url + guid),
    )
}

/// The older key form: `v2:`, the feed URL's length in decimal, `:`, the
/// feed URL, `:`, the guid.
pub open spec fn legacy_key_bytes(feed_url: Seq<u8>, guid: Seq<u8>) -> Seq<u8> {
    seq![118u8, 50, 58] + decimal_bytes(feed_url.len()) + seq![58u8] + feed_url + seq![58u8] + guid
}

proof fn lemma_hex_ascii(b: Seq<u8>)
    ensures
        forall|i: int| 0 <= i < hex_bytes(b).len() ==> #[trigger] hex_bytes(b)[i] < 128,
    decreases b.len(),
{
    if b.len() > 0 {
        lemma_hex_ascii(b.drop_last());
        let prev = hex_bytes(b.drop_last());
        assert forall|i: int| 0 <= i < hex_bytes(b).len() implies #[trigger] hex_bytes(b)[i] < 128 by {
            if i < prev.len() {
                assert(hex_bytes(b)[i] == prev[i]);
            }
        }
    }
}

/// The key recording an item of a feed as downloaded (see
/// `seen_key_bytes`).
pub fn seen_key(feed_url: &str, guid: &str) -> (r: String)
    ensures
        encode_utf8(r@) == seen_key_bytes(encode_utf8(feed_url@), encode_utf8(guid@)),
{
    let url = str_bytes(feed_url);
    let g = str_bytes(guid);
    let mut data: Vec<u8> = Vec::new();
    push_be(&mut data, url.len() as u64, 8);
    push_all(&mut data, url);
    push_all(&mut data, g);
    let digest = crate::sha256::sha256(data.as_slice());
    let mut out: Vec<u8> = Vec::new();
    out.push(118);
    out.push(51);
    out.push(58);
    let ghost head = out@;
    let mut i: usize = 0;
    while i < 32
        invariant
            i <= 32,
            digest@.len() == 32,
            head == seq![118u8, 51, 58],
            out@ == head + hex_bytes(digest@.subrange(0, i as int)),
        decreases 32 - i,
    {
        let b = digest[i];
        let hi = b / 16;
        let lo = b % 16;
        out.push(if hi < 10 {
            48 + hi
        } else {
            87 + hi
        });
        out.push(if lo < 10 {
            48 + lo
        } else {
            87 + lo
        });
        proof {
            assert(digest@.subrange(0, i + 1).drop_last() =~= digest@.subrange(0, i as int));
            assert(out@ =~= head + hex_bytes(digest@.subrange(0, i + 1)));
        }
        i = i + 1;
    }
    proof {
        assert(digest@.subrange(0, 32) =~= digest@);
        assert(data@ =~= be_bytes(url@.len(), 8) + url@ + g@);
        lemma_hex_ascii(digest@);
        assert forall|k: int| 0 <= k < out@.len() implies #[trigger] out@[k] < 128 by {
            if k >= 3 {
                assert(out@[k] == hex_bytes(digest@)[k - 3]);
            }
        }
        lemma_ascii_valid(out@);
    }
    string_of(out.as_slice())
}

/// The older key of an item (see `legacy_key_bytes`).
pub fn legacy_scoped_seen_key(feed_url: &str, guid: &str) -> (r: String)
    ensures
        encode_utf8(r@) == legacy_key_bytes(encode_utf8(feed_url@), encode_utf8(guid@)),
{
    let url = str_bytes(feed_url);
    let g = str_bytes(guid);
    let mut out: Vec<u8> = Vec::new();
    out.push(118);
    out.push(50);
    out.push(58);
    push_decimal_usize(&mut out, url.len());
    out.push(58);
    push_all(&mut out, url);
    out.push(58);
    push_all(&mut out, g);
    proof {
        assert(out@ =~= legacy_key_bytes(url@, g@));
        let head = seq![118u8, 50, 58] + decimal_bytes(url@.len()) + seq![58u8];
        crate::http::lemma_decimal_ascii(url@.len());
        assert forall|k: int| 0 <= k < head.len() implies #[trigger] head[k] < 128 by {
            if k >= 3 && k < 3 + decimal_bytes(url@.len()).len() {
                assert(head[k] == decimal_bytes(url@.len())[k - 3]);
            }
        }
        lemma_ascii_valid(head);
        lemma_ascii_valid(seq![58u8]);
        encode_utf8_valid_utf8(feed_url@);
        encode_utf8_valid_utf8(guid@);
        valid_utf8_concat(head, url@);
        valid_utf8_concat(head + url@, seq![58u8]);
        valid_utf8_concat(head + url@ + seq![58u8], g@);
        assert(out@ =~= head + url@ + seq![58u8] + g@);
    }
    string_of(out.as_slice())
}

pub open spec fn strings_view(v: Seq<String>) -> Seq<Seq<char>> {
    v.map_values(|s: String| s@)
}

/// The seen keys after recording `key`: unchanged when present, else
/// appended, keeping only the newest `MAX_SEEN_GUIDS`.
pub open spec fn spec_remember(seen: Seq<Seq<char>>, key: Seq<char>) -> Seq<Seq<char>> {
    if seen.contains(key) {
        seen
    } else {
        let s = seen.push(key);
        if s.len() > MAX_SEEN_GUIDS {
            s.subrange(s.len() - MAX_SEEN_GUIDS, s.len() as int)
        } else {
            s
        }
    }
}

fn contains_string(v: &[String], key: &String) -> (r: bool)
    ensures
        r == strings_view(v@).contains(key@),
{
    let mut i: usize = 0;
    while i < v.len()
        invariant
            i <= v@.len(),
            forall|j: int| 0 <= j < i ==> (#[trigger] v@[j])@ != key@,
        decreases v@.len() - i,
    {
        if v[i] == *key {
            assert(strings_view(v@)[i as int] == key@);
            return true;
        }
        i = i + 1;
    }
    proof {
        if strings_view(v@).contains(key@) {
            let j = choose|j: int| 0 <= j < strings_view(v@).len() && strings_view(v@)[j] == key@;
            assert(v@[j]@ == key@);
        }
    }
    false
}

/// Records a downloaded item's key (see `spec_remember`).
pub fn remember_seen(seen: &mut Vec<String>, key: String)
    ensures
        strings_view(final(seen)@) == spec_remember(strings_view(old(seen)@), key@),
{
    if contains_string(seen.as_slice(), &key) {
        return;
    }
    let ghost before = seen@;
    seen.push(key);
    assert(strings_view(seen@) =~= strings_view(before).push(key@));
    if seen.len() > MAX_SEEN_GUIDS {
        let remove = seen.len() - MAX_SEEN_GUIDS;
        let mut kept: Vec<String> = Vec::new();
        let mut i = remove;
        while i < seen.len()
            invariant
                remove <= i <= seen@.len(),
                kept@.len() == i - remove,
                forall|j: int| 0 <= j < kept@.len() ==> (#[trigger] kept@[j])@ == seen@[remove + j]@,
            decreases seen@.len() - i,
        {
            kept.push(seen[i].clone());
            i = i + 1;
        }
        let ghost full = strings_view(seen@);
        *seen = kept;
        assert(strings_view(seen@) =~= full.subrange(full.len() - MAX_SEEN_GUIDS, full.len() as int));
    }
}

} // verus!

verus! {

/// An item already downloaded from the feed at `url`: its guid, its key,
/// or its older key is among the seen keys.
pub open spec fn item_seen(item: FeedItem, seen: Seq<Seq<char>>, url: Seq<char>) -> bool {
    seen.contains(item.guid@) || seen.contains(
        decode_utf8(seen_key_bytes(encode_utf8(url), encode_utf8(item.guid@))),
    ) || seen.contains(decode_utf8(legacy_key_bytes(encode_utf8(url), encode_utf8(item.guid@))))
}

/// A rule that applies to an item of the feed at `url`: for that feed (or
/// any) and with a pattern matching the title.
pub open spec fn rule_applies(rule: RssRule, item: FeedItem, url: Seq<char>) -> bool {
    (rule.feed_url@.len() == 0 || rule.feed_url@ == url) && spec_glob(
        encode_utf8(rule.pattern@),
        encode_utf8(item.title@),
    )
}

/// The first rule from `k` on that applies.
pub open spec fn first_rule(rules: Seq<RssRule>, item: FeedItem, url: Seq<char>, k: int) -> Option<int>
    decreases rules.len() - k,
{
    if k < 0 || k >= rules.len() {
        None
    } else if rule_applies(rules[k], item, url) {
        Some(k)
    } else {
        first_rule(rules, item, url, k + 1)
    }
}

/// The (item, rule) pairs to download, as positions: each unseen torrent
/// item with the first rule that applies to it, in item order.
pub open spec fn spec_matches(items: Seq<FeedItem>, rules: Seq<RssRule>, seen: Seq<Seq<char>>, url: Seq<char>) -> Seq<
    (int, int),
>
    decreases items.len(),
{
    if items.len() == 0 {
        Seq::empty()
    } else {
        let prev = spec_matches(items.drop_last(), rules, seen, url);
        let item = items.last();
        if item_seen(item, seen, url) || !item.is_torrent {
            prev
        } else {
            match first_rule(rules, item, url, 0) {
                None => prev,
                Some(j) => prev.push((items.len() - 1, j)),
            }
        }
    }
}

fn first_rule_exec(rules: &[RssRule], item: &FeedItem, feed_url: &str) -> (r: Option<usize>)
    ensures
        match first_rule(rules@, *item, feed_url@, 0) {
            Some(j) => r == Some(j as usize),
            None => r is None,
        },
{
    let mut k: usize = 0;
    while k < rules.len()
        invariant
            k <= rules@.len(),
            first_rule(rules@, *item, feed_url@, 0) == first_rule(rules@, *item, feed_url@, k as int),
        decreases rules@.len() - k,
    {
        let rule = &rules[k];
        let rb = str_bytes(rule.feed_url.as_str());
        let for_feed = rb.len() == 0 || bytes_equal(rb, str_bytes(feed_url));
        proof {
            encode_utf8_decode_utf8(rule.feed_url@);
            encode_utf8_decode_utf8(feed_url@);
            if rule.feed_url@.len() == 0 {
                assert(encode_utf8(rule.feed_url@).len() == 0);
            }
        }
        assert(for_feed == (rule.feed_url@.len() == 0 || rule.feed_url@ == feed_url@)) by {
            if encode_utf8(rule.feed_url@).len() == 0 {
                assert(decode_utf8(encode_utf8(rule.feed_url@)).len() == 0);
            }
        }
        if for_feed && glob_match(rule.pattern.as_str(), item.title.as_str()) {
            return Some(k);
        }
        k = k + 1;
    }
    None
}

/// The items to download and the rule each matched (see `spec_matches`).
pub fn match_rules<'a>(items: &'a [FeedItem], rules: &'a [RssRule], seen: &[String], feed_url: &str) -> (r: Vec<
    (&'a FeedItem, &'a RssRule),
>)
    ensures
        r@.len() == spec_matches(items@, rules@, strings_view(seen@), feed_url@).len(),
        forall|k: int|
            0 <= k < r@.len() ==> *(#[trigger] r@[k]).0 == items@[spec_matches(
                items@,
                rules@,
                strings_view(seen@),
                feed_url@,
            )[k].0] && *r@[k].1 == rules@[spec_matches(items@, rules@, strings_view(seen@), feed_url@)[k].1],
{
    let ghost sv = strings_view(seen@);
    let mut out: Vec<(&'a FeedItem, &'a RssRule)> = Vec::new();
    let mut i: usize = 0;
    while i < items.len()
        invariant
            i <= items@.len(),
            sv == strings_view(seen@),
            out@.len() == spec_matches(items@.subrange(0, i as int), rules@, sv, feed_url@).len(),
            forall|k: int|
                0 <= k < out@.len() ==> *(#[trigger] out@[k]).0 == items@[spec_matches(
                    items@.subrange(0, i as int),
                    rules@,
                    sv,
                    feed_url@,
                )[k].0] && *out@[k].1 == rules@[spec_matches(items@.subrange(0, i as int), rules@, sv, feed_url@)[k].1],
            forall|k: int|
                0 <= k < spec_matches(items@.subrange(0, i as int), rules@, sv, feed_url@).len() ==> 0
                    <= (#[trigger] spec_matches(items@.subrange(0, i as int), rules@, sv, feed_url@)[k]).0 < i
                    && 0 <= spec_matches(items@.subrange(0, i as int), rules@, sv, feed_url@)[k].1 < rules@.len(),
        decreases items@.len() - i,
    {
        let item = &items[i];
        let ghost prefix = items@.subrange(0, i + 1);
        assert(prefix.drop_last() =~= items@.subrange(0, i as int));
        assert(prefix.last() == *item);
        let scoped = seen_key(feed_url, item.guid.as_str());
        let legacy = legacy_scoped_seen_key(feed_url, item.guid.as_str());
        proof {
            encode_utf8_decode_utf8(scoped@);
            encode_utf8_decode_utf8(legacy@);
        }
        let skip = contains_string(seen, &item.guid) || contains_string(seen, &scoped) || contains_string(
            seen,
            &legacy,
        ) || !item.is_torrent;
        if !skip {
            match first_rule_exec(rules, item, feed_url) {
                Some(j) => {
                    proof {
                        lemma_first_rule_range(rules@, *item, feed_url@, 0);
                    }
                    out.push((item, &rules[j]));
                },
                None => {},
            }
        }
        i = i + 1;
    }
    assert(items@.subrange(0, i as int) =~= items@);
    out
}

proof fn lemma_first_rule_range(rules: Seq<RssRule>, item: FeedItem, url: Seq<char>, k: int)
    requires
        0 <= k,
    ensures
        first_rule(rules, item, url, k) matches Some(j) ==> k <= j < rules.len(),
    decreases rules.len() - k,
{
    if k < rules.len() && !rule_applies(rules[k], item, url) {
        lemma_first_rule_range(rules, item, url, k + 1);
    }
}

} // verus!

verus! {

// ---------------------------------------------------------------------
// Saved state
// ---------------------------------------------------------------------

/// The value under the first entry of `key` from position `i` on.
pub open spec fn sdict_get_from(d: Seq<(Seq<u8>, crate::bencode::SpecValue)>, key: Seq<u8>, i: int) -> Option<
    crate::bencode::SpecValue,
>
    decreases d.len() - i,
{
    if i < 0 || i >= d.len() {
        None
    } else if d[i].0 == key {
        Some(d[i].1)
    } else {
        sdict_get_from(d, key, i + 1)
    }
}

/// A UTF-8 byte string under `key`.
pub open spec fn sdict_str(d: Seq<(Seq<u8>, crate::bencode::SpecValue)>, key: Seq<u8>) -> Option<Seq<u8>> {
    match sdict_get_from(d, key, 0) {
        Some(crate::bencode::SpecValue::Bytes(b)) => if valid_utf8(b) {
            Some(b)
        } else {
            None
        },
        _ => None,
    }
}

/// An integer under `key`.
pub open spec fn sdict_int(d: Seq<(Seq<u8>, crate::bencode::SpecValue)>, key: Seq<u8>) -> Option<int> {
    match sdict_get_from(d, key, 0) {
        Some(crate::bencode::SpecValue::Int(n)) => Some(n),
        _ => None,
    }
}

pub open spec fn or_empty(o: Option<Seq<u8>>) -> Seq<u8> {
    match o {
        Some(b) => b,
        None => Seq::empty(),
    }
}

pub open spec fn key_url() -> Seq<u8> {
    seq![117u8, 114, 108]
}

pub open spec fn key_title() -> Seq<u8> {
    seq![116u8, 105, 116, 108, 101]
}

pub open spec fn key_last_poll() -> Seq<u8> {
    seq![108u8, 97, 115, 116, 95, 112, 111, 108, 108]
}

pub open spec fn key_poll_interval() -> Seq<u8> {
    seq![112u8, 111, 108, 108, 95, 105, 110, 116, 101, 114, 118, 97, 108]
}

pub open spec fn key_name() -> Seq<u8> {
    seq![110u8, 97, 109, 101]
}

pub open spec fn key_feed_url() -> Seq<u8> {
    seq![102u8, 101, 101, 100, 95, 117, 114, 108]
}

pub open spec fn key_pattern() -> Seq<u8> {
    seq![112u8, 97, 116, 116, 101, 114, 110]
}

pub open spec fn key_feeds() -> Seq<u8> {
    seq![102u8, 101, 101, 100, 115]
}

pub open spec fn key_rules() -> Seq<u8> {
    seq![114u8, 117, 108, 101, 115]
}

pub open spec fn key_seen() -> Seq<u8> {
    seq![115u8, 101, 101, 110]
}

/// A saved feed as bytes: url, title, last poll, poll interval.
pub type FeedModel = (Seq<u8>, Seq<u8>, u64, u64);

/// A saved rule as bytes: name, feed url, pattern.
pub type RuleModel = (Seq<u8>, Seq<u8>, Seq<u8>);

/// A saved feed entry: a dictionary with a non-blank `url` and a `title`
/// of at most `MAX_RSS_TEXT_BYTES` bytes (a missing or non-UTF-8 text is
/// empty); `last_poll` defaults to 0 and is at least 0, `poll_interval`
/// defaults to 900 and is at least 1.
pub open spec fn saved_feed(v: crate::bencode::SpecValue) -> Option<FeedModel> {
    match v {
        crate::bencode::SpecValue::Dict(fd) => {
            let url = or_empty(sdict_str(fd, key_url()));
            let title = or_empty(sdict_str(fd, key_title()));
            if trim_bytes(url).len() == 0 || url.len() > MAX_RSS_TEXT_BYTES || title.len() > MAX_RSS_TEXT_BYTES {
                None
            } else {
                let lp = match sdict_int(fd, key_last_poll()) {
                    Some(n) => n,
                    None => 0,
                };
                let pi = match sdict_int(fd, key_poll_interval()) {
                    Some(n) => n,
                    None => 900,
                };
                Some(
                    (
                        url,
                        title,
                        (if lp < 0 {
                            0
                        } else {
                            lp
                        }) as u64,
                        (if pi < 1 {
                            1
                        } else {
                            pi
                        }) as u64,
                    ),
                )
            }
        },
        _ => None,
    }
}

/// A saved rule entry: a dictionary with a non-blank `name` and `pattern`,
/// within their size limits (a missing or non-UTF-8 text is empty).
pub open spec fn saved_rule(v: crate::bencode::SpecValue) -> Option<RuleModel> {
    match v {
        crate::bencode::SpecValue::Dict(rd) => {
            let name = or_empty(sdict_str(rd, key_name()));
            let feed_url = or_empty(sdict_str(rd, key_feed_url()));
            let pattern = or_empty(sdict_str(rd, key_pattern()));
            if trim_bytes(name).len() > 0 && trim_bytes(pattern).len() > 0 && name.len() <= MAX_RSS_TEXT_BYTES
                && feed_url.len() <= MAX_RSS_TEXT_BYTES && pattern.len() <= MAX_RSS_PATTERN_BYTES {
                Some((name, feed_url, pattern))
            } else {
                None
            }
        },
        _ => None,
    }
}

pub open spec fn saved_feeds(list: Seq<crate::bencode::SpecValue>) -> Seq<FeedModel>
    decreases list.len(),
{
    if list.len() == 0 {
        Seq::empty()
    } else {
        let prev = saved_feeds(list.drop_last());
        match saved_feed(list.last()) {
            Some(f) => prev.push(f),
            None => prev,
        }
    }
}

pub open spec fn saved_rules(list: Seq<crate::bencode::SpecValue>) -> Seq<RuleModel>
    decreases list.len(),
{
    if list.len() == 0 {
        Seq::empty()
    } else {
        let prev = saved_rules(list.drop_last());
        match saved_rule(list.last()) {
            Some(r) => prev.push(r),
            None => prev,
        }
    }
}

/// The seen keys kept, newest first: walking from the end, each
/// non-empty UTF-8 entry of at most `MAX_RSS_TEXT_BYTES` bytes not kept
/// already, until `MAX_SEEN_GUIDS` are kept.
pub open spec fn seen_pick(list: Seq<crate::bencode::SpecValue>, acc: Seq<Seq<u8>>) -> Seq<Seq<u8>>
    decreases list.len(),
{
    if list.len() == 0 || acc.len() >= MAX_SEEN_GUIDS {
        acc
    } else {
        let next = match list.last() {
            crate::bencode::SpecValue::Bytes(b) => if b.len() > 0 && b.len() <= MAX_RSS_TEXT_BYTES && valid_utf8(b)
                && !acc.contains(b) {
                acc.push(b)
            } else {
                acc
            },
            _ => acc,
        };
        seen_pick(list.drop_last(), next)
    }
}

pub open spec fn list_of(v: Option<crate::bencode::SpecValue>) -> Seq<crate::bencode::SpecValue> {
    match v {
        Some(crate::bencode::SpecValue::List(l)) => l,
        _ => Seq::empty(),
    }
}

/// A saved state as bytes: feeds, rules, and seen keys oldest first.
pub type StateModel = (Seq<FeedModel>, Seq<RuleModel>, Seq<Seq<u8>>);

/// A saved state: bencode whose top value is a dictionary; its `feeds`,
/// `rules` and `seen` lists (when present) give the entries that pass
/// `saved_feed`, `saved_rule` and `seen_pick`; more than `MAX_RSS_FEEDS`
/// feeds or `MAX_RSS_RULES` rules are refused.
pub open spec fn spec_parse_rss_state(data: Seq<u8>) -> Result<StateModel, Seq<char>> {
    match crate::bencode::spec_parse(data) {
        Err(e) => Err("rss parse: "@ + crate::bencode::error_text(e)),
        Ok(crate::bencode::SpecValue::Dict(d)) => {
            let feeds = list_of(sdict_get_from(d, key_feeds(), 0));
            let rules = list_of(sdict_get_from(d, key_rules(), 0));
            if feeds.len() > MAX_RSS_FEEDS {
                Err("rss state has too many feeds"@)
            } else if rules.len() > MAX_RSS_RULES {
                Err("rss state has too many rules"@)
            } else {
                Ok(
                    (
                        saved_feeds(feeds),
                        saved_rules(rules),
                        seen_pick(list_of(sdict_get_from(d, key_seen(), 0)), Seq::empty()).reverse(),
                    ),
                )
            }
        },
        Ok(_) => Err("rss state not a dict"@),
    }
}

pub open spec fn feed_model(f: RssFeed) -> FeedModel {
    (encode_utf8(f.url@), encode_utf8(f.title@), f.last_poll, f.poll_interval_secs)
}

pub open spec fn rule_model(r: RssRule) -> RuleModel {
    (encode_utf8(r.name@), encode_utf8(r.feed_url@), encode_utf8(r.pattern@))
}

pub open spec fn state_model(s: RssState) -> StateModel {
    (
        s.feeds@.map_values(|f: RssFeed| feed_model(f)),
        s.rules@.map_values(|r: RssRule| rule_model(r)),
        s.seen_guids@.map_values(|g: String| encode_utf8(g@)),
    )
}

} // verus!

verus! {

fn dict_get<'a>(dict: &'a [(Vec<u8>, crate::bencode::Value)], key: &[u8]) -> (r: Option<&'a crate::bencode::Value>)
    ensures
        match sdict_get_from(crate::bencode::entries_view(dict@), key@, 0) {
            Some(v) => r matches Some(x) && x@ == v,
            None => r is None,
        },
{
    proof {
        crate::bencode::lemma_entries_view_index(dict@);
    }
    let ghost ev = crate::bencode::entries_view(dict@);
    let mut i: usize = 0;
    while i < dict.len()
        invariant
            i <= dict@.len(),
            ev == crate::bencode::entries_view(dict@),
            ev.len() == dict@.len(),
            forall|j: int| 0 <= j < dict@.len() ==> #[trigger] ev[j] == (dict@[j].0@, dict@[j].1@),
            sdict_get_from(ev, key@, 0) == sdict_get_from(ev, key@, i as int),
        decreases dict@.len() - i,
    {
        if bytes_equal(dict[i].0.as_slice(), key) {
            return Some(&dict[i].1);
        }
        i = i + 1;
    }
    None
}

fn dict_get_str(dict: &[(Vec<u8>, crate::bencode::Value)], key: &[u8]) -> (r: Option<String>)
    ensures
        match sdict_str(crate::bencode::entries_view(dict@), key@) {
            Some(b) => r matches Some(s) && encode_utf8(s@) == b,
            None => r is None,
        },
{
    match dict_get(dict, key) {
        Some(crate::bencode::Value::Bytes(b)) => crate::text::string_from_utf8(bytes_to_vec(b.as_slice())),
        _ => None,
    }
}

fn dict_get_int(dict: &[(Vec<u8>, crate::bencode::Value)], key: &[u8]) -> (r: Option<i64>)
    ensures
        match sdict_int(crate::bencode::entries_view(dict@), key@) {
            Some(n) => r matches Some(m) && m as int == n,
            None => r is None,
        },
{
    match dict_get(dict, key) {
        Some(crate::bencode::Value::Int(n)) => Some(*n),
        _ => None,
    }
}

fn string_or_empty(o: Option<String>) -> (r: String)
    ensures
        encode_utf8(r@) == or_empty(
            match o {
                Some(s) => Some(encode_utf8(s@)),
                None => None,
            },
        ),
{
    match o {
        Some(s) => s,
        None => String::new(),
    }
}

fn read_feed(v: &crate::bencode::Value) -> (r: Option<RssFeed>)
    ensures
        match saved_feed(v@) {
            Some(f) => r matches Some(x) && feed_model(x) == f && x.items@.len() == 0,
            None => r is None,
        },
{
    match v {
        crate::bencode::Value::Dict(fd) => {
            let ku: [u8; 3] = [117, 114, 108];
            let kt: [u8; 5] = [116, 105, 116, 108, 101];
            let kl: [u8; 9] = [108, 97, 115, 116, 95, 112, 111, 108, 108];
            let kp: [u8; 13] = [112, 111, 108, 108, 95, 105, 110, 116, 101, 114, 118, 97, 108];
            assert(ku@ =~= key_url());
            assert(kt@ =~= key_title());
            assert(kl@ =~= key_last_poll());
            assert(kp@ =~= key_poll_interval());
            let url = string_or_empty(dict_get_str(fd.as_slice(), ku.as_slice()));
            let title = string_or_empty(dict_get_str(fd.as_slice(), kt.as_slice()));
            let ub = str_bytes(url.as_str());
            let tb = str_bytes(title.as_str());
            let trimmed_url = trimmed(ub);
            if str_bytes(trimmed_url.as_str()).len() == 0 || ub.len() > MAX_RSS_TEXT_BYTES || tb.len()
                > MAX_RSS_TEXT_BYTES {
                return None;
            }
            let lp = match dict_get_int(fd.as_slice(), kl.as_slice()) {
                Some(n) => n,
                None => 0,
            };
            let pi = match dict_get_int(fd.as_slice(), kp.as_slice()) {
                Some(n) => n,
                None => 900,
            };
            let last_poll: u64 = if lp < 0 {
                0
            } else {
                lp as u64
            };
            let interval: u64 = if pi < 1 {
                1
            } else {
                pi as u64
            };
            Some(RssFeed { url, title, items: Vec::new(), last_poll, poll_interval_secs: interval })
        },
        _ => None,
    }
}

fn read_rule(v: &crate::bencode::Value) -> (r: Option<RssRule>)
    ensures
        match saved_rule(v@) {
            Some(m) => r matches Some(x) && rule_model(x) == m,
            None => r is None,
        },
{
    match v {
        crate::bencode::Value::Dict(rd) => {
            let kn: [u8; 4] = [110, 97, 109, 101];
            let kf: [u8; 8] = [102, 101, 101, 100, 95, 117, 114, 108];
            let kp: [u8; 7] = [112, 97, 116, 116, 101, 114, 110];
            assert(kn@ =~= key_name());
            assert(kf@ =~= key_feed_url());
            assert(kp@ =~= key_pattern());
            let name = string_or_empty(dict_get_str(rd.as_slice(), kn.as_slice()));
            let feed_url = string_or_empty(dict_get_str(rd.as_slice(), kf.as_slice()));
            let pattern = string_or_empty(dict_get_str(rd.as_slice(), kp.as_slice()));
            let nb = str_bytes(name.as_str());
            let fb = str_bytes(feed_url.as_str());
            let pb = str_bytes(pattern.as_str());
            let tn = trimmed(nb);
            let tp = trimmed(pb);
            if str_bytes(tn.as_str()).len() > 0 && str_bytes(tp.as_str()).len() > 0 && nb.len()
                <= MAX_RSS_TEXT_BYTES && fb.len() <= MAX_RSS_TEXT_BYTES && pb.len() <= MAX_RSS_PATTERN_BYTES {
                Some(RssRule { name, feed_url, pattern })
            } else {
                None
            }
        },
        _ => None,
    }
}

} // verus!

verus! {

fn list_items(v: Option<&crate::bencode::Value>) -> (r: &[crate::bencode::Value])
    ensures
        crate::bencode::list_view(r@) == list_of(
            match v {
                Some(x) => Some(x@),
                None => None,
            },
        ),
{
    match v {
        Some(crate::bencode::Value::List(items)) => items.as_slice(),
        _ => {
            let empty: &[crate::bencode::Value] = &[];
            assert(empty@ =~= Seq::<crate::bencode::Value>::empty());
            empty
        },
    }
}

fn read_feeds(list: &[crate::bencode::Value]) -> (r: Vec<RssFeed>)
    ensures
        r@.map_values(|f: RssFeed| feed_model(f)) == saved_feeds(crate::bencode::list_view(list@)),
        forall|k: int| 0 <= k < r@.len() ==> (#[trigger] r@[k]).items@.len() == 0,
{
    proof {
        crate::bencode::lemma_list_view_index(list@);
    }
    let ghost lv = crate::bencode::list_view(list@);
    let mut out: Vec<RssFeed> = Vec::new();
    let mut i: usize = 0;
    while i < list.len()
        invariant
            i <= list@.len(),
            lv == crate::bencode::list_view(list@),
            lv.len() == list@.len(),
            forall|j: int| 0 <= j < list@.len() ==> #[trigger] lv[j] == list@[j]@,
            out@.map_values(|f: RssFeed| feed_model(f)) == saved_feeds(lv.subrange(0, i as int)),
            forall|k: int| 0 <= k < out@.len() ==> (#[trigger] out@[k]).items@.len() == 0,
        decreases list@.len() - i,
    {
        let ghost before = out@;
        match read_feed(&list[i]) {
            Some(f) => {
                out.push(f);
            },
            None => {},
        }
        proof {
            assert(lv.subrange(0, i + 1).drop_last() =~= lv.subrange(0, i as int));
            assert(lv.subrange(0, i + 1).last() == list@[i as int]@);
            assert(out@.map_values(|f: RssFeed| feed_model(f)) =~= saved_feeds(lv.subrange(0, i + 1)));
        }
        i = i + 1;
    }
    assert(lv.subrange(0, i as int) =~= lv);
    out
}

fn read_rules(list: &[crate::bencode::Value]) -> (r: Vec<RssRule>)
    ensures
        r@.map_values(|x: RssRule| rule_model(x)) == saved_rules(crate::bencode::list_view(list@)),
{
    proof {
        crate::bencode::lemma_list_view_index(list@);
    }
    let ghost lv = crate::bencode::list_view(list@);
    let mut out: Vec<RssRule> = Vec::new();
    let mut i: usize = 0;
    while i < list.len()
        invariant
            i <= list@.len(),
            lv == crate::bencode::list_view(list@),
            lv.len() == list@.len(),
            forall|j: int| 0 <= j < list@.len() ==> #[trigger] lv[j] == list@[j]@,
            out@.map_values(|x: RssRule| rule_model(x)) == saved_rules(lv.subrange(0, i as int)),
        decreases list@.len() - i,
    {
        match read_rule(&list[i]) {
            Some(x) => {
                out.push(x);
            },
            None => {},
        }
        proof {
            assert(lv.subrange(0, i + 1).drop_last() =~= lv.subrange(0, i as int));
            assert(lv.subrange(0, i + 1).last() == list@[i as int]@);
            assert(out@.map_values(|x: RssRule| rule_model(x)) =~= saved_rules(lv.subrange(0, i + 1)));
        }
        i = i + 1;
    }
    assert(lv.subrange(0, i as int) =~= lv);
    out
}

proof fn lemma_encode_injective(a: Seq<char>, b: Seq<char>)
    requires
        encode_utf8(a) == encode_utf8(b),
    ensures
        a == b,
{
    encode_utf8_decode_utf8(a);
    encode_utf8_decode_utf8(b);
}

fn read_seen(list: &[crate::bencode::Value]) -> (r: Vec<String>)
    ensures
        r@.map_values(|g: String| encode_utf8(g@)) == seen_pick(crate::bencode::list_view(list@), Seq::empty()).reverse(),
{
    proof {
        crate::bencode::lemma_list_view_index(list@);
    }
    let ghost lv = crate::bencode::list_view(list@);
    let mut acc: Vec<String> = Vec::new();
    let mut i: usize = list.len();
    assert(lv.subrange(0, i as int) =~= lv);
    assert(acc@.map_values(|g: String| encode_utf8(g@)) =~= Seq::<Seq<u8>>::empty());
    while i > 0
        invariant
            i <= list@.len(),
            lv == crate::bencode::list_view(list@),
            lv.len() == list@.len(),
            forall|j: int| 0 <= j < list@.len() ==> #[trigger] lv[j] == list@[j]@,
            seen_pick(lv, Seq::empty()) == seen_pick(
                lv.subrange(0, i as int),
                acc@.map_values(|g: String| encode_utf8(g@)),
            ),
        ensures
            i == 0 || acc@.len() >= MAX_SEEN_GUIDS,
            seen_pick(lv, Seq::empty()) == seen_pick(
                lv.subrange(0, i as int),
                acc@.map_values(|g: String| encode_utf8(g@)),
            ),
        decreases i,
    {
        let ghost av = acc@.map_values(|g: String| encode_utf8(g@));
        if acc.len() >= MAX_SEEN_GUIDS {
            break;
        }
        let ghost sub = lv.subrange(0, i as int);
        assert(sub.drop_last() =~= lv.subrange(0, i - 1));
        assert(sub.last() == list@[i - 1]@);
        match &list[i - 1] {
            crate::bencode::Value::Bytes(b) => {
                if b.len() > 0 && b.len() <= MAX_RSS_TEXT_BYTES {
                    match crate::text::string_from_utf8(bytes_to_vec(b.as_slice())) {
                        Some(s) => {
                            let present = contains_string(acc.as_slice(), &s);
                            proof {
                                if av.contains(b@) {
                                    let k = choose|k: int| 0 <= k < av.len() && av[k] == b@;
                                    lemma_encode_injective(acc@[k]@, s@);
                                    assert(strings_view(acc@)[k] == s@);
                                }
                                if strings_view(acc@).contains(s@) {
                                    let k = choose|k: int| 0 <= k < strings_view(acc@).len() && strings_view(acc@)[k] == s@;
                                    assert(av[k] == b@);
                                }
                            }
                            if !present {
                                acc.push(s);
                                assert(acc@.map_values(|g: String| encode_utf8(g@)) =~= av.push(b@));
                            }
                        },
                        None => {},
                    }
                }
            },
            _ => {},
        }
        i = i - 1;
    }
    let ghost av = acc@.map_values(|g: String| encode_utf8(g@));
    assert(seen_pick(lv.subrange(0, i as int), av) == av) by {
        if i == 0 {
            assert(lv.subrange(0, 0).len() == 0);
        } else {
            assert(av.len() == acc@.len());
        }
    }
    let mut out: Vec<String> = Vec::new();
    let mut k: usize = acc.len();
    while k > 0
        invariant
            k <= acc@.len(),
            out@.len() == acc@.len() - k,
            forall|x: int| 0 <= x < out@.len() ==> (#[trigger] out@[x])@ == acc@[acc@.len() - 1 - x]@,
        decreases k,
    {
        out.push(acc[k - 1].clone());
        k = k - 1;
    }
    assert(out@.map_values(|g: String| encode_utf8(g@)) =~= av.reverse());
    out
}

/// Reads a saved state (see `spec_parse_rss_state`).
pub fn parse_rss_state(data: &[u8]) -> (r: Result<RssState, String>)
    ensures
        match spec_parse_rss_state(data@) {
            Ok(m) => r matches Ok(s) && state_model(s) == m,
            Err(e) => r matches Err(msg) && msg@ == e,
        },
{
    let value = match crate::bencode::parse(data) {
        Ok(v) => v,
        Err(e) => {
            let mut m = "rss parse: ".to_string();
            m.append(e.message().as_str());
            return Err(m);
        },
    };
    let dict = match &value {
        crate::bencode::Value::Dict(d) => d,
        _ => {
            return Err("rss state not a dict".to_string());
        },
    };
    let kf: [u8; 5] = [102, 101, 101, 100, 115];
    let kr: [u8; 5] = [114, 117, 108, 101, 115];
    let ks: [u8; 4] = [115, 101, 101, 110];
    assert(kf@ =~= key_feeds());
    assert(kr@ =~= key_rules());
    assert(ks@ =~= key_seen());
    let feeds = list_items(dict_get(dict.as_slice(), kf.as_slice()));
    proof {
        crate::bencode::lemma_list_view_index(feeds@);
    }
    if feeds.len() > MAX_RSS_FEEDS {
        return Err("rss state has too many feeds".to_string());
    }
    let rules = list_items(dict_get(dict.as_slice(), kr.as_slice()));
    proof {
        crate::bencode::lemma_list_view_index(rules@);
    }
    if rules.len() > MAX_RSS_RULES {
        return Err("rss state has too many rules".to_string());
    }
    let seen = list_items(dict_get(dict.as_slice(), ks.as_slice()));
    let state = RssState { feeds: read_feeds(feeds), rules: read_rules(rules), seen_guids: read_seen(seen) };
    Ok(state)
}

} // verus!

verus! {

/// A saved feed as a bencode dictionary; times above `i64::MAX` are
/// clamped.
pub open spec fn feed_value(f: FeedModel) -> crate::bencode::SpecValue {
    crate::bencode::SpecValue::Dict(
        seq![
            (key_url(), crate::bencode::SpecValue::Bytes(f.0)),
            (key_title(), crate::bencode::SpecValue::Bytes(f.1)),
            (key_last_poll(), crate::bencode::SpecValue::Int(if f.2 > i64::MAX { i64::MAX as int } else { f.2 as int })),
            (key_poll_interval(), crate::bencode::SpecValue::Int(if f.3 > i64::MAX { i64::MAX as int } else { f.3 as int })),
        ],
    )
}

/// A saved rule as a bencode dictionary.
pub open spec fn rule_value(r: RuleModel) -> crate::bencode::SpecValue {
    crate::bencode::SpecValue::Dict(
        seq![
            (key_name(), crate::bencode::SpecValue::Bytes(r.0)),
            (key_feed_url(), crate::bencode::SpecValue::Bytes(r.1)),
            (key_pattern(), crate::bencode::SpecValue::Bytes(r.2)),
        ],
    )
}

/// A whole state as a bencode dictionary of `feeds`, `rules` and `seen`.
pub open spec fn state_value(s: StateModel) -> crate::bencode::SpecValue {
    crate::bencode::SpecValue::Dict(
        seq![
            (key_feeds(), crate::bencode::SpecValue::List(s.0.map_values(|f: FeedModel| feed_value(f)))),
            (key_rules(), crate::bencode::SpecValue::List(s.1.map_values(|r: RuleModel| rule_value(r)))),
            (key_seen(), crate::bencode::SpecValue::List(s.2.map_values(|g: Seq<u8>| crate::bencode::SpecValue::Bytes(g)))),
        ],
    )
}

/// A state whose feeds and rules fit their size limits.
pub open spec fn state_fits(s: StateModel) -> bool {
    &&& forall|i: int| 0 <= i < s.0.len() ==> (#[trigger] s.0[i]).0.len() <= MAX_RSS_TEXT_BYTES && s.0[i].1.len() <= MAX_RSS_TEXT_BYTES
    &&& forall|i: int| 0 <= i < s.1.len() ==> (#[trigger] s.1[i]).0.len() <= MAX_RSS_TEXT_BYTES && s.1[i].1.len() <= MAX_RSS_TEXT_BYTES && s.1[i].2.len() <= MAX_RSS_PATTERN_BYTES
}

/// The bytes a state is saved as: refused with too many feeds or rules,
/// with an oversized text, or when the bencode decoder could not read it
/// back; else the encoding of `state_value`.
pub open spec fn spec_encode_rss_state(s: StateModel) -> Result<Seq<u8>, Seq<char>> {
    if s.0.len() > MAX_RSS_FEEDS || s.1.len() > MAX_RSS_RULES {
        Err("rss save: too many feeds or rules"@)
    } else if !state_fits(s) {
        Err("rss save: feed or rule text is too large"@)
    } else {
        match crate::bencode::spec_validate(state_value(s), 0, crate::bencode::MAX_VALUES as int) {
            Err(e) => Err("rss save: state structure exceeds parser limits: "@ + crate::bencode::error_text(e)),
            Ok(_) => Ok(crate::bencode::spec_encode(state_value(s))),
        }
    }
}

fn clamp_i64(n: u64) -> (r: i64)
    ensures
        r as int == (if n > i64::MAX { i64::MAX as int } else { n as int }),
{
    if n > i64::MAX as u64 {
        i64::MAX
    } else {
        n as i64
    }
}

fn text_value(s: &String) -> (r: crate::bencode::Value)
    ensures
        r@ == crate::bencode::SpecValue::Bytes(encode_utf8(s@)),
{
    crate::bencode::Value::Bytes(bytes_to_vec(str_bytes(s.as_str())))
}

fn key_entry(key: &[u8], v: crate::bencode::Value) -> (r: (Vec<u8>, crate::bencode::Value))
    ensures
        r.0@ == key@,
        r.1 == v,
{
    (bytes_to_vec(key), v)
}

fn feed_to_value(f: &RssFeed) -> (r: crate::bencode::Value)
    ensures
        r@ == feed_value(feed_model(*f)),
{
    let ku: [u8; 3] = [117, 114, 108];
    let kt: [u8; 5] = [116, 105, 116, 108, 101];
    let kl: [u8; 9] = [108, 97, 115, 116, 95, 112, 111, 108, 108];
    let kp: [u8; 13] = [112, 111, 108, 108, 95, 105, 110, 116, 101, 114, 118, 97, 108];
    let mut entries: Vec<(Vec<u8>, crate::bencode::Value)> = Vec::new();
    entries.push(key_entry(ku.as_slice(), text_value(&f.url)));
    entries.push(key_entry(kt.as_slice(), text_value(&f.title)));
    entries.push(key_entry(kl.as_slice(), crate::bencode::Value::Int(clamp_i64(f.last_poll))));
    entries.push(key_entry(kp.as_slice(), crate::bencode::Value::Int(clamp_i64(f.poll_interval_secs))));
    proof {
        crate::bencode::lemma_entries_view_index(entries@);
        assert(crate::bencode::entries_view(entries@) =~= seq![
            (key_url(), crate::bencode::SpecValue::Bytes(encode_utf8(f.url@))),
            (key_title(), crate::bencode::SpecValue::Bytes(encode_utf8(f.title@))),
            (key_last_poll(), crate::bencode::SpecValue::Int(if f.last_poll > i64::MAX { i64::MAX as int } else { f.last_poll as int })),
            (key_poll_interval(), crate::bencode::SpecValue::Int(if f.poll_interval_secs > i64::MAX { i64::MAX as int } else { f.poll_interval_secs as int })),
        ]);
    }
    crate::bencode::Value::Dict(entries)
}

fn rule_to_value(r0: &RssRule) -> (r: crate::bencode::Value)
    ensures
        r@ == rule_value(rule_model(*r0)),
{
    let kn: [u8; 4] = [110, 97, 109, 101];
    let kf: [u8; 8] = [102, 101, 101, 100, 95, 117, 114, 108];
    let kp: [u8; 7] = [112, 97, 116, 116, 101, 114, 110];
    let mut entries: Vec<(Vec<u8>, crate::bencode::Value)> = Vec::new();
    entries.push(key_entry(kn.as_slice(), text_value(&r0.name)));
    entries.push(key_entry(kf.as_slice(), text_value(&r0.feed_url)));
    entries.push(key_entry(kp.as_slice(), text_value(&r0.pattern)));
    proof {
        crate::bencode::lemma_entries_view_index(entries@);
        assert(crate::bencode::entries_view(entries@) =~= seq![
            (key_name(), crate::bencode::SpecValue::Bytes(encode_utf8(r0.name@))),
            (key_feed_url(), crate::bencode::SpecValue::Bytes(encode_utf8(r0.feed_url@))),
            (key_pattern(), crate::bencode::SpecValue::Bytes(encode_utf8(r0.pattern@))),
        ]);
    }
    crate::bencode::Value::Dict(entries)
}

fn state_to_value(state: &RssState) -> (r: crate::bencode::Value)
    ensures
        r@ == state_value(state_model(*state)),
{
    let mut feeds: Vec<crate::bencode::Value> = Vec::new();
    let mut i: usize = 0;
    while i < state.feeds.len()
        invariant
            i <= state.feeds@.len(),
            feeds@.len() == i,
            forall|k: int| 0 <= k < i ==> (#[trigger] feeds@[k])@ == feed_value(feed_model(state.feeds@[k])),
        decreases state.feeds@.len() - i,
    {
        feeds.push(feed_to_value(&state.feeds[i]));
        i = i + 1;
    }
    let mut rules: Vec<crate::bencode::Value> = Vec::new();
    let mut i: usize = 0;
    while i < state.rules.len()
        invariant
            i <= state.rules@.len(),
            rules@.len() == i,
            forall|k: int| 0 <= k < i ==> (#[trigger] rules@[k])@ == rule_value(rule_model(state.rules@[k])),
        decreases state.rules@.len() - i,
    {
        rules.push(rule_to_value(&state.rules[i]));
        i = i + 1;
    }
    let mut seen: Vec<crate::bencode::Value> = Vec::new();
    let mut i: usize = 0;
    while i < state.seen_guids.len()
        invariant
            i <= state.seen_guids@.len(),
            seen@.len() == i,
            forall|k: int| 0 <= k < i ==> (#[trigger] seen@[k])@ == crate::bencode::SpecValue::Bytes(
                encode_utf8(state.seen_guids@[k]@),
            ),
        decreases state.seen_guids@.len() - i,
    {
        seen.push(text_value(&state.seen_guids[i]));
        i = i + 1;
    }
    let kf: [u8; 5] = [102, 101, 101, 100, 115];
    let kr: [u8; 5] = [114, 117, 108, 101, 115];
    let ks: [u8; 4] = [115, 101, 101, 110];
    proof {
        crate::bencode::lemma_list_view_index(feeds@);
        crate::bencode::lemma_list_view_index(rules@);
        crate::bencode::lemma_list_view_index(seen@);
        let m = state_model(*state);
        assert(crate::bencode::list_view(feeds@) =~= m.0.map_values(|f: FeedModel| feed_value(f)));
        assert(crate::bencode::list_view(rules@) =~= m.1.map_values(|r: RuleModel| rule_value(r)));
        assert(crate::bencode::list_view(seen@) =~= m.2.map_values(|g: Seq<u8>| crate::bencode::SpecValue::Bytes(g)));
    }
    let mut entries: Vec<(Vec<u8>, crate::bencode::Value)> = Vec::new();
    entries.push(key_entry(kf.as_slice(), crate::bencode::Value::List(feeds)));
    entries.push(key_entry(kr.as_slice(), crate::bencode::Value::List(rules)));
    entries.push(key_entry(ks.as_slice(), crate::bencode::Value::List(seen)));
    proof {
        crate::bencode::lemma_entries_view_index(entries@);
        assert(crate::bencode::entries_view(entries@) =~= match state_value(state_model(*state)) {
            crate::bencode::SpecValue::Dict(d) => d,
            _ => Seq::empty(),
        });
    }
    crate::bencode::Value::Dict(entries)
}

/// The bytes to save a state as (see `spec_encode_rss_state`).
pub fn encode_rss_state(state: &RssState) -> (r: Result<Vec<u8>, String>)
    ensures
        match spec_encode_rss_state(state_model(*state)) {
            Ok(b) => r matches Ok(v) && v@ == b,
            Err(e) => r matches Err(m) && m@ == e,
        },
{
    if state.feeds.len() > MAX_RSS_FEEDS || state.rules.len() > MAX_RSS_RULES {
        return Err("rss save: too many feeds or rules".to_string());
    }
    let ghost m = state_model(*state);
    let mut i: usize = 0;
    while i < state.feeds.len()
        invariant
            i <= state.feeds@.len(),
            m == state_model(*state),
            state.feeds@.len() <= MAX_RSS_FEEDS,
            state.rules@.len() <= MAX_RSS_RULES,
            forall|k: int| 0 <= k < i ==> (#[trigger] m.0[k]).0.len() <= MAX_RSS_TEXT_BYTES && m.0[k].1.len() <= MAX_RSS_TEXT_BYTES,
        decreases state.feeds@.len() - i,
    {
        let f = &state.feeds[i];
        if str_bytes(f.url.as_str()).len() > MAX_RSS_TEXT_BYTES || str_bytes(f.title.as_str()).len() > MAX_RSS_TEXT_BYTES {
            assert(m.0[i as int] == feed_model(state.feeds@[i as int]));
            return Err("rss save: feed or rule text is too large".to_string());
        }
        i = i + 1;
    }
    let mut i: usize = 0;
    while i < state.rules.len()
        invariant
            i <= state.rules@.len(),
            m == state_model(*state),
            state.feeds@.len() <= MAX_RSS_FEEDS,
            state.rules@.len() <= MAX_RSS_RULES,
            forall|k: int| 0 <= k < m.0.len() ==> (#[trigger] m.0[k]).0.len() <= MAX_RSS_TEXT_BYTES && m.0[k].1.len() <= MAX_RSS_TEXT_BYTES,
            forall|k: int| 0 <= k < i ==> (#[trigger] m.1[k]).0.len() <= MAX_RSS_TEXT_BYTES && m.1[k].1.len() <= MAX_RSS_TEXT_BYTES && m.1[k].2.len() <= MAX_RSS_PATTERN_BYTES,
        decreases state.rules@.len() - i,
    {
        let r0 = &state.rules[i];
        if str_bytes(r0.name.as_str()).len() > MAX_RSS_TEXT_BYTES || str_bytes(r0.feed_url.as_str()).len()
            > MAX_RSS_TEXT_BYTES || str_bytes(r0.pattern.as_str()).len() > MAX_RSS_PATTERN_BYTES {
            assert(m.1[i as int] == rule_model(state.rules@[i as int]));
            return Err("rss save: feed or rule text is too large".to_string());
        }
        i = i + 1;
    }
    let value = state_to_value(state);
    match crate::bencode::validate_structure(&value) {
        Err(e) => {
            let mut msg = "rss save: state structure exceeds parser limits: ".to_string();
            msg.append(e.message().as_str());
            Err(msg)
        },
        Ok(()) => Ok(crate::bencode::encode(&value)),
    }
}

} // verus!

verus! {

// ---------------------------------------------------------------------
// A saved state reads back as it was written
// ---------------------------------------------------------------------

/// A feed entry reads back as written: its url and title are UTF-8, the
/// url is not blank, its times fit an `i64` and it polls at least every
/// second.
pub open spec fn feed_reloads(f: FeedModel) -> bool {
    &&& valid_utf8(f.0)
    &&& valid_utf8(f.1)
    &&& trim_bytes(f.0).len() > 0
    &&& f.2 <= i64::MAX
    &&& 1 <= f.3 <= i64::MAX
}

/// A rule entry reads back as written: its texts are UTF-8 and its name
/// and pattern are not blank.
pub open spec fn rule_reloads(r: RuleModel) -> bool {
    &&& valid_utf8(r.0)
    &&& valid_utf8(r.1)
    &&& valid_utf8(r.2)
    &&& trim_bytes(r.0).len() > 0
    &&& trim_bytes(r.2).len() > 0
}

/// The seen keys read back as written: at most `MAX_SEEN_GUIDS` of them,
/// each non-empty UTF-8 of at most `MAX_RSS_TEXT_BYTES` bytes, no two
/// alike.
pub open spec fn seen_reloads(g: Seq<Seq<u8>>) -> bool {
    &&& g.len() <= MAX_SEEN_GUIDS
    &&& forall|i: int|
        0 <= i < g.len() ==> (#[trigger] g[i]).len() > 0 && g[i].len() <= MAX_RSS_TEXT_BYTES && valid_utf8(g[i])
    &&& forall|i: int, j: int| 0 <= i < j < g.len() ==> #[trigger] g[i] != #[trigger] g[j]
}

/// Every entry of the state reads back as written.
pub open spec fn state_reloads(s: StateModel) -> bool {
    &&& forall|i: int| 0 <= i < s.0.len() ==> feed_reloads(#[trigger] s.0[i])
    &&& forall|i: int| 0 <= i < s.1.len() ==> rule_reloads(#[trigger] s.1[i])
    &&& seen_reloads(s.2)
}

spec fn clamp_int(n: u64) -> int {
    if n > i64::MAX {
        i64::MAX as int
    } else {
        n as int
    }
}

/// A feed entry with its keys in the order the encoder writes them.
spec fn feed_value_sorted(f: FeedModel) -> crate::bencode::SpecValue {
    crate::bencode::SpecValue::Dict(
        seq![
            (key_last_poll(), crate::bencode::SpecValue::Int(clamp_int(f.2))),
            (key_poll_interval(), crate::bencode::SpecValue::Int(clamp_int(f.3))),
            (key_title(), crate::bencode::SpecValue::Bytes(f.1)),
            (key_url(), crate::bencode::SpecValue::Bytes(f.0)),
        ],
    )
}

/// A rule entry with its keys in the order the encoder writes them.
spec fn rule_value_sorted(r: RuleModel) -> crate::bencode::SpecValue {
    crate::bencode::SpecValue::Dict(
        seq![
            (key_feed_url(), crate::bencode::SpecValue::Bytes(r.1)),
            (key_name(), crate::bencode::SpecValue::Bytes(r.0)),
            (key_pattern(), crate::bencode::SpecValue::Bytes(r.2)),
        ],
    )
}

spec fn state_value_sorted(s: StateModel) -> crate::bencode::SpecValue {
    crate::bencode::SpecValue::Dict(
        seq![
            (key_feeds(), crate::bencode::SpecValue::List(s.0.map_values(|f: FeedModel| feed_value_sorted(f)))),
            (key_rules(), crate::bencode::SpecValue::List(s.1.map_values(|r: RuleModel| rule_value_sorted(r)))),
            (key_seen(), crate::bencode::SpecValue::List(s.2.map_values(|g: Seq<u8>| crate::bencode::SpecValue::Bytes(g)))),
        ],
    )
}

spec fn scalar_value(v: crate::bencode::SpecValue) -> bool {
    v is Int || v is Bytes
}

/// What a dictionary of `n` entries with plain values charges at `depth`.
spec fn scalar_charge(n: int, depth: int, rem: int) -> Result<int, crate::bencode::Error> {
    if n == 0 {
        Ok(rem)
    } else if depth > crate::bencode::MAX_DEPTH {
        Err(crate::bencode::Error::DepthLimitExceeded)
    } else if rem < 2 * n {
        Err(crate::bencode::Error::ValueLimitExceeded)
    } else {
        Ok(rem - 2 * n)
    }
}

proof fn lemma_scalar_charge(s: Seq<(Seq<u8>, crate::bencode::SpecValue)>, depth: int, rem: int)
    requires
        forall|i: int| 0 <= i < s.len() ==> scalar_value(#[trigger] s[i].1),
    ensures
        crate::bencode::validate_entries(s, depth, rem) == scalar_charge(s.len() as int, depth, rem),
    decreases s.len(),
{
    if s.len() > 0 {
        let t = s.subrange(0, s.len() - 1);
        assert forall|i: int| 0 <= i < t.len() implies scalar_value(#[trigger] t[i].1) by {
            assert(t[i] == s[i]);
        }
        lemma_scalar_charge(t, depth, rem);
        assert(scalar_value(s[s.len() - 1].1));
        if let Ok(r1) = crate::bencode::validate_entries(t, depth, rem) {
            if let Ok(r2) = crate::bencode::spec_slot(depth, r1) {
                assert(crate::bencode::spec_validate(s[s.len() - 1].1, depth, r2) == crate::bencode::spec_slot(
                    depth,
                    r2,
                ));
            }
        }
    }
}

proof fn lemma_key_order()
    ensures
        crate::bencode::lex_lt(key_title(), key_url()),
        crate::bencode::lex_lt(key_last_poll(), key_url()),
        crate::bencode::lex_lt(key_last_poll(), key_title()),
        crate::bencode::lex_lt(key_last_poll(), key_poll_interval()),
        crate::bencode::lex_lt(key_poll_interval(), key_url()),
        crate::bencode::lex_lt(key_poll_interval(), key_title()),
        !crate::bencode::lex_lt(key_poll_interval(), key_last_poll()),
        crate::bencode::lex_lt(key_feed_url(), key_name()),
        !crate::bencode::lex_lt(key_pattern(), key_name()),
        crate::bencode::lex_lt(key_name(), key_pattern()),
        crate::bencode::lex_lt(key_feeds(), key_rules()),
        crate::bencode::lex_lt(key_rules(), key_seen()),
        key_url() != key_title() && key_url() != key_last_poll() && key_url() != key_poll_interval(),
        key_title() != key_last_poll() && key_title() != key_poll_interval(),
        key_last_poll() != key_poll_interval(),
        key_name() != key_feed_url() && key_name() != key_pattern() && key_feed_url() != key_pattern(),
        key_feeds() != key_rules() && key_feeds() != key_seen() && key_rules() != key_seen(),
{
    assert(key_url()[0] == 117u8);
    assert(key_title()[0] == 116u8);
    assert(key_last_poll()[0] == 108u8);
    assert(key_poll_interval()[0] == 112u8);
    assert(key_name()[0] == 110u8);
    assert(key_feed_url()[0] == 102u8);
    assert(key_pattern()[0] == 112u8);
    assert(key_feeds()[0] == 102u8);
    assert(key_rules()[0] == 114u8);
    assert(key_seen()[0] == 115u8);
}

proof fn lemma_feed_sorted(f: FeedModel)
    ensures
        crate::bencode::spec_encode(feed_value(f)) == crate::bencode::spec_encode(feed_value_sorted(f)),
        crate::bencode::same_charge(feed_value(f), feed_value_sorted(f)),
        crate::bencode::canonical_value(feed_value_sorted(f)),
{
    lemma_key_order();
    let e = feed_value(f)->Dict_0;
    let o = feed_value_sorted(f)->Dict_0;
    let keys = crate::bencode::entry_keys(e);
    assert(keys =~= seq![key_url(), key_title(), key_last_poll(), key_poll_interval()]);
    let o0 = crate::bencode::stable_order(keys, 0);
    let o1 = crate::bencode::stable_order(keys, 1);
    let o2 = crate::bencode::stable_order(keys, 2);
    let o3 = crate::bencode::stable_order(keys, 3);
    let o4 = crate::bencode::stable_order(keys, 4);
    assert(o1 =~= seq![0int]);
    assert(crate::bencode::insert_pos(keys, o1, 1, 0) == 0);
    assert(crate::bencode::insert_pos(keys, o1, 1, 1) == 0);
    assert(o2 =~= seq![1int, 0]);
    assert(crate::bencode::insert_pos(keys, o2, 2, 0) == 0);
    assert(crate::bencode::insert_pos(keys, o2, 2, 1) == 0);
    assert(crate::bencode::insert_pos(keys, o2, 2, 2) == 0);
    assert(o3 =~= seq![2int, 1, 0]);
    assert(crate::bencode::insert_pos(keys, o3, 3, 1) == 1);
    assert(crate::bencode::insert_pos(keys, o3, 3, 2) == 1);
    assert(crate::bencode::insert_pos(keys, o3, 3, 3) == 1);
    assert(o4 =~= seq![2int, 3, 1, 0]);
    assert(crate::bencode::keys_increasing(o));
    crate::bencode::lemma_dict_order_increasing(o);
    let emp = Seq::<int>::empty();
    let a1 = emp.push(2);
    let a2 = a1.push(3);
    let a3 = a2.push(1);
    let a4 = a3.push(0);
    assert(a4 =~= o4);
    crate::bencode::lemma_encode_entries_push(e, emp, 2);
    crate::bencode::lemma_encode_entries_push(e, a1, 3);
    crate::bencode::lemma_encode_entries_push(e, a2, 1);
    crate::bencode::lemma_encode_entries_push(e, a3, 0);
    let b1 = emp.push(0);
    let b2 = b1.push(1);
    let b3 = b2.push(2);
    let b4 = b3.push(3);
    assert(b4 =~= crate::bencode::iota(4));
    crate::bencode::lemma_encode_entries_push(o, emp, 0);
    crate::bencode::lemma_encode_entries_push(o, b1, 1);
    crate::bencode::lemma_encode_entries_push(o, b2, 2);
    crate::bencode::lemma_encode_entries_push(o, b3, 3);
    assert(crate::bencode::encode_entries(e, a4) == crate::bencode::encode_entries(o, b4));
    lemma_scalar_charge(e, 0, 0);
    assert forall|d: int, r: int| #[trigger] crate::bencode::spec_validate(feed_value(f), d, r)
        == crate::bencode::spec_validate(feed_value_sorted(f), d, r) by {
        lemma_scalar_charge(e, d + 1, r - 1);
        lemma_scalar_charge(o, d + 1, r - 1);
    }
    assert(crate::bencode::canonical_value(o[0].1));
    assert(crate::bencode::canonical_value(o[1].1));
    assert(crate::bencode::canonical_value(o[2].1));
    assert(crate::bencode::canonical_value(o[3].1));
    crate::bencode::lemma_canonical_entries_all(o);
}

} // verus!

verus! {

// ---------------------------------------------------------------------
// Feeds
// ---------------------------------------------------------------------

/// One node of a parsed XML document, in document order: the position of
/// its parent (none for the document itself), whether it is an element,
/// its local name, its text (what stands directly inside it) and its
/// attributes by local name.
#[derive(Debug)]
pub struct XmlNode {
    pub parent: Option<usize>,
    pub element: bool,
    pub name: String,
    pub text: String,
    pub attrs: Vec<(String, String)>,
}

/// A node as bytes.
pub type XmlModel = (Option<usize>, bool, Seq<u8>, Seq<u8>, Seq<(Seq<u8>, Seq<u8>)>);

pub open spec fn node_view(n: XmlNode) -> XmlModel {
    (
        n.parent,
        n.element,
        encode_utf8(n.name@),
        encode_utf8(n.text@),
        n.attrs@.map_values(|a: (String, String)| (encode_utf8(a.0@), encode_utf8(a.1@))),
    )
}

pub open spec fn nodes_view(v: Seq<XmlNode>) -> Seq<XmlModel> {
    v.map_values(|n: XmlNode| node_view(n))
}

/// A node of `crate::xml` as bytes.
pub open spec fn char_node_model(n: crate::xml::CharNode) -> XmlModel {
    (
        n.0,
        n.1,
        encode_utf8(n.2),
        encode_utf8(n.3),
        n.4.map_values(|a: crate::xml::CharAttr| (encode_utf8(a.0), encode_utf8(a.1))),
    )
}

/// The nodes of an XML document (see `crate::xml::spec_xml`), in
/// document order, or nothing when the text is not a document.
pub open spec fn xml_nodes(text: Seq<char>) -> Option<Seq<XmlModel>> {
    match crate::xml::spec_xml(text) {
        Some(ns) => Some(ns.map_values(|n: crate::xml::CharNode| char_node_model(n))),
        None => None,
    }
}

/// Parses an XML document and lists its nodes (see `xml_nodes`).
pub(crate) fn parse_xml(text: &str) -> (r: Option<Vec<XmlNode>>)
    ensures
        match xml_nodes(text@) {
            Some(m) => r matches Some(v) && nodes_view(v@) == m,
            None => r is None,
        },
{
    let r = crate::xml::parse_document(text);
    proof {
        if r is Some {
            let v = r->Some_0;
            let ns = crate::xml::spec_xml(text@).unwrap();
            assert forall|i: int| 0 <= i < v@.len() implies #[trigger] nodes_view(v@)[i] == ns.map_values(
                |n: crate::xml::CharNode| char_node_model(n),
            )[i] by {
                let n = v@[i];
                assert(crate::xml::nodes_chars(v@)[i] == crate::xml::node_chars(n));
                assert(n.attrs@.map_values(|a: (String, String)| (encode_utf8(a.0@), encode_utf8(a.1@)))
                    =~= crate::xml::attrs_chars(n.attrs@).map_values(
                    |a: crate::xml::CharAttr| (encode_utf8(a.0), encode_utf8(a.1)),
                ));
            }
            assert(nodes_view(v@) =~= ns.map_values(|n: crate::xml::CharNode| char_node_model(n)));
        }
    }
    r
}

/// The element children of node `p` named `name`, in order, from
/// position `i` on.
pub open spec fn children_from(ns: Seq<XmlModel>, p: int, name: Seq<u8>, i: int) -> Seq<int>
    decreases ns.len() - i,
{
    if i < 0 || i >= ns.len() {
        Seq::empty()
    } else {
        let rest = children_from(ns, p, name, i + 1);
        if ns[i].0 == Some(p as usize) && ns[i].1 && ns[i].2 == name {
            seq![i] + rest
        } else {
            rest
        }
    }
}

pub open spec fn children(ns: Seq<XmlModel>, p: int, name: Seq<u8>) -> Seq<int> {
    children_from(ns, p, name, 0)
}

/// The first element child of `p` named `name`.
pub open spec fn child(ns: Seq<XmlModel>, p: int, name: Seq<u8>) -> Option<int> {
    if children(ns, p, name).len() > 0 {
        Some(children(ns, p, name)[0])
    } else {
        None
    }
}

/// The trimmed text of the first child named `name`, or nothing.
pub open spec fn child_text(ns: Seq<XmlModel>, p: int, name: Seq<u8>) -> Seq<u8> {
    match child(ns, p, name) {
        Some(j) => trim_bytes(ns[j].3),
        None => Seq::empty(),
    }
}

/// The value of the first attribute named `name`.
pub open spec fn attr_from(attrs: Seq<(Seq<u8>, Seq<u8>)>, name: Seq<u8>, i: int) -> Option<Seq<u8>>
    decreases attrs.len() - i,
{
    if i < 0 || i >= attrs.len() {
        None
    } else if attrs[i].0 == name {
        Some(attrs[i].1)
    } else {
        attr_from(attrs, name, i + 1)
    }
}

pub open spec fn attr(ns: Seq<XmlModel>, j: int, name: Seq<u8>) -> Option<Seq<u8>> {
    attr_from(ns[j].4, name, 0)
}

pub open spec fn or_else(o: Option<Seq<u8>>, d: Seq<u8>) -> Seq<u8> {
    match o {
        Some(v) => v,
        None => d,
    }
}

pub open spec fn name_title() -> Seq<u8> {
    seq![116u8, 105, 116, 108, 101]
}

pub open spec fn name_link() -> Seq<u8> {
    seq![108u8, 105, 110, 107]
}

pub open spec fn name_guid() -> Seq<u8> {
    seq![103u8, 117, 105, 100]
}

pub open spec fn name_enclosure() -> Seq<u8> {
    seq![101u8, 110, 99, 108, 111, 115, 117, 114, 101]
}

pub open spec fn name_magnet() -> Seq<u8> {
    seq![109u8, 97, 103, 110, 101, 116, 85, 82, 73]
}

pub open spec fn name_type() -> Seq<u8> {
    seq![116u8, 121, 112, 101]
}

pub open spec fn name_href() -> Seq<u8> {
    seq![104u8, 114, 101, 102]
}

pub open spec fn name_rel() -> Seq<u8> {
    seq![114u8, 101, 108]
}

pub open spec fn name_alternate() -> Seq<u8> {
    seq![97u8, 108, 116, 101, 114, 110, 97, 116, 101]
}

pub open spec fn name_entry() -> Seq<u8> {
    seq![101u8, 110, 116, 114, 121]
}

pub open spec fn name_id() -> Seq<u8> {
    seq![105u8, 100]
}

pub open spec fn name_item() -> Seq<u8> {
    seq![105u8, 116, 101, 109]
}

pub open spec fn name_channel() -> Seq<u8> {
    seq![99u8, 104, 97, 110, 110, 101, 108]
}

/// A feed item as bytes: title, link, whether the link is a torrent, guid.
pub type ItemModel = (Seq<u8>, Seq<u8>, bool, Seq<u8>);

/// The first torrent enclosure among `encl` from `k` on: one whose trimmed
/// `url` is non-empty and is a torrent link or has a BitTorrent `type`.
pub open spec fn rss_enclosure(ns: Seq<XmlModel>, encl: Seq<int>, k: int) -> Option<Seq<u8>>
    decreases encl.len() - k,
{
    if k < 0 || k >= encl.len() {
        None
    } else {
        match attr(ns, encl[k], key_url()) {
            Some(u) => {
                let url = trim_bytes(u);
                let ct = or_else(attr(ns, encl[k], name_type()), Seq::empty());
                if url.len() > 0 && (spec_is_torrent_url(url) || spec_is_torrent_content_type(ct)) {
                    Some(url)
                } else {
                    rss_enclosure(ns, encl, k + 1)
                }
            },
            None => rss_enclosure(ns, encl, k + 1),
        }
    }
}

/// Keeps an item unless its link is blank or a text is over
/// `MAX_RSS_TEXT_BYTES`; an empty guid becomes the link.
pub open spec fn finish_item(title: Seq<u8>, link: Seq<u8>, is_torrent: bool, guid: Seq<u8>) -> Option<ItemModel> {
    let g = if guid.len() == 0 {
        link
    } else {
        guid
    };
    if trim_bytes(link).len() == 0 || title.len() > MAX_RSS_TEXT_BYTES || link.len() > MAX_RSS_TEXT_BYTES || g.len()
        > MAX_RSS_TEXT_BYTES {
        None
    } else {
        Some((title, link, is_torrent, g))
    }
}

/// An RSS item: its link is a torrent enclosure, else a torrent
/// `magnetURI`, else its `link` (a torrent when it is a torrent link).
pub open spec fn rss_item(ns: Seq<XmlModel>, j: int) -> Option<ItemModel> {
    let title = child_text(ns, j, name_title());
    let link = child_text(ns, j, name_link());
    let guid = child_text(ns, j, name_guid());
    let magnet = child_text(ns, j, name_magnet());
    let (final_link, is_torrent) = match rss_enclosure(ns, children(ns, j, name_enclosure()), 0) {
        Some(u) => (u, true),
        None => if child(ns, j, name_magnet()) is Some && spec_is_torrent_url(magnet) {
            (magnet, true)
        } else {
            (link, spec_is_torrent_url(link))
        },
    };
    finish_item(title, final_link, is_torrent, guid)
}

proof fn lemma_window_found(d: Seq<u8>, p: Seq<u8>, k: int, i: int)
    requires
        0 <= k <= i,
        p.len() > 0,
        i + p.len() <= d.len(),
        d.subrange(i, i + p.len()) == p,
    ensures
        find_window(d, p, k) is Some,
    decreases i - k,
{
    if k < i && d.subrange(k, k + p.len()) != p {
        lemma_window_found(d, p, k + 1, i);
    }
}

/// An RSS item whose first enclosure has a non-empty url and a type that
/// names BitTorrent (`bittorrent` in any ASCII case) links to that url,
/// trimmed, as a torrent, whatever the url looks like.
pub proof fn lemma_bittorrent_enclosure_is_the_link(ns: Seq<XmlModel>, j: int, u: Seq<u8>, ct: Seq<u8>, i: int)
    requires
        children(ns, j, name_enclosure()).len() > 0,
        attr(ns, children(ns, j, name_enclosure())[0], key_url()) == Some(u),
        attr(ns, children(ns, j, name_enclosure())[0], name_type()) == Some(ct),
        trim_bytes(u).len() > 0,
        0 <= i,
        i + 10 <= lower_bytes(trim_bytes(ct)).len(),
        lower_bytes(trim_bytes(ct)).subrange(i, i + 10) == seq![98u8, 105, 116, 116, 111, 114, 114, 101, 110, 116],
    ensures
        rss_item(ns, j) matches Some(it) ==> it.1 == trim_bytes(u) && it.2,
{
    let l = lower_bytes(trim_bytes(ct));
    assert(bittorrent_name() == seq![98u8, 105, 116, 116, 111, 114, 114, 101, 110, 116]);
    lemma_window_found(l, bittorrent_name(), 0, i);
    assert(spec_is_torrent_content_type(ct));
    let encl = children(ns, j, name_enclosure());
    assert(rss_enclosure(ns, encl, 0) == Some(trim_bytes(u)));
}

/// The items of an RSS or RDF feed: the first `MAX_FEED_ITEMS` item nodes
/// that `rss_item` keeps.
pub open spec fn rss_items(ns: Seq<XmlModel>, nodes: Seq<int>) -> Seq<ItemModel>
    decreases nodes.len(),
{
    if nodes.len() == 0 {
        Seq::empty()
    } else {
        let prev = rss_items(ns, nodes.drop_last());
        if nodes.len() > MAX_FEED_ITEMS {
            prev
        } else {
            match rss_item(ns, nodes.last()) {
                Some(it) => prev.push(it),
                None => prev,
            }
        }
    }
}

} // verus!

verus! {

/// `enclosure`-relation torrent link of an Atom entry: the first link with
/// a non-empty trimmed `href`, `rel` equal to `enclosure` in any case, and
/// a torrent `href` or a BitTorrent `type`.
pub open spec fn atom_preferred(ns: Seq<XmlModel>, links: Seq<int>, k: int) -> Option<Seq<u8>>
    decreases links.len() - k,
{
    if k < 0 || k >= links.len() {
        None
    } else {
        match attr(ns, links[k], name_href()) {
            Some(h) => {
                let href = trim_bytes(h);
                let rel = or_else(attr(ns, links[k], name_rel()), Seq::empty());
                let ct = or_else(attr(ns, links[k], name_type()), Seq::empty());
                if href.len() > 0 && eq_ignore_case(rel, name_enclosure()) && (spec_is_torrent_url(href)
                    || spec_is_torrent_content_type(ct)) {
                    Some(href)
                } else {
                    atom_preferred(ns, links, k + 1)
                }
            },
            None => atom_preferred(ns, links, k + 1),
        }
    }
}

/// The first link of an Atom entry whose trimmed `href` is a torrent link.
pub open spec fn atom_torrent_link(ns: Seq<XmlModel>, links: Seq<int>, k: int) -> Option<Seq<u8>>
    decreases links.len() - k,
{
    if k < 0 || k >= links.len() {
        None
    } else {
        match attr(ns, links[k], name_href()) {
            Some(h) => if spec_is_torrent_url(trim_bytes(h)) {
                Some(trim_bytes(h))
            } else {
                atom_torrent_link(ns, links, k + 1)
            },
            None => atom_torrent_link(ns, links, k + 1),
        }
    }
}

/// The first `alternate` link (the default relation) with a non-empty
/// trimmed `href`.
pub open spec fn atom_fallback(ns: Seq<XmlModel>, links: Seq<int>, k: int) -> Option<Seq<u8>>
    decreases links.len() - k,
{
    if k < 0 || k >= links.len() {
        None
    } else {
        match attr(ns, links[k], name_href()) {
            Some(h) => {
                let href = trim_bytes(h);
                let rel = or_else(attr(ns, links[k], name_rel()), name_alternate());
                if href.len() > 0 && eq_ignore_case(rel, name_alternate()) {
                    Some(href)
                } else {
                    atom_fallback(ns, links, k + 1)
                }
            },
            None => atom_fallback(ns, links, k + 1),
        }
    }
}

/// An Atom entry: its link is the preferred enclosure, else a torrent
/// link, else the alternate link; it is kept unless the link is empty or a
/// text is over `MAX_RSS_TEXT_BYTES`; an empty id becomes the link.
pub open spec fn atom_item(ns: Seq<XmlModel>, j: int) -> Option<ItemModel> {
    let title = child_text(ns, j, name_title());
    let id = child_text(ns, j, name_id());
    let links = children(ns, j, name_link());
    let (link, is_torrent) = match atom_preferred(ns, links, 0) {
        Some(u) => (u, true),
        None => match atom_torrent_link(ns, links, 0) {
            Some(u) => (u, true),
            None => match atom_fallback(ns, links, 0) {
                Some(u) => (u, spec_is_torrent_url(u)),
                None => (Seq::empty(), false),
            },
        },
    };
    let guid = if id.len() == 0 {
        link
    } else {
        id
    };
    if link.len() == 0 || title.len() > MAX_RSS_TEXT_BYTES || link.len() > MAX_RSS_TEXT_BYTES || guid.len()
        > MAX_RSS_TEXT_BYTES {
        None
    } else {
        Some((title, link, is_torrent, guid))
    }
}

/// The first `MAX_FEED_ITEMS` entries that `atom_item` keeps.
pub open spec fn atom_items(ns: Seq<XmlModel>, nodes: Seq<int>) -> Seq<ItemModel>
    decreases nodes.len(),
{
    if nodes.len() == 0 {
        Seq::empty()
    } else {
        let prev = atom_items(ns, nodes.drop_last());
        if nodes.len() > MAX_FEED_ITEMS {
            prev
        } else {
            match atom_item(ns, nodes.last()) {
                Some(it) => prev.push(it),
                None => prev,
            }
        }
    }
}

/// The first element directly below the document.
pub open spec fn root_from(ns: Seq<XmlModel>, i: int) -> Option<int>
    decreases ns.len() - i,
{
    if i < 0 || i >= ns.len() {
        None
    } else if ns[i].1 && ns[i].0 == Some(0usize) {
        Some(i)
    } else {
        root_from(ns, i + 1)
    }
}

/// `invalid xml`
pub open spec fn invalid_xml() -> Seq<u8> {
    seq![105u8, 110, 118, 97, 108, 105, 100, 32, 120, 109, 108]
}

/// `missing <channel>`
pub open spec fn missing_channel() -> Seq<u8> {
    seq![109u8, 105, 115, 115, 105, 110, 103, 32, 60, 99, 104, 97, 110, 110, 101, 108, 62]
}

/// `unknown feed root tag: `
pub open spec fn unknown_root() -> Seq<u8> {
    seq![117u8, 110, 107, 110, 111, 119, 110, 32, 102, 101, 101, 100, 32, 114, 111, 111, 116, 32, 116, 97, 103, 58, 32]
}

/// A feed: UTF-8 XML whose root element is `rss` (a `channel` with a
/// title and items), `feed` (Atom: a title and entries) or `rdf` (a
/// channel title and items below the root), names compared in any ASCII
/// case.
pub open spec fn spec_parse_feed(data: Seq<u8>) -> Result<(Seq<u8>, Seq<ItemModel>), Seq<u8>> {
    if !valid_utf8(data) {
        Err(invalid_xml())
    } else {
        match xml_nodes(decode_utf8(data)) {
            None => Err(invalid_xml()),
            Some(ns) => spec_feed_from_nodes(ns),
        }
    }
}

/// A feed's title and items read from its XML nodes: RSS takes the first
/// `<channel>` of the root, Atom the root `<feed>` itself, RDF its first
/// `<channel>`'s title and its own items; any other root is refused.
pub open spec fn spec_feed_from_nodes(ns: Seq<XmlModel>) -> Result<(Seq<u8>, Seq<ItemModel>), Seq<u8>> {
    match root_from(ns, 0) {
        None => Err(invalid_xml()),
        Some(r) => {
            let name = ns[r].2;
            if eq_ignore_case(name, seq![114u8, 115, 115]) {
                match child(ns, r, name_channel()) {
                    None => Err(missing_channel()),
                    Some(c) => Ok((child_text(ns, c, name_title()), rss_items(ns, children(ns, c, name_item())))),
                }
            } else if eq_ignore_case(name, seq![102u8, 101, 101, 100]) {
                Ok((child_text(ns, r, name_title()), atom_items(ns, children(ns, r, name_entry()))))
            } else if eq_ignore_case(name, seq![114u8, 100, 102]) {
                let title = match child(ns, r, name_channel()) {
                    Some(c) => child_text(ns, c, name_title()),
                    None => Seq::empty(),
                };
                Ok((title, rss_items(ns, children(ns, r, name_item()))))
            } else {
                Err(unknown_root() + name)
            }
        },
    }
}

pub open spec fn item_model(i: FeedItem) -> ItemModel {
    (encode_utf8(i.title@), encode_utf8(i.link@), i.is_torrent, encode_utf8(i.guid@))
}

pub open spec fn items_model(v: Seq<FeedItem>) -> Seq<ItemModel> {
    v.map_values(|i: FeedItem| item_model(i))
}

// ----- walking the nodes -----

fn children_of(nodes: &[XmlNode], p: usize, name: &[u8]) -> (r: Vec<usize>)
    ensures
        r@.map_values(|x: usize| x as int) == children(nodes_view(nodes@), p as int, name@),
        forall|k: int| 0 <= k < r@.len() ==> (#[trigger] r@[k]) < nodes@.len(),
{
    let ghost ns = nodes_view(nodes@);
    let mut out: Vec<usize> = Vec::new();
    let mut i: usize = nodes.len();
    assert(children_from(ns, p as int, name@, i as int) =~= Seq::<int>::empty());
    while i > 0
        invariant
            i <= nodes@.len(),
            ns == nodes_view(nodes@),
            out@.map_values(|x: usize| x as int) == children_from(ns, p as int, name@, i as int),
            forall|k: int| 0 <= k < out@.len() ==> (#[trigger] out@[k]) < nodes@.len(),
        decreases i,
    {
        let j = i - 1;
        let n = &nodes[j];
        let hit = n.element && match n.parent {
            Some(q) => q == p,
            None => false,
        } && bytes_equal(str_bytes(n.name.as_str()), name);
        let ghost before = out@;
        if hit {
            out.insert(0, j);
            assert(out@.map_values(|x: usize| x as int) =~= seq![j as int] + before.map_values(|x: usize| x as int));
        }
        assert(ns[j as int] == node_view(*n));
        i = j;
    }
    out
}

fn attr_of<'a>(node: &'a XmlNode, name: &[u8]) -> (r: Option<&'a String>)
    ensures
        match attr_from(node_view(*node).4, name@, 0) {
            Some(v) => r matches Some(s) && encode_utf8(s@) == v,
            None => r is None,
        },
{
    let ghost av = node_view(*node).4;
    let mut i: usize = 0;
    while i < node.attrs.len()
        invariant
            i <= node.attrs@.len(),
            av == node_view(*node).4,
            av.len() == node.attrs@.len(),
            attr_from(av, name@, 0) == attr_from(av, name@, i as int),
        decreases node.attrs@.len() - i,
    {
        assert(av[i as int] == (encode_utf8(node.attrs@[i as int].0@), encode_utf8(node.attrs@[i as int].1@)));
        if bytes_equal(str_bytes(node.attrs[i].0.as_str()), name) {
            return Some(&node.attrs[i].1);
        }
        i = i + 1;
    }
    None
}

pub(crate) fn child_text_of(nodes: &[XmlNode], p: usize, name: &[u8]) -> (r: String)
    ensures
        encode_utf8(r@) == child_text(nodes_view(nodes@), p as int, name@),
{
    let cs = children_of(nodes, p, name);
    if cs.len() == 0 {
        return String::new();
    }
    let j = cs[0];
    assert(nodes_view(nodes@)[j as int] == node_view(nodes@[j as int]));
    trimmed(str_bytes(nodes[j].text.as_str()))
}

} // verus!

verus! {

fn attr_or_empty(node: &XmlNode, name: &[u8]) -> (r: String)
    ensures
        encode_utf8(r@) == or_else(attr_from(node_view(*node).4, name@, 0), Seq::empty()),
{
    match attr_of(node, name) {
        Some(s) => s.clone(),
        None => String::new(),
    }
}

fn rss_enclosure_exec(nodes: &[XmlNode], encl: &Vec<usize>) -> (r: Option<String>)
    requires
        forall|k: int| 0 <= k < encl@.len() ==> (#[trigger] encl@[k]) < nodes@.len(),
    ensures
        match rss_enclosure(nodes_view(nodes@), encl@.map_values(|x: usize| x as int), 0) {
            Some(u) => r matches Some(s) && encode_utf8(s@) == u,
            None => r is None,
        },
{
    let ghost ns = nodes_view(nodes@);
    let ghost ev = encl@.map_values(|x: usize| x as int);
    let ku: [u8; 3] = [117, 114, 108];
    let kt: [u8; 4] = [116, 121, 112, 101];
    assert(ku@ =~= key_url());
    assert(kt@ =~= name_type());
    let mut k: usize = 0;
    while k < encl.len()
        invariant
            k <= encl@.len(),
            ns == nodes_view(nodes@),
            ev == encl@.map_values(|x: usize| x as int),
            ku@ == key_url(),
            kt@ == name_type(),
            forall|x: int| 0 <= x < encl@.len() ==> (#[trigger] encl@[x]) < nodes@.len(),
            rss_enclosure(ns, ev, 0) == rss_enclosure(ns, ev, k as int),
        decreases encl@.len() - k,
    {
        let j = encl[k];
        let node = &nodes[j];
        assert(ns[j as int] == node_view(*node));
        match attr_of(node, ku.as_slice()) {
            Some(u) => {
                let url = trimmed(str_bytes(u.as_str()));
                let ct = attr_or_empty(node, kt.as_slice());
                if str_bytes(url.as_str()).len() > 0 && (is_torrent_url(url.as_str()) || is_torrent_content_type(
                    ct.as_str(),
                )) {
                    return Some(url);
                }
            },
            None => {},
        }
        k = k + 1;
    }
    None
}

fn finish_item_exec(title: String, link: String, is_torrent: bool, guid: String) -> (r: Option<FeedItem>)
    ensures
        match finish_item(encode_utf8(title@), encode_utf8(link@), is_torrent, encode_utf8(guid@)) {
            Some(m) => r matches Some(it) && item_model(it) == m,
            None => r is None,
        },
{
    let g = if str_bytes(guid.as_str()).len() == 0 {
        link.clone()
    } else {
        guid
    };
    let trimmed_link = trimmed(str_bytes(link.as_str()));
    if str_bytes(trimmed_link.as_str()).len() == 0 || str_bytes(title.as_str()).len() > MAX_RSS_TEXT_BYTES
        || str_bytes(link.as_str()).len() > MAX_RSS_TEXT_BYTES || str_bytes(g.as_str()).len() > MAX_RSS_TEXT_BYTES {
        return None;
    }
    Some(FeedItem { title, link, is_torrent, guid: g })
}

fn rss_item_exec(nodes: &[XmlNode], j: usize) -> (r: Option<FeedItem>)
    requires
        j < nodes@.len(),
    ensures
        match rss_item(nodes_view(nodes@), j as int) {
            Some(m) => r matches Some(it) && item_model(it) == m,
            None => r is None,
        },
{
    let nt: [u8; 5] = [116, 105, 116, 108, 101];
    let nl: [u8; 4] = [108, 105, 110, 107];
    let ng: [u8; 4] = [103, 117, 105, 100];
    let ne: [u8; 9] = [101, 110, 99, 108, 111, 115, 117, 114, 101];
    let nm: [u8; 9] = [109, 97, 103, 110, 101, 116, 85, 82, 73];
    assert(nt@ =~= name_title());
    assert(nl@ =~= name_link());
    assert(ng@ =~= name_guid());
    assert(ne@ =~= name_enclosure());
    assert(nm@ =~= name_magnet());
    let title = child_text_of(nodes, j, nt.as_slice());
    let link = child_text_of(nodes, j, nl.as_slice());
    let guid = child_text_of(nodes, j, ng.as_slice());
    let encl = children_of(nodes, j, ne.as_slice());
    let (final_link, is_torrent) = match rss_enclosure_exec(nodes, &encl) {
        Some(u) => (u, true),
        None => {
            let magnets = children_of(nodes, j, nm.as_slice());
            let magnet = child_text_of(nodes, j, nm.as_slice());
            if magnets.len() > 0 && is_torrent_url(magnet.as_str()) {
                (magnet, true)
            } else {
                let t = is_torrent_url(link.as_str());
                (link, t)
            }
        },
    };
    finish_item_exec(title, final_link, is_torrent, guid)
}

fn rss_items_exec(nodes: &[XmlNode], item_nodes: &Vec<usize>) -> (r: Vec<FeedItem>)
    requires
        forall|k: int| 0 <= k < item_nodes@.len() ==> (#[trigger] item_nodes@[k]) < nodes@.len(),
    ensures
        items_model(r@) == rss_items(nodes_view(nodes@), item_nodes@.map_values(|x: usize| x as int)),
{
    let ghost ns = nodes_view(nodes@);
    let ghost iv = item_nodes@.map_values(|x: usize| x as int);
    let mut out: Vec<FeedItem> = Vec::new();
    let mut k: usize = 0;
    assert(items_model(out@) =~= rss_items(ns, iv.subrange(0, 0)));
    while k < item_nodes.len() && k < MAX_FEED_ITEMS
        invariant
            k <= item_nodes@.len(),
            k <= MAX_FEED_ITEMS,
            ns == nodes_view(nodes@),
            iv == item_nodes@.map_values(|x: usize| x as int),
            forall|x: int| 0 <= x < item_nodes@.len() ==> (#[trigger] item_nodes@[x]) < nodes@.len(),
            items_model(out@) == rss_items(ns, iv.subrange(0, k as int)),
        decreases item_nodes@.len() - k,
    {
        let ghost before = out@;
        match rss_item_exec(nodes, item_nodes[k]) {
            Some(it) => {
                out.push(it);
            },
            None => {},
        }
        proof {
            assert(iv.subrange(0, k + 1).drop_last() =~= iv.subrange(0, k as int));
            assert(iv.subrange(0, k + 1).last() == item_nodes@[k as int] as int);
            assert(items_model(out@) =~= rss_items(ns, iv.subrange(0, k + 1)));
        }
        k = k + 1;
    }
    proof {
        lemma_items_cap(ns, iv, k as int);
    }
    out
}

proof fn lemma_items_cap(ns: Seq<XmlModel>, iv: Seq<int>, k: int)
    requires
        0 <= k <= iv.len(),
        k == iv.len() || k == MAX_FEED_ITEMS,
    ensures
        rss_items(ns, iv) == rss_items(ns, iv.subrange(0, k)),
        atom_items(ns, iv) == atom_items(ns, iv.subrange(0, k)),
    decreases iv.len() - k,
{
    if k < iv.len() {
        lemma_items_cap(ns, iv.drop_last(), k);
        assert(iv.drop_last().subrange(0, k) =~= iv.subrange(0, k));
    } else {
        assert(iv.subrange(0, k) =~= iv);
    }
}

} // verus!

verus! {

fn atom_links(nodes: &[XmlNode], links: &Vec<usize>) -> (r: (Option<String>, Option<String>, Option<String>))
    requires
        forall|k: int| 0 <= k < links@.len() ==> (#[trigger] links@[k]) < nodes@.len(),
    ensures
        match atom_preferred(nodes_view(nodes@), links@.map_values(|x: usize| x as int), 0) {
            Some(u) => r.0 matches Some(s) && encode_utf8(s@) == u,
            None => r.0 is None,
        },
        match atom_torrent_link(nodes_view(nodes@), links@.map_values(|x: usize| x as int), 0) {
            Some(u) => r.1 matches Some(s) && encode_utf8(s@) == u,
            None => r.1 is None,
        },
        match atom_fallback(nodes_view(nodes@), links@.map_values(|x: usize| x as int), 0) {
            Some(u) => r.2 matches Some(s) && encode_utf8(s@) == u,
            None => r.2 is None,
        },
{
    let ghost ns = nodes_view(nodes@);
    let ghost lv = links@.map_values(|x: usize| x as int);
    let kh: [u8; 4] = [104, 114, 101, 102];
    let kr: [u8; 3] = [114, 101, 108];
    let kt: [u8; 4] = [116, 121, 112, 101];
    let enc: [u8; 9] = [101, 110, 99, 108, 111, 115, 117, 114, 101];
    let alt: [u8; 9] = [97, 108, 116, 101, 114, 110, 97, 116, 101];
    assert(kh@ =~= name_href());
    assert(kr@ =~= name_rel());
    assert(kt@ =~= name_type());
    assert(enc@ =~= name_enclosure());
    assert(alt@ =~= name_alternate());
    let mut preferred: Option<String> = None;
    let mut torrent: Option<String> = None;
    let mut fallback: Option<String> = None;
    let mut k: usize = 0;
    while k < links.len()
        invariant
            k <= links@.len(),
            ns == nodes_view(nodes@),
            lv == links@.map_values(|x: usize| x as int),
            kh@ == name_href(),
            kr@ == name_rel(),
            kt@ == name_type(),
            enc@ == name_enclosure(),
            alt@ == name_alternate(),
            forall|x: int| 0 <= x < links@.len() ==> (#[trigger] links@[x]) < nodes@.len(),
            match preferred {
                Some(s) => atom_preferred(ns, lv, 0) == Some(encode_utf8(s@)),
                None => atom_preferred(ns, lv, 0) == atom_preferred(ns, lv, k as int),
            },
            match torrent {
                Some(s) => atom_torrent_link(ns, lv, 0) == Some(encode_utf8(s@)),
                None => atom_torrent_link(ns, lv, 0) == atom_torrent_link(ns, lv, k as int),
            },
            match fallback {
                Some(s) => atom_fallback(ns, lv, 0) == Some(encode_utf8(s@)),
                None => atom_fallback(ns, lv, 0) == atom_fallback(ns, lv, k as int),
            },
        decreases links@.len() - k,
    {
        let j = links[k];
        let node = &nodes[j];
        assert(ns[j as int] == node_view(*node));
        match attr_of(node, kh.as_slice()) {
            Some(h) => {
                let href = trimmed(str_bytes(h.as_str()));
                let hb = str_bytes(href.as_str());
                if preferred.is_none() {
                    let rel = attr_or_empty(node, kr.as_slice());
                    let ct = attr_or_empty(node, kt.as_slice());
                    if hb.len() > 0 && eq_ignore_ascii_case(str_bytes(rel.as_str()), enc.as_slice()) && (
                    is_torrent_url(href.as_str()) || is_torrent_content_type(ct.as_str())) {
                        preferred = Some(href.clone());
                    }
                }
                if torrent.is_none() && is_torrent_url(href.as_str()) {
                    proof {
                        encode_utf8_decode_utf8(href@);
                    }
                    torrent = Some(href.clone());
                }
                if fallback.is_none() {
                    let rel_is_alt = match attr_of(node, kr.as_slice()) {
                        Some(rel) => eq_ignore_ascii_case(str_bytes(rel.as_str()), alt.as_slice()),
                        None => {
                            proof {
                                assert(eq_ignore_case(name_alternate(), name_alternate()));
                            }
                            true
                        },
                    };
                    if hb.len() > 0 && rel_is_alt {
                        fallback = Some(href);
                    }
                }
            },
            None => {},
        }
        k = k + 1;
    }
    (preferred, torrent, fallback)
}

fn atom_item_exec(nodes: &[XmlNode], j: usize) -> (r: Option<FeedItem>)
    requires
        j < nodes@.len(),
    ensures
        match atom_item(nodes_view(nodes@), j as int) {
            Some(m) => r matches Some(it) && item_model(it) == m,
            None => r is None,
        },
{
    let nt: [u8; 5] = [116, 105, 116, 108, 101];
    let ni: [u8; 2] = [105, 100];
    let nl: [u8; 4] = [108, 105, 110, 107];
    assert(nt@ =~= name_title());
    assert(ni@ =~= name_id());
    assert(nl@ =~= name_link());
    let title = child_text_of(nodes, j, nt.as_slice());
    let id = child_text_of(nodes, j, ni.as_slice());
    let links = children_of(nodes, j, nl.as_slice());
    let (preferred, torrent, fallback) = atom_links(nodes, &links);
    let (link, is_torrent) = match preferred {
        Some(u) => (u, true),
        None => match torrent {
            Some(u) => (u, true),
            None => match fallback {
                Some(u) => {
                    let t = is_torrent_url(u.as_str());
                    proof {
                        encode_utf8_decode_utf8(u@);
                    }
                    (u, t)
                },
                None => (String::new(), false),
            },
        },
    };
    let guid = if str_bytes(id.as_str()).len() == 0 {
        link.clone()
    } else {
        id
    };
    if str_bytes(link.as_str()).len() == 0 || str_bytes(title.as_str()).len() > MAX_RSS_TEXT_BYTES || str_bytes(
        link.as_str(),
    ).len() > MAX_RSS_TEXT_BYTES || str_bytes(guid.as_str()).len() > MAX_RSS_TEXT_BYTES {
        return None;
    }
    Some(FeedItem { title, link, is_torrent, guid })
}

fn atom_items_exec(nodes: &[XmlNode], entries: &Vec<usize>) -> (r: Vec<FeedItem>)
    requires
        forall|k: int| 0 <= k < entries@.len() ==> (#[trigger] entries@[k]) < nodes@.len(),
    ensures
        items_model(r@) == atom_items(nodes_view(nodes@), entries@.map_values(|x: usize| x as int)),
{
    let ghost ns = nodes_view(nodes@);
    let ghost iv = entries@.map_values(|x: usize| x as int);
    let mut out: Vec<FeedItem> = Vec::new();
    let mut k: usize = 0;
    assert(items_model(out@) =~= atom_items(ns, iv.subrange(0, 0)));
    while k < entries.len() && k < MAX_FEED_ITEMS
        invariant
            k <= entries@.len(),
            k <= MAX_FEED_ITEMS,
            ns == nodes_view(nodes@),
            iv == entries@.map_values(|x: usize| x as int),
            forall|x: int| 0 <= x < entries@.len() ==> (#[trigger] entries@[x]) < nodes@.len(),
            items_model(out@) == atom_items(ns, iv.subrange(0, k as int)),
        decreases entries@.len() - k,
    {
        match atom_item_exec(nodes, entries[k]) {
            Some(it) => {
                out.push(it);
            },
            None => {},
        }
        proof {
            assert(iv.subrange(0, k + 1).drop_last() =~= iv.subrange(0, k as int));
            assert(iv.subrange(0, k + 1).last() == entries@[k as int] as int);
            assert(items_model(out@) =~= atom_items(ns, iv.subrange(0, k + 1)));
        }
        k = k + 1;
    }
    proof {
        lemma_items_cap(ns, iv, k as int);
    }
    out
}

fn bytes_string(b: &[u8]) -> (r: String)
    requires
        forall|i: int| 0 <= i < b@.len() ==> #[trigger] b@[i] < 128,
    ensures
        encode_utf8(r@) == b@,
{
    proof {
        lemma_ascii_valid(b@);
    }
    string_of(b)
}

/// Reads a feed's title and items (see `spec_parse_feed`).
pub fn parse_feed(data: &[u8]) -> (r: Result<(String, Vec<FeedItem>), String>)
    ensures
        match spec_parse_feed(data@) {
            Ok((t, items)) => r matches Ok((title, v)) && encode_utf8(title@) == t && items_model(v@) == items,
            Err(m) => r matches Err(e) && encode_utf8(e@) == m,
        },
{
    let invalid: [u8; 11] = [105, 110, 118, 97, 108, 105, 100, 32, 120, 109, 108];
    assert(invalid@ =~= invalid_xml());
    let text = match crate::text::string_from_utf8(bytes_to_vec(data)) {
        Some(s) => s,
        None => {
            return Err(bytes_string(invalid.as_slice()));
        },
    };
    proof {
        encode_utf8_decode_utf8(text@);
    }
    let nodes = match parse_xml(text.as_str()) {
        Some(n) => n,
        None => {
            return Err(bytes_string(invalid.as_slice()));
        },
    };
    feed_from_nodes(nodes.as_slice())
}

/// Reads a feed's title and items from its XML nodes (see
/// `spec_feed_from_nodes`).
pub fn feed_from_nodes(nodes: &[XmlNode]) -> (r: Result<(String, Vec<FeedItem>), String>)
    ensures
        match spec_feed_from_nodes(nodes_view(nodes@)) {
            Ok((t, items)) => r matches Ok((title, v)) && encode_utf8(title@) == t && items_model(v@) == items,
            Err(m) => r matches Err(e) && encode_utf8(e@) == m,
        },
{
    let invalid: [u8; 11] = [105, 110, 118, 97, 108, 105, 100, 32, 120, 109, 108];
    assert(invalid@ =~= invalid_xml());
    let ghost ns = nodes_view(nodes@);
    let mut r: usize = 0;
    while r < nodes.len()
        invariant
            r <= nodes@.len(),
            ns == nodes_view(nodes@),
            root_from(ns, 0) == root_from(ns, r as int),
        ensures
            r <= nodes@.len(),
            root_from(ns, 0) == root_from(ns, r as int),
            r == nodes@.len() || (ns[r as int].1 && ns[r as int].0 == Some(0usize)),
        decreases nodes@.len() - r,
    {
        assert(ns[r as int] == node_view(nodes@[r as int]));
        if nodes[r].element && match nodes[r].parent {
            Some(q) => q == 0,
            None => false,
        } {
            break;
        }
        r = r + 1;
    }
    if r == nodes.len() {
        return Err(bytes_string(invalid.as_slice()));
    }
    assert(ns[r as int] == node_view(nodes@[r as int]));
    assert(root_from(ns, 0) == Some(r as int));
    let name = str_bytes(nodes[r].name.as_str());
    let rss: [u8; 3] = [114, 115, 115];
    let feed: [u8; 4] = [102, 101, 101, 100];
    let rdf: [u8; 3] = [114, 100, 102];
    let nc: [u8; 7] = [99, 104, 97, 110, 110, 101, 108];
    let nt: [u8; 5] = [116, 105, 116, 108, 101];
    let ni: [u8; 4] = [105, 116, 101, 109];
    let ne: [u8; 5] = [101, 110, 116, 114, 121];
    assert(rss@ =~= seq![114u8, 115, 115]);
    assert(feed@ =~= seq![102u8, 101, 101, 100]);
    assert(rdf@ =~= seq![114u8, 100, 102]);
    assert(nc@ =~= name_channel());
    assert(nt@ =~= name_title());
    assert(ni@ =~= name_item());
    assert(ne@ =~= name_entry());
    if eq_ignore_ascii_case(name, rss.as_slice()) {
        let channels = children_of(nodes, r, nc.as_slice());
        if channels.len() == 0 {
            let missing: [u8; 17] = [109, 105, 115, 115, 105, 110, 103, 32, 60, 99, 104, 97, 110, 110, 101, 108, 62];
            assert(missing@ =~= missing_channel());
            return Err(bytes_string(missing.as_slice()));
        }
        let c = channels[0];
        let title = child_text_of(nodes, c, nt.as_slice());
        let items = children_of(nodes, c, ni.as_slice());
        return Ok((title, rss_items_exec(nodes, &items)));
    }
    if eq_ignore_ascii_case(name, feed.as_slice()) {
        let title = child_text_of(nodes, r, nt.as_slice());
        let entries = children_of(nodes, r, ne.as_slice());
        return Ok((title, atom_items_exec(nodes, &entries)));
    }
    if eq_ignore_ascii_case(name, rdf.as_slice()) {
        let channels = children_of(nodes, r, nc.as_slice());
        let title = if channels.len() > 0 {
            child_text_of(nodes, channels[0], nt.as_slice())
        } else {
            String::new()
        };
        let items = children_of(nodes, r, ni.as_slice());
        return Ok((title, rss_items_exec(nodes, &items)));
    }
    let prefix: [u8; 23] = [
        117, 110, 107, 110, 111, 119, 110, 32, 102, 101, 101, 100, 32, 114, 111, 111, 116, 32, 116, 97, 103, 58, 32,
    ];
    assert(prefix@ =~= unknown_root());
    let mut msg: Vec<u8> = Vec::new();
    push_all(&mut msg, prefix.as_slice());
    push_all(&mut msg, name);
    proof {
        lemma_ascii_valid(prefix@);
        encode_utf8_valid_utf8(nodes@[r as int].name@);
        valid_utf8_concat(prefix@, name@);
    }
    Err(string_of(msg.as_slice()))
}


proof fn lemma_rule_sorted(r: RuleModel)
    ensures
        crate::bencode::spec_encode(rule_value(r)) == crate::bencode::spec_encode(rule_value_sorted(r)),
        crate::bencode::same_charge(rule_value(r), rule_value_sorted(r)),
        crate::bencode::canonical_value(rule_value_sorted(r)),
{
    lemma_key_order();
    let e = rule_value(r)->Dict_0;
    let o = rule_value_sorted(r)->Dict_0;
    let keys = crate::bencode::entry_keys(e);
    assert(keys =~= seq![key_name(), key_feed_url(), key_pattern()]);
    let o0 = crate::bencode::stable_order(keys, 0);
    assert(o0 =~= Seq::<int>::empty());
    let o1 = crate::bencode::stable_order(keys, 1);
    let o2 = crate::bencode::stable_order(keys, 2);
    let o3 = crate::bencode::stable_order(keys, 3);
    assert(o1 =~= seq![0int]);
    assert(crate::bencode::insert_pos(keys, o1, 1, 0) == 0);
    assert(crate::bencode::insert_pos(keys, o1, 1, 1) == 0);
    assert(o2 =~= seq![1int, 0]);
    assert(crate::bencode::insert_pos(keys, o2, 2, 2) == 2);
    assert(o3 =~= seq![1int, 0, 2]);
    assert(crate::bencode::keys_increasing(o));
    crate::bencode::lemma_dict_order_increasing(o);
    let emp = Seq::<int>::empty();
    let a1 = emp.push(1);
    let a2 = a1.push(0);
    let a3 = a2.push(2);
    assert(a3 =~= o3);
    crate::bencode::lemma_encode_entries_push(e, emp, 1);
    crate::bencode::lemma_encode_entries_push(e, a1, 0);
    crate::bencode::lemma_encode_entries_push(e, a2, 2);
    let b1 = emp.push(0);
    let b2 = b1.push(1);
    let b3 = b2.push(2);
    assert(b3 =~= crate::bencode::iota(3));
    crate::bencode::lemma_encode_entries_push(o, emp, 0);
    crate::bencode::lemma_encode_entries_push(o, b1, 1);
    crate::bencode::lemma_encode_entries_push(o, b2, 2);
    assert(crate::bencode::encode_entries(e, a3) == crate::bencode::encode_entries(o, b3));
    assert forall|d: int, x: int| #[trigger] crate::bencode::spec_validate(rule_value(r), d, x)
        == crate::bencode::spec_validate(rule_value_sorted(r), d, x) by {
        lemma_scalar_charge(e, d + 1, x - 1);
        lemma_scalar_charge(o, d + 1, x - 1);
    }
    assert(crate::bencode::canonical_value(o[0].1));
    assert(crate::bencode::canonical_value(o[1].1));
    assert(crate::bencode::canonical_value(o[2].1));
    crate::bencode::lemma_canonical_entries_all(o);
}

/// The whole state encodes and charges the decoder as its sorted form does,
/// and the sorted form is canonical.
proof fn lemma_state_sorted(s: StateModel)
    ensures
        crate::bencode::spec_encode(state_value(s)) == crate::bencode::spec_encode(state_value_sorted(s)),
        crate::bencode::spec_validate(state_value(s), 0, crate::bencode::MAX_VALUES as int)
            == crate::bencode::spec_validate(state_value_sorted(s), 0, crate::bencode::MAX_VALUES as int),
        crate::bencode::canonical_value(state_value_sorted(s)),
{
    lemma_key_order();
    let fa = s.0.map_values(|f: FeedModel| feed_value(f));
    let fb = s.0.map_values(|f: FeedModel| feed_value_sorted(f));
    let ra = s.1.map_values(|r: RuleModel| rule_value(r));
    let rb = s.1.map_values(|r: RuleModel| rule_value_sorted(r));
    let ga = s.2.map_values(|g: Seq<u8>| crate::bencode::SpecValue::Bytes(g));
    assert forall|i: int| 0 <= i < fa.len() implies crate::bencode::spec_encode(#[trigger] fa[i])
        == crate::bencode::spec_encode(fb[i]) && crate::bencode::same_charge(fa[i], fb[i])
        && crate::bencode::canonical_value(fb[i]) by {
        lemma_feed_sorted(s.0[i]);
    }
    assert forall|i: int| 0 <= i < ra.len() implies crate::bencode::spec_encode(#[trigger] ra[i])
        == crate::bencode::spec_encode(rb[i]) && crate::bencode::same_charge(ra[i], rb[i])
        && crate::bencode::canonical_value(rb[i]) by {
        lemma_rule_sorted(s.1[i]);
    }
    crate::bencode::lemma_encode_seq_congruent(fa, fb);
    crate::bencode::lemma_encode_seq_congruent(ra, rb);
    let ea = state_value(s)->Dict_0;
    let eb = state_value_sorted(s)->Dict_0;
    assert forall|i: int| 0 <= i < ea.len() implies (#[trigger] ea[i]).0 == eb[i].0 && crate::bencode::spec_encode(
        ea[i].1,
    ) == crate::bencode::spec_encode(eb[i].1) by {}
    crate::bencode::lemma_encode_entries_congruent(ea, eb, crate::bencode::dict_order(ea));
    assert(crate::bencode::dict_order(ea) == crate::bencode::dict_order(eb));
    assert forall|d: int, x: int| #[trigger] crate::bencode::spec_validate(ea[0].1, d, x)
        == crate::bencode::spec_validate(eb[0].1, d, x) by {
        if let Ok(x1) = crate::bencode::spec_slot(d, x) {
            crate::bencode::lemma_validate_seq_congruent(fa, fb, d + 1, x1);
        }
    }
    assert forall|d: int, x: int| #[trigger] crate::bencode::spec_validate(ea[1].1, d, x)
        == crate::bencode::spec_validate(eb[1].1, d, x) by {
        if let Ok(x1) = crate::bencode::spec_slot(d, x) {
            crate::bencode::lemma_validate_seq_congruent(ra, rb, d + 1, x1);
        }
    }
    assert(crate::bencode::same_charge(ea[0].1, eb[0].1));
    assert(crate::bencode::same_charge(ea[1].1, eb[1].1));
    assert(crate::bencode::same_charge(ea[2].1, eb[2].1));
    assert forall|i: int| 0 <= i < ea.len() implies crate::bencode::same_charge(#[trigger] ea[i].1, eb[i].1) by {}
    crate::bencode::lemma_validate_entries_congruent(ea, eb, 1, crate::bencode::MAX_VALUES as int - 1);
    assert forall|i: int| 0 <= i < fb.len() implies crate::bencode::canonical_value(#[trigger] fb[i]) by {
        lemma_feed_sorted(s.0[i]);
    }
    assert forall|i: int| 0 <= i < rb.len() implies crate::bencode::canonical_value(#[trigger] rb[i]) by {
        lemma_rule_sorted(s.1[i]);
    }
    crate::bencode::lemma_canonical_seq_all(fb);
    crate::bencode::lemma_canonical_seq_all(rb);
    assert forall|i: int| 0 <= i < ga.len() implies crate::bencode::canonical_value(#[trigger] ga[i]) by {}
    crate::bencode::lemma_canonical_seq_all(ga);
    assert(crate::bencode::canonical_value(eb[0].1));
    assert(crate::bencode::canonical_value(eb[1].1));
    assert(crate::bencode::canonical_value(eb[2].1));
    assert forall|i: int| 0 <= i < eb.len() implies crate::bencode::canonical_value(#[trigger] eb[i].1) by {}
    crate::bencode::lemma_canonical_entries_all(eb);
    assert(crate::bencode::keys_increasing(eb));
}


proof fn lemma_saved_feed_sorted(f: FeedModel)
    requires
        feed_reloads(f),
        f.0.len() <= MAX_RSS_TEXT_BYTES,
        f.1.len() <= MAX_RSS_TEXT_BYTES,
    ensures
        saved_feed(feed_value_sorted(f)) == Some(f),
{
    lemma_key_order();
    let fd = feed_value_sorted(f)->Dict_0;
    assert(sdict_get_from(fd, key_url(), 3) == Some(crate::bencode::SpecValue::Bytes(f.0)));
    assert(sdict_get_from(fd, key_url(), 2) == Some(crate::bencode::SpecValue::Bytes(f.0)));
    assert(sdict_get_from(fd, key_url(), 1) == Some(crate::bencode::SpecValue::Bytes(f.0)));
    assert(sdict_get_from(fd, key_url(), 0) == Some(crate::bencode::SpecValue::Bytes(f.0)));
    assert(sdict_get_from(fd, key_title(), 2) == Some(crate::bencode::SpecValue::Bytes(f.1)));
    assert(sdict_get_from(fd, key_title(), 1) == Some(crate::bencode::SpecValue::Bytes(f.1)));
    assert(sdict_get_from(fd, key_title(), 0) == Some(crate::bencode::SpecValue::Bytes(f.1)));
    assert(sdict_get_from(fd, key_last_poll(), 0) == Some(crate::bencode::SpecValue::Int(clamp_int(f.2))));
    assert(sdict_get_from(fd, key_poll_interval(), 1) == Some(crate::bencode::SpecValue::Int(clamp_int(f.3))));
    assert(sdict_get_from(fd, key_poll_interval(), 0) == Some(crate::bencode::SpecValue::Int(clamp_int(f.3))));
}

proof fn lemma_saved_rule_sorted(r: RuleModel)
    requires
        rule_reloads(r),
        r.0.len() <= MAX_RSS_TEXT_BYTES,
        r.1.len() <= MAX_RSS_TEXT_BYTES,
        r.2.len() <= MAX_RSS_PATTERN_BYTES,
    ensures
        saved_rule(rule_value_sorted(r)) == Some(r),
{
    lemma_key_order();
    let rd = rule_value_sorted(r)->Dict_0;
    assert(sdict_get_from(rd, key_feed_url(), 0) == Some(crate::bencode::SpecValue::Bytes(r.1)));
    assert(sdict_get_from(rd, key_name(), 1) == Some(crate::bencode::SpecValue::Bytes(r.0)));
    assert(sdict_get_from(rd, key_name(), 0) == Some(crate::bencode::SpecValue::Bytes(r.0)));
    assert(sdict_get_from(rd, key_pattern(), 2) == Some(crate::bencode::SpecValue::Bytes(r.2)));
    assert(sdict_get_from(rd, key_pattern(), 1) == Some(crate::bencode::SpecValue::Bytes(r.2)));
    assert(sdict_get_from(rd, key_pattern(), 0) == Some(crate::bencode::SpecValue::Bytes(r.2)));
}

proof fn lemma_saved_feeds_sorted(fs: Seq<FeedModel>)
    requires
        forall|i: int| 0 <= i < fs.len() ==> feed_reloads(#[trigger] fs[i]) && fs[i].0.len() <= MAX_RSS_TEXT_BYTES
            && fs[i].1.len() <= MAX_RSS_TEXT_BYTES,
    ensures
        saved_feeds(fs.map_values(|f: FeedModel| feed_value_sorted(f))) == fs,
    decreases fs.len(),
{
    let l = fs.map_values(|f: FeedModel| feed_value_sorted(f));
    if fs.len() > 0 {
        let t = fs.drop_last();
        assert forall|i: int| 0 <= i < t.len() implies feed_reloads(#[trigger] t[i]) && t[i].0.len()
            <= MAX_RSS_TEXT_BYTES && t[i].1.len() <= MAX_RSS_TEXT_BYTES by {
            assert(t[i] == fs[i]);
        }
        lemma_saved_feeds_sorted(t);
        assert(l.drop_last() =~= t.map_values(|f: FeedModel| feed_value_sorted(f)));
        lemma_saved_feed_sorted(fs.last());
        assert(t.push(fs.last()) =~= fs);
    } else {
        assert(fs =~= Seq::<FeedModel>::empty());
    }
}

proof fn lemma_saved_rules_sorted(rs: Seq<RuleModel>)
    requires
        forall|i: int| 0 <= i < rs.len() ==> rule_reloads(#[trigger] rs[i]) && rs[i].0.len() <= MAX_RSS_TEXT_BYTES
            && rs[i].1.len() <= MAX_RSS_TEXT_BYTES && rs[i].2.len() <= MAX_RSS_PATTERN_BYTES,
    ensures
        saved_rules(rs.map_values(|r: RuleModel| rule_value_sorted(r))) == rs,
    decreases rs.len(),
{
    let l = rs.map_values(|r: RuleModel| rule_value_sorted(r));
    if rs.len() > 0 {
        let t = rs.drop_last();
        assert forall|i: int| 0 <= i < t.len() implies rule_reloads(#[trigger] t[i]) && t[i].0.len()
            <= MAX_RSS_TEXT_BYTES && t[i].1.len() <= MAX_RSS_TEXT_BYTES && t[i].2.len() <= MAX_RSS_PATTERN_BYTES by {
            assert(t[i] == rs[i]);
        }
        lemma_saved_rules_sorted(t);
        assert(l.drop_last() =~= t.map_values(|r: RuleModel| rule_value_sorted(r)));
        lemma_saved_rule_sorted(rs.last());
        assert(t.push(rs.last()) =~= rs);
    } else {
        assert(rs =~= Seq::<RuleModel>::empty());
    }
}

/// Walking the saved keys from the end keeps every one of them.
proof fn lemma_seen_pick_all(g: Seq<Seq<u8>>, j: int)
    requires
        seen_reloads(g),
        0 <= j <= g.len(),
    ensures
        seen_pick(
            g.map_values(|x: Seq<u8>| crate::bencode::SpecValue::Bytes(x)).subrange(0, j),
            g.subrange(j, g.len() as int).reverse(),
        ) == g.reverse(),
    decreases j,
{
    let l = g.map_values(|x: Seq<u8>| crate::bencode::SpecValue::Bytes(x));
    let n = g.len() as int;
    let acc = g.subrange(j, n).reverse();
    if j == 0 {
        assert(g.subrange(0, n) =~= g);
        assert(l.subrange(0, 0) =~= Seq::<crate::bencode::SpecValue>::empty());
    } else {
        let x = g[j - 1];
        assert(l.subrange(0, j).last() == crate::bencode::SpecValue::Bytes(x));
        assert(l.subrange(0, j).drop_last() =~= l.subrange(0, j - 1));
        assert(!acc.contains(x)) by {
            if acc.contains(x) {
                let k = choose|k: int| 0 <= k < acc.len() && acc[k] == x;
                assert(acc[k] == g[n - 1 - k]);
                assert(g[j - 1] != g[n - 1 - k]);
            }
        }
        assert(acc.push(x) =~= g.subrange(j - 1, n).reverse());
        lemma_seen_pick_all(g, j - 1);
    }
}

/// What `encode_rss_state` writes, `parse_rss_state` reads back
/// unchanged (a feed's items are not saved), for a state all of whose
/// entries pass the reader's checks.
pub proof fn lemma_rss_state_roundtrip(s: StateModel, bytes: Seq<u8>)
    requires
        spec_encode_rss_state(s) == Ok::<Seq<u8>, Seq<char>>(bytes),
        bytes.len() <= usize::MAX,
        state_reloads(s),
    ensures
        spec_parse_rss_state(bytes) == Ok::<StateModel, Seq<char>>(s),
{
    lemma_key_order();
    lemma_state_sorted(s);
    let v = state_value_sorted(s);
    crate::bencode::lemma_encode_parse_roundtrip(v);
    let d = v->Dict_0;
    assert(sdict_get_from(d, key_feeds(), 0) == Some(d[0].1));
    assert(sdict_get_from(d, key_rules(), 1) == Some(d[1].1));
    assert(sdict_get_from(d, key_rules(), 0) == Some(d[1].1));
    assert(sdict_get_from(d, key_seen(), 2) == Some(d[2].1));
    assert(sdict_get_from(d, key_seen(), 1) == Some(d[2].1));
    assert(sdict_get_from(d, key_seen(), 0) == Some(d[2].1));
    lemma_saved_feeds_sorted(s.0);
    lemma_saved_rules_sorted(s.1);
    lemma_seen_pick_all(s.2, s.2.len() as int);
    let l = s.2.map_values(|x: Seq<u8>| crate::bencode::SpecValue::Bytes(x));
    assert(l.subrange(0, s.2.len() as int) =~= l);
    assert(s.2.subrange(s.2.len() as int, s.2.len() as int).reverse() =~= Seq::<Seq<u8>>::empty());
    assert(s.2.reverse().reverse() =~= s.2);
}

} // verus!

verus! {

proof fn lemma_matches_unseen(items: Seq<FeedItem>, rules: Seq<RssRule>, seen: Seq<Seq<char>>, url: Seq<char>)
    ensures
        forall|k: int|
            0 <= k < spec_matches(items, rules, seen, url).len() ==> {
                let j = (#[trigger] spec_matches(items, rules, seen, url)[k]).0;
                0 <= j < items.len() && !item_seen(items[j], seen, url)
            },
    decreases items.len(),
{
    if items.len() > 0 {
        let prev = items.drop_last();
        lemma_matches_unseen(prev, rules, seen, url);
        assert forall|k: int| 0 <= k < spec_matches(items, rules, seen, url).len() implies {
            let j = (#[trigger] spec_matches(items, rules, seen, url)[k]).0;
            0 <= j < items.len() && !item_seen(items[j], seen, url)
        } by {
            let m = spec_matches(items, rules, seen, url);
            let pm = spec_matches(prev, rules, seen, url);
            if k < pm.len() {
                assert(m[k] == pm[k]);
                assert(prev[pm[k].0] == items[pm[k].0]);
            }
        }
    }
}

/// A key is still remembered right after it was recorded.
pub proof fn lemma_remember_keeps_key(seen: Seq<Seq<char>>, key: Seq<char>)
    ensures
        spec_remember(seen, key).contains(key),
{
    if !seen.contains(key) {
        let s = seen.push(key);
        assert(s[s.len() - 1] == key);
        if s.len() > MAX_SEEN_GUIDS {
            let t = s.subrange(s.len() - MAX_SEEN_GUIDS, s.len() as int);
            assert(t[t.len() - 1] == key);
        }
    }
}

/// Once the key of an item of the feed at `url` is recorded with
/// `remember_seen`, matching that feed's items no longer selects it.
pub proof fn lemma_remembered_item_skipped(
    items: Seq<FeedItem>,
    rules: Seq<RssRule>,
    seen: Seq<Seq<char>>,
    url: Seq<char>,
    i: int,
    key: Seq<char>,
)
    requires
        0 <= i < items.len(),
        encode_utf8(key) == seen_key_bytes(encode_utf8(url), encode_utf8(items[i].guid@)),
    ensures
        forall|k: int|
            0 <= k < spec_matches(items, rules, spec_remember(seen, key), url).len() ==> (
            #[trigger] spec_matches(items, rules, spec_remember(seen, key), url)[k]).0 != i,
{
    let after = spec_remember(seen, key);
    lemma_remember_keeps_key(seen, key);
    encode_utf8_decode_utf8(key);
    assert(item_seen(items[i], after, url));
    lemma_matches_unseen(items, rules, after, url);
}

} // verus!
