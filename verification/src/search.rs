use vstd::prelude::*;
use vstd::utf8::*;

use crate::http::{
    bytes_equal, find_bytes, find_window, lemma_ascii_valid, lemma_find_window, lower_bytes, lower_vec,
    push_all, split_from, starts_with, trim_bytes, trimmed,
};
use crate::rss::{before_first, contains_bytes, ends_with};
use crate::text::{bytes_to_vec, find_byte, find_first, find_last, lemma_find_first, lemma_find_last, rfind_byte, str_bytes, string_of};

verus! {

/// Largest plugin file accepted.
pub const MAX_PLUGIN_BYTES: usize = 524288;

/// Most plugins one search may use.
pub const MAX_SELECTED_PLUGINS: usize = 16;

/// Most result lines read from one plugin run.
pub const MAX_RESULTS_PER_PLUGIN: usize = 1000;

/// An installed search plugin.
#[derive(Clone, Debug)]
pub struct SearchPlugin {
    pub module: String,
    pub display_name: String,
    pub site_url: String,
    pub version: String,
    pub categories: Vec<String>,
    pub healthy: bool,
    pub broken_reason: String,
}

/// One search hit.
#[derive(Clone, Debug)]
pub struct SearchResult {
    pub result_id: u64,
    pub plugin: String,
    pub site_url: String,
    pub link: String,
    pub name: String,
    pub size_bytes: i64,
    pub seeds: i64,
    pub leech: i64,
    pub desc_link: String,
    pub pub_date: i64,
}

/// One plugin of the community catalog.
#[derive(Clone, Debug)]
pub struct SearchCatalogEntry {
    pub module: String,
    pub name: String,
    pub author: String,
    pub version: String,
    pub updated: String,
    pub download_url: String,
    pub comment: String,
    pub private_site: bool,
}

/// What a search result resolves to.
pub enum SearchDownload {
    Magnet(String),
    TorrentBytes(Vec<u8>),
}

// ---------------------------------------------------------------------
// Plugin names
// ---------------------------------------------------------------------

/// `.py`
pub open spec fn py_suffix() -> Seq<u8> {
    seq![46u8, 112, 121]
}

pub open spec fn ident_start(c: u8) -> bool {
    (65 <= c <= 90) || (97 <= c <= 122) || c == 95
}

pub open spec fn ident_byte(c: u8) -> bool {
    ident_start(c) || (48 <= c <= 57)
}

/// The module of a plugin file name: the trimmed name without its `.py`,
/// a Python identifier of ASCII letters, digits and `_` not starting with
/// a digit.
pub open spec fn spec_module(filename: Seq<u8>) -> Option<Seq<u8>> {
    let n = trim_bytes(filename);
    if !ends_with(n, py_suffix()) {
        None
    } else {
        let stem = n.subrange(0, n.len() - 3);
        if stem.len() > 0 && ident_start(stem[0]) && forall|i: int| 1 <= i < stem.len() ==> ident_byte(#[trigger] stem[i]) {
            Some(stem)
        } else {
            None
        }
    }
}

fn ends_with_bytes(s: &[u8], p: &[u8]) -> (r: bool)
    ensures
        r == ends_with(s@, p@),
{
    if s.len() < p.len() {
        return false;
    }
    bytes_equal(&s[s.len() - p.len()..s.len()], p)
}

/// The module a plugin file name names (see `spec_module`).
pub fn plugin_module_from_filename(filename: &str) -> (r: Option<String>)
    ensures
        match spec_module(encode_utf8(filename@)) {
            Some(m) => r matches Some(s) && encode_utf8(s@) == m,
            None => r is None,
        },
{
    let name = trimmed(str_bytes(filename));
    let n = str_bytes(name.as_str());
    let py: [u8; 3] = [46, 112, 121];
    assert(py@ =~= py_suffix());
    if !ends_with_bytes(n, py.as_slice()) {
        return None;
    }
    let stem = &n[0..n.len() - 3];
    if stem.len() == 0 {
        return None;
    }
    let c0 = stem[0];
    if !((65 <= c0 && c0 <= 90) || (97 <= c0 && c0 <= 122) || c0 == 95) {
        return None;
    }
    let ghost spec_stem = n@.subrange(0, n@.len() - 3);
    assert(stem@ == spec_stem);
    let mut i: usize = 1;
    while i < stem.len()
        invariant
            1 <= i <= stem@.len(),
            stem@ == spec_stem,
            n@ == trim_bytes(encode_utf8(filename@)),
            spec_stem == n@.subrange(0, n@.len() - 3),
            ends_with(n@, py_suffix()),
            forall|j: int| 1 <= j < i ==> ident_byte(#[trigger] stem@[j]),
        decreases stem@.len() - i,
    {
        let c = stem[i];
        if !((65 <= c && c <= 90) || (97 <= c && c <= 122) || c == 95 || (48 <= c && c <= 57)) {
            assert(!ident_byte(stem@[i as int]));
            return None;
        }
        i = i + 1;
    }
    proof {
        assert forall|j: int| 0 <= j < stem@.len() implies #[trigger] stem@[j] < 128 by {
            if j > 0 {
                assert(ident_byte(stem@[j]));
            }
        }
        lemma_ascii_valid(stem@);
    }
    Some(string_of(stem))
}

/// `__init__`
pub open spec fn init_module() -> Seq<u8> {
    seq![95u8, 95, 105, 110, 105, 116, 95, 95]
}

/// A plugin module the user names: the trimmed name must be a module name
/// (see `spec_module`) other than `__init__`.
pub open spec fn spec_sanitize(module: Seq<u8>) -> Result<Seq<u8>, Seq<char>> {
    match spec_module(trim_bytes(module) + py_suffix()) {
        None => Err("invalid search plugin name"@),
        Some(m) => if m == init_module() {
            Err("search plugin name is reserved"@)
        } else {
            Ok(m)
        },
    }
}

fn is_init(m: &[u8]) -> (r: bool)
    ensures
        r == (m@ == init_module()),
{
    let init: [u8; 8] = [95, 95, 105, 110, 105, 116, 95, 95];
    assert(init@ =~= init_module());
    bytes_equal(m, init.as_slice())
}

/// Checks a plugin module name (see `spec_sanitize`).
pub fn sanitize_module_name(module: &str) -> (r: Result<String, String>)
    ensures
        match spec_sanitize(encode_utf8(module@)) {
            Ok(m) => r matches Ok(s) && encode_utf8(s@) == m,
            Err(e) => r matches Err(s) && s@ == e,
        },
{
    let t = trimmed(str_bytes(module));
    let mut b: Vec<u8> = bytes_to_vec(str_bytes(t.as_str()));
    b.push(46);
    b.push(112);
    b.push(121);
    proof {
        encode_utf8_valid_utf8(t@);
        lemma_ascii_valid(py_suffix());
        valid_utf8_concat(encode_utf8(t@), py_suffix());
        assert(b@ =~= encode_utf8(t@) + py_suffix());
    }
    let name = string_of(b.as_slice());
    let m = match plugin_module_from_filename(name.as_str()) {
        Some(m) => m,
        None => {
            return Err("invalid search plugin name".to_string());
        },
    };
    if is_init(str_bytes(m.as_str())) {
        return Err("search plugin name is reserved".to_string());
    }
    Ok(m)
}

/// What follows the last `/` of `s` (all of it when there is none).
pub open spec fn after_last_slash(s: Seq<u8>) -> Seq<u8> {
    match find_last(s, 47) {
        Some(i) => s.subrange(i + 1, s.len() as int),
        None => s,
    }
}

/// The file name of a plugin URL: after the last `/` of the URL without
/// its query and fragment, trimmed; it may not be empty.
pub open spec fn spec_filename_from_url(url: Seq<u8>) -> Option<Seq<u8>> {
    let f = trim_bytes(after_last_slash(before_first(before_first(url, 35), 63)));
    if f.len() == 0 {
        None
    } else {
        Some(f)
    }
}

/// The file name a plugin URL names (see `spec_filename_from_url`).
pub fn filename_from_url(url: &str) -> (r: Result<String, String>)
    ensures
        match spec_filename_from_url(encode_utf8(url@)) {
            Some(f) => r matches Ok(s) && encode_utf8(s@) == f,
            None => r matches Err(e) && e@ == "plugin url is missing a filename"@,
        },
{
    let b = str_bytes(url);
    proof {
        lemma_find_first(b@, 35);
    }
    let a = match find_byte(b, 35) {
        Some(i) => {
            proof {
                crate::text::lemma_ascii_delimited(b@, 0, i as int);
            }
            &b[0..i]
        },
        None => b,
    };
    proof {
        lemma_find_first(a@, 63);
    }
    let q = match find_byte(a, 63) {
        Some(i) => {
            proof {
                crate::text::lemma_ascii_delimited(a@, 0, i as int);
            }
            &a[0..i]
        },
        None => a,
    };
    proof {
        lemma_find_last(q@, 47);
    }
    let last = match rfind_byte(q, 47) {
        Some(i) => {
            assert(i < q.len());
            proof {
                crate::text::lemma_ascii_delimited(q@, i + 1, q@.len() as int);
            }
            &q[i + 1..q.len()]
        },
        None => q,
    };
    let f = trimmed(last);
    if str_bytes(f.as_str()).len() == 0 {
        return Err("plugin url is missing a filename".to_string());
    }
    Ok(f)
}

/// `https://`
pub open spec fn https_prefix() -> Seq<u8> {
    seq![104u8, 116, 116, 112, 115, 58, 47, 47]
}

/// The checks on a plugin URL before it is fetched: the trimmed URL must
/// use `https://` and name a module file; gives the trimmed URL, the file
/// name and the module.
pub open spec fn spec_check_plugin_url(url: Seq<u8>) -> Result<(Seq<u8>, Seq<u8>, Seq<u8>), Seq<char>> {
    let t = trim_bytes(url);
    if !starts_with(t, https_prefix()) {
        Err("plugin url must use https://"@)
    } else {
        match spec_filename_from_url(t) {
            None => Err("plugin url is missing a filename"@),
            Some(f) => match spec_module(f) {
                None => Err("plugin filename must be a valid python module name"@),
                Some(m) => Ok((t, f, m)),
            },
        }
    }
}

fn starts_with_bytes(s: &[u8], p: &[u8]) -> (r: bool)
    ensures
        r == starts_with(s@, p@),
{
    if s.len() < p.len() {
        return false;
    }
    bytes_equal(&s[0..p.len()], p)
}

/// Checks a plugin URL before it is fetched (see `spec_check_plugin_url`).
pub fn check_plugin_url(url: &str) -> (r: Result<(String, String, String), String>)
    ensures
        match spec_check_plugin_url(encode_utf8(url@)) {
            Ok((t, f, m)) => r matches Ok((a, b, c)) && encode_utf8(a@) == t && encode_utf8(b@) == f
                && encode_utf8(c@) == m,
            Err(e) => r matches Err(s) && s@ == e,
        },
{
    let t = trimmed(str_bytes(url));
    let https: [u8; 8] = [104, 116, 116, 112, 115, 58, 47, 47];
    assert(https@ =~= https_prefix());
    if !starts_with_bytes(str_bytes(t.as_str()), https.as_slice()) {
        return Err("plugin url must use https://".to_string());
    }
    proof {
        encode_utf8_decode_utf8(t@);
    }
    let f = filename_from_url(t.as_str())?;
    proof {
        encode_utf8_decode_utf8(f@);
    }
    let m = match plugin_module_from_filename(f.as_str()) {
        Some(m) => m,
        None => {
            return Err("plugin filename must be a valid python module name".to_string());
        },
    };
    Ok((t, f, m))
}

/// The checks on a plugin file before it is installed: not empty, at most
/// `MAX_PLUGIN_BYTES`, a module file name other than `__init__`, UTF-8
/// source without NUL; gives the module.
pub open spec fn spec_check_plugin_bytes(filename: Seq<u8>, bytes: Seq<u8>) -> Result<Seq<u8>, Seq<char>> {
    if bytes.len() == 0 {
        Err("plugin file is empty"@)
    } else if bytes.len() > MAX_PLUGIN_BYTES {
        Err("plugin file is too large"@)
    } else {
        match spec_module(filename) {
            None => Err("plugin filename must be a valid python module name"@),
            Some(m) => if m == init_module() {
                Err("plugin filename is reserved"@)
            } else if !valid_utf8(bytes) {
                Err("plugin source must be valid UTF-8"@)
            } else if bytes.contains(0u8) {
                Err("plugin source contains a NUL byte"@)
            } else {
                Ok(m)
            },
        }
    }
}

/// Checks a plugin file before it is installed (see
/// `spec_check_plugin_bytes`).
pub fn check_plugin_bytes(filename: &str, bytes: &[u8]) -> (r: Result<String, String>)
    ensures
        match spec_check_plugin_bytes(encode_utf8(filename@), bytes@) {
            Ok(m) => r matches Ok(s) && encode_utf8(s@) == m,
            Err(e) => r matches Err(s) && s@ == e,
        },
{
    if bytes.len() == 0 {
        return Err("plugin file is empty".to_string());
    }
    if bytes.len() > MAX_PLUGIN_BYTES {
        return Err("plugin file is too large".to_string());
    }
    let m = match plugin_module_from_filename(filename) {
        Some(m) => m,
        None => {
            return Err("plugin filename must be a valid python module name".to_string());
        },
    };
    if is_init(str_bytes(m.as_str())) {
        return Err("plugin filename is reserved".to_string());
    }
    if crate::text::string_from_utf8(bytes_to_vec(bytes)).is_none() {
        return Err("plugin source must be valid UTF-8".to_string());
    }
    match find_byte(bytes, 0) {
        Some(_) => {
            proof {
                lemma_find_first(bytes@, 0);
            }
            return Err("plugin source contains a NUL byte".to_string());
        },
        None => {
            proof {
                lemma_find_first(bytes@, 0);
            }
        },
    }
    Ok(m)
}

/// `magnetdl`
pub open spec fn magnetdl_name() -> Seq<u8> {
    seq![109u8, 97, 103, 110, 101, 116, 100, 108]
}

/// Why the plugin with a known issue is marked broken.
pub open spec fn known_issue_text() -> Seq<char> {
    "Category searches return 404 on the current public site."@
}

/// A known problem of a plugin, by module: only `magnetdl` has one.
pub fn plugin_known_issue(module: &str) -> (r: Option<&'static str>)
    ensures
        r is Some <==> encode_utf8(module@) == magnetdl_name(),
        r matches Some(m) ==> m@ == known_issue_text(),
{
    let name: [u8; 8] = [109, 97, 103, 110, 101, 116, 100, 108];
    assert(name@ =~= magnetdl_name());
    if bytes_equal(str_bytes(module), name.as_slice()) {
        let m = "Category searches return 404 on the current public site.";
        assert(m@ == known_issue_text());
        Some(m)
    } else {
        None
    }
}

/// `traceback`
pub open spec fn traceback_name() -> Seq<u8> {
    seq![116u8, 114, 97, 99, 101, 98, 97, 99, 107]
}

/// `404`
pub open spec fn not_found_code() -> Seq<u8> {
    seq![52u8, 48, 52]
}

/// What a plugin's warning output shows the user: nothing when blank; a
/// fixed summary when it holds a Python traceback (another one when it
/// mentions 404); else the trimmed text.
pub open spec fn spec_summarize(message: Seq<u8>) -> Seq<char> {
    let t = trim_bytes(message);
    if t.len() == 0 {
        Seq::empty()
    } else if contains_bytes(lower_bytes(t), traceback_name()) {
        if contains_bytes(lower_bytes(t), not_found_code()) {
            "One or more plugins failed with an HTTP 404. Try another plugin or search without a category filter."@
        } else {
            "One or more plugins failed during search. Open Plugins to review providers or disable unstable ones."@
        }
    } else {
        decode_utf8(t)
    }
}

fn contains_slice(s: &[u8], p: &[u8]) -> (r: bool)
    ensures
        r == contains_bytes(s@, p@),
{
    if p.len() == 0 {
        return true;
    }
    find_bytes(s, p, 0).is_some()
}

/// Summarizes a plugin's warning output (see `spec_summarize`).
pub fn summarize_search_warning(message: &str) -> (r: String)
    ensures
        r@ == spec_summarize(encode_utf8(message@)),
{
    let t = trimmed(str_bytes(message));
    let tb = str_bytes(t.as_str());
    if tb.len() == 0 {
        proof {
            encode_utf8_decode_utf8(t@);
            assert(encode_utf8(t@) =~= Seq::<u8>::empty());
            assert(decode_utf8(Seq::<u8>::empty()) =~= Seq::<char>::empty());
        }
        return String::new();
    }
    let lower = lower_vec(tb);
    let tr: [u8; 9] = [116, 114, 97, 99, 101, 98, 97, 99, 107];
    let nf: [u8; 3] = [52, 48, 52];
    assert(tr@ =~= traceback_name());
    assert(nf@ =~= not_found_code());
    if contains_slice(lower.as_slice(), tr.as_slice()) {
        if contains_slice(lower.as_slice(), nf.as_slice()) {
            return "One or more plugins failed with an HTTP 404. Try another plugin or search without a category filter.".to_string();
        }
        return "One or more plugins failed during search. Open Plugins to review providers or disable unstable ones.".to_string();
    }
    proof {
        encode_utf8_decode_utf8(t@);
    }
    t
}

} // verus!

verus! {

// ---------------------------------------------------------------------
// Categories and engines
// ---------------------------------------------------------------------

/// The categories a search may use.
pub open spec fn known_category(c: Seq<u8>) -> bool {
    c == seq![97u8, 108, 108] || c == seq![97u8, 110, 105, 109, 101] || c == seq![98u8, 111, 111, 107, 115]
        || c == seq![103u8, 97, 109, 101, 115] || c == seq![109u8, 111, 118, 105, 101, 115] || c == seq![
        109u8,
        117,
        115,
        105,
        99,
    ] || c == seq![112u8, 105, 99, 116, 117, 114, 101, 115] || c == seq![115u8, 111, 102, 116, 119, 97, 114, 101]
        || c == seq![116u8, 118]
}

/// A category in lower case once trimmed, if it is known.
pub open spec fn spec_category(c: Seq<u8>) -> Option<Seq<u8>> {
    let l = lower_bytes(trim_bytes(c));
    if known_category(l) {
        Some(l)
    } else {
        None
    }
}

fn eq_lit(a: &[u8], lit: &[u8]) -> (r: bool)
    ensures
        r == (a@ == lit@),
{
    bytes_equal(a, lit)
}

/// Checks a search category (see `spec_category`).
pub fn normalize_category(category: &str) -> (r: Result<String, String>)
    ensures
        match spec_category(encode_utf8(category@)) {
            Some(c) => r matches Ok(s) && encode_utf8(s@) == c,
            None => r matches Err(e) && e@ == "invalid search category"@,
        },
{
    let t = trimmed(str_bytes(category));
    let l = lower_vec(str_bytes(t.as_str()));
    let a: [u8; 3] = [97, 108, 108];
    let b: [u8; 5] = [97, 110, 105, 109, 101];
    let c: [u8; 5] = [98, 111, 111, 107, 115];
    let d: [u8; 5] = [103, 97, 109, 101, 115];
    let e: [u8; 6] = [109, 111, 118, 105, 101, 115];
    let f: [u8; 5] = [109, 117, 115, 105, 99];
    let g: [u8; 8] = [112, 105, 99, 116, 117, 114, 101, 115];
    let h: [u8; 8] = [115, 111, 102, 116, 119, 97, 114, 101];
    let i: [u8; 2] = [116, 118];
    assert(a@ =~= seq![97u8, 108, 108]);
    assert(b@ =~= seq![97u8, 110, 105, 109, 101]);
    assert(c@ =~= seq![98u8, 111, 111, 107, 115]);
    assert(d@ =~= seq![103u8, 97, 109, 101, 115]);
    assert(e@ =~= seq![109u8, 111, 118, 105, 101, 115]);
    assert(f@ =~= seq![109u8, 117, 115, 105, 99]);
    assert(g@ =~= seq![112u8, 105, 99, 116, 117, 114, 101, 115]);
    assert(h@ =~= seq![115u8, 111, 102, 116, 119, 97, 114, 101]);
    assert(i@ =~= seq![116u8, 118]);
    let ls = l.as_slice();
    if eq_lit(ls, a.as_slice()) || eq_lit(ls, b.as_slice()) || eq_lit(ls, c.as_slice()) || eq_lit(ls, d.as_slice())
        || eq_lit(ls, e.as_slice()) || eq_lit(ls, f.as_slice()) || eq_lit(ls, g.as_slice()) || eq_lit(
        ls,
        h.as_slice(),
    ) || eq_lit(ls, i.as_slice()) {
        proof {
            assert forall|k: int| 0 <= k < l@.len() implies #[trigger] l@[k] < 128 by {}
            lemma_ascii_valid(l@);
        }
        return Ok(string_of(ls));
    }
    Err("invalid search category".to_string())
}

pub open spec fn strings_bytes(v: Seq<String>) -> Seq<Seq<u8>> {
    v.map_values(|s: String| encode_utf8(s@))
}

/// A plugin as (module, healthy).
pub open spec fn plugin_keys(p: Seq<SearchPlugin>) -> Seq<(Seq<u8>, bool)> {
    p.map_values(|x: SearchPlugin| (encode_utf8(x.module@), x.healthy))
}

/// The modules of the first `k` healthy plugins, in order.
pub open spec fn healthy_modules(p: Seq<(Seq<u8>, bool)>, k: nat) -> Seq<Seq<u8>>
    decreases p.len(),
{
    if p.len() == 0 {
        Seq::empty()
    } else {
        let prev = healthy_modules(p.drop_last(), k);
        if p.last().1 && prev.len() < k {
            prev.push(p.last().0)
        } else {
            prev
        }
    }
}

/// The first plugin with module `m`.
pub open spec fn find_plugin(p: Seq<(Seq<u8>, bool)>, m: Seq<u8>, i: int) -> Option<int>
    decreases p.len() - i,
{
    if i < 0 || i >= p.len() {
        None
    } else if p[i].0 == m {
        Some(i)
    } else {
        find_plugin(p, m, i + 1)
    }
}

/// Adding the requested plugins in order: each must be a valid name of a
/// known, healthy plugin; repeats are added once.
pub open spec fn select_requested(p: Seq<(Seq<u8>, bool)>, req: Seq<Seq<u8>>) -> Result<Seq<Seq<u8>>, Seq<u8>>
    decreases req.len(),
{
    if req.len() == 0 {
        Ok(Seq::empty())
    } else {
        match select_requested(p, req.drop_last()) {
            Err(e) => Err(e),
            Ok(sel) => match spec_sanitize(req.last()) {
                Err(e) => Err(encode_utf8(e)),
                Ok(m) => match find_plugin(p, m, 0) {
                    None => Err(seq![117u8, 110, 107, 110, 111, 119, 110, 32, 115, 101, 97, 114, 99, 104, 32, 112, 108, 117, 103, 105, 110, 58, 32] + m),
                    Some(j) => if !p[j].1 {
                        Err(seq![115u8, 101, 97, 114, 99, 104, 32, 112, 108, 117, 103, 105, 110, 32, 105, 115, 32, 110, 111, 116, 32, 114, 101, 97, 100, 121, 58, 32] + m)
                    } else if sel.contains(m) {
                        Ok(sel)
                    } else {
                        Ok(sel.push(m))
                    },
                },
            },
        }
    }
}

/// The plugins a search uses: with nothing requested, the first
/// `MAX_SELECTED_PLUGINS` healthy ones; else the requested ones (see
/// `select_requested`), at most `MAX_SELECTED_PLUGINS` of them.
pub open spec fn spec_select(p: Seq<(Seq<u8>, bool)>, req: Seq<Seq<u8>>) -> Result<Seq<Seq<u8>>, Seq<u8>> {
    if req.len() == 0 {
        Ok(healthy_modules(p, MAX_SELECTED_PLUGINS as nat))
    } else if req.len() > MAX_SELECTED_PLUGINS {
        Err(seq![116u8, 111, 111, 32, 109, 97, 110, 121, 32, 115, 101, 97, 114, 99, 104, 32, 112, 108, 117, 103, 105, 110, 115, 32, 115, 101, 108, 101, 99, 116, 101, 100, 32, 40, 109, 97, 120, 105, 109, 117, 109, 32, 49, 54, 41])
    } else {
        select_requested(p, req)
    }
}

fn message_with(prefix: &[u8], tail: &String) -> (r: String)
    requires
        forall|i: int| 0 <= i < prefix@.len() ==> #[trigger] prefix@[i] < 128,
    ensures
        encode_utf8(r@) == prefix@ + encode_utf8(tail@),
{
    let mut v: Vec<u8> = bytes_to_vec(prefix);
    push_all(&mut v, str_bytes(tail.as_str()));
    proof {
        lemma_ascii_valid(prefix@);
        encode_utf8_valid_utf8(tail@);
        valid_utf8_concat(prefix@, encode_utf8(tail@));
    }
    string_of(v.as_slice())
}

fn contains_module(v: &Vec<String>, m: &String) -> (r: bool)
    ensures
        r == strings_bytes(v@).contains(encode_utf8(m@)),
{
    let mut i: usize = 0;
    while i < v.len()
        invariant
            i <= v@.len(),
            forall|j: int| 0 <= j < i ==> encode_utf8((#[trigger] v@[j])@) != encode_utf8(m@),
        decreases v@.len() - i,
    {
        if bytes_equal(str_bytes(v[i].as_str()), str_bytes(m.as_str())) {
            assert(strings_bytes(v@)[i as int] == encode_utf8(m@));
            return true;
        }
        i = i + 1;
    }
    proof {
        if strings_bytes(v@).contains(encode_utf8(m@)) {
            let j = choose|j: int| 0 <= j < strings_bytes(v@).len() && strings_bytes(v@)[j] == encode_utf8(m@);
            assert(encode_utf8(v@[j]@) == encode_utf8(m@));
        }
    }
    false
}

fn find_module(plugins: &[SearchPlugin], module: &String) -> (r: Option<usize>)
    ensures
        match find_plugin(plugin_keys(plugins@), encode_utf8(module@), 0) {
            Some(j) => r matches Some(x) && x as int == j && x < plugins@.len(),
            None => r is None,
        },
{
    let ghost pk = plugin_keys(plugins@);
    let mut j: usize = 0;
    while j < plugins.len()
        invariant
            j <= plugins@.len(),
            pk == plugin_keys(plugins@),
            find_plugin(pk, encode_utf8(module@), 0) == find_plugin(pk, encode_utf8(module@), j as int),
        decreases plugins@.len() - j,
    {
        if bytes_equal(str_bytes(plugins[j].module.as_str()), str_bytes(module.as_str())) {
            return Some(j);
        }
        j = j + 1;
    }
    None
}

/// Chooses the plugins for a search (see `spec_select`).
pub fn resolve_selected_engines(plugins: &[SearchPlugin], requested: &[String]) -> (r: Result<Vec<String>, String>)
    ensures
        match spec_select(plugin_keys(plugins@), strings_bytes(requested@)) {
            Ok(sel) => r matches Ok(v) && strings_bytes(v@) == sel,
            Err(e) => r matches Err(s) && encode_utf8(s@) == e,
        },
{
    let ghost pk = plugin_keys(plugins@);
    let mut selected: Vec<String> = Vec::new();
    if requested.len() == 0 {
        let mut i: usize = 0;
        while i < plugins.len()
            invariant
                i <= plugins@.len(),
                pk == plugin_keys(plugins@),
                strings_bytes(selected@) == healthy_modules(pk.subrange(0, i as int), MAX_SELECTED_PLUGINS as nat),
            decreases plugins@.len() - i,
        {
            assert(pk.subrange(0, i + 1).drop_last() =~= pk.subrange(0, i as int));
            let ghost before = selected@;
            if plugins[i].healthy && selected.len() < MAX_SELECTED_PLUGINS {
                selected.push(plugins[i].module.clone());
                assert(strings_bytes(selected@) =~= strings_bytes(before).push(encode_utf8(plugins@[i as int].module@)));
            }
            i = i + 1;
        }
        assert(pk.subrange(0, i as int) =~= pk);
        return Ok(selected);
    }
    if requested.len() > MAX_SELECTED_PLUGINS {
        let m: [u8; 45] = [116, 111, 111, 32, 109, 97, 110, 121, 32, 115, 101, 97, 114, 99, 104, 32, 112, 108, 117, 103, 105, 110, 115, 32, 115, 101, 108, 101, 99, 116, 101, 100, 32, 40, 109, 97, 120, 105, 109, 117, 109, 32, 49, 54, 41];
        proof {
            assert forall|k: int| 0 <= k < m@.len() implies #[trigger] m@[k] < 128 by {}
            lemma_ascii_valid(m@);
        }
        assert(m@ =~= seq![116u8, 111, 111, 32, 109, 97, 110, 121, 32, 115, 101, 97, 114, 99, 104, 32, 112, 108, 117, 103, 105, 110, 115, 32, 115, 101, 108, 101, 99, 116, 101, 100, 32, 40, 109, 97, 120, 105, 109, 117, 109, 32, 49, 54, 41]);
        return Err(string_of(m.as_slice()));
    }
    let ghost rq = strings_bytes(requested@);
    let unknown: [u8; 23] = [117, 110, 107, 110, 111, 119, 110, 32, 115, 101, 97, 114, 99, 104, 32, 112, 108, 117, 103, 105, 110, 58, 32];
    let not_ready: [u8; 28] = [115, 101, 97, 114, 99, 104, 32, 112, 108, 117, 103, 105, 110, 32, 105, 115, 32, 110, 111, 116, 32, 114, 101, 97, 100, 121, 58, 32];
    assert(unknown@ =~= seq![117u8, 110, 107, 110, 111, 119, 110, 32, 115, 101, 97, 114, 99, 104, 32, 112, 108, 117, 103, 105, 110, 58, 32]);
    assert(not_ready@ =~= seq![115u8, 101, 97, 114, 99, 104, 32, 112, 108, 117, 103, 105, 110, 32, 105, 115, 32, 110, 111, 116, 32, 114, 101, 97, 100, 121, 58, 32]);
    let mut k: usize = 0;
    assert(strings_bytes(selected@) =~= Seq::<Seq<u8>>::empty());
    while k < requested.len()
        invariant
            k <= requested@.len(),
            0 < requested@.len() <= MAX_SELECTED_PLUGINS,
            pk == plugin_keys(plugins@),
            rq == strings_bytes(requested@),
            unknown@ == seq![117u8, 110, 107, 110, 111, 119, 110, 32, 115, 101, 97, 114, 99, 104, 32, 112, 108, 117, 103, 105, 110, 58, 32],
            not_ready@ == seq![115u8, 101, 97, 114, 99, 104, 32, 112, 108, 117, 103, 105, 110, 32, 105, 115, 32, 110, 111, 116, 32, 114, 101, 97, 100, 121, 58, 32],
            select_requested(pk, rq.subrange(0, k as int)) == Ok::<Seq<Seq<u8>>, Seq<u8>>(strings_bytes(selected@)),
        decreases requested@.len() - k,
    {
        assert(rq.subrange(0, k + 1).drop_last() =~= rq.subrange(0, k as int));
        assert(rq.subrange(0, k + 1).last() == encode_utf8(requested@[k as int]@));
        let module = match sanitize_module_name(requested[k].as_str()) {
            Ok(m) => m,
            Err(e) => {
                proof {
                    lemma_select_prefix_err(pk, rq, k as int + 1);
                    encode_utf8_decode_utf8(e@);
                }
                return Err(e);
            },
        };
        let j = match find_module(plugins, &module) {
            Some(j) => j,
            None => {
                proof {
                    lemma_select_prefix_err(pk, rq, k as int + 1);
                }
                return Err(message_with(unknown.as_slice(), &module));
            },
        };
        assert(find_plugin(pk, encode_utf8(module@), 0) == Some(j as int));
        if !plugins[j].healthy {
            proof {
                lemma_select_prefix_err(pk, rq, k as int + 1);
            }
            return Err(message_with(not_ready.as_slice(), &module));
        }
        if !contains_module(&selected, &module) {
            let ghost before = selected@;
            selected.push(module);
            assert(strings_bytes(selected@) =~= strings_bytes(before).push(encode_utf8(selected@.last()@)));
        }
        k = k + 1;
    }
    assert(rq.subrange(0, k as int) =~= rq);
    Ok(selected)
}

proof fn lemma_select_prefix_err(p: Seq<(Seq<u8>, bool)>, req: Seq<Seq<u8>>, k: int)
    requires
        0 <= k <= req.len(),
        select_requested(p, req.subrange(0, k)) is Err,
    ensures
        select_requested(p, req) == select_requested(p, req.subrange(0, k)),
    decreases req.len() - k,
{
    if k < req.len() {
        assert(req.subrange(0, k + 1).drop_last() =~= req.subrange(0, k));
        lemma_select_prefix_err(p, req, k + 1);
    } else {
        assert(req.subrange(0, k) =~= req);
    }
}

} // verus!

verus! {

// ---------------------------------------------------------------------
// Results
// ---------------------------------------------------------------------

/// `http://`
pub open spec fn http_scheme() -> Seq<u8> {
    seq![104u8, 116, 116, 112, 58, 47, 47]
}

/// A trimmed value that starts with `http://` or `https://`.
pub open spec fn spec_is_http_url(v: Seq<u8>) -> bool {
    let t = trim_bytes(v);
    starts_with(t, http_scheme()) || starts_with(t, https_prefix())
}

/// A result link: a magnet link (`magnet:?`, exact case) or an HTTP URL.
pub open spec fn spec_is_result_link(v: Seq<u8>) -> bool {
    starts_with(trim_bytes(v), crate::rss::magnet_prefix()) || spec_is_http_url(v)
}

/// Whether a value is an HTTP URL (see `spec_is_http_url`).
pub fn is_http_url(value: &str) -> (r: bool)
    ensures
        r == spec_is_http_url(encode_utf8(value@)),
{
    let t = trimmed(str_bytes(value));
    let b = str_bytes(t.as_str());
    let http: [u8; 7] = [104, 116, 116, 112, 58, 47, 47];
    let https: [u8; 8] = [104, 116, 116, 112, 115, 58, 47, 47];
    assert(http@ =~= http_scheme());
    assert(https@ =~= https_prefix());
    starts_with_bytes(b, http.as_slice()) || starts_with_bytes(b, https.as_slice())
}

/// Whether a value is a result link (see `spec_is_result_link`).
pub fn is_supported_result_link(value: &str) -> (r: bool)
    ensures
        r == spec_is_result_link(encode_utf8(value@)),
{
    let t = trimmed(str_bytes(value));
    let magnet: [u8; 8] = [109, 97, 103, 110, 101, 116, 58, 63];
    assert(magnet@ =~= crate::rss::magnet_prefix());
    starts_with_bytes(str_bytes(t.as_str()), magnet.as_slice()) || is_http_url(value)
}

/// `s` without trailing `/`.
pub open spec fn strip_slashes(s: Seq<u8>) -> Seq<u8>
    decreases s.len(),
{
    if s.len() > 0 && s.last() == 47 {
        strip_slashes(s.drop_last())
    } else {
        s
    }
}

/// A site URL as plugins are matched by it: trimmed, without trailing
/// `/`, in ASCII lower case.
pub open spec fn site_key(s: Seq<u8>) -> Seq<u8> {
    lower_bytes(strip_slashes(trim_bytes(s)))
}

/// The first plugin from `i` on whose site key is not empty and equals
/// `key`.
pub open spec fn plugin_by_site(p: Seq<SearchPlugin>, key: Seq<u8>, i: int) -> Option<int>
    decreases p.len() - i,
{
    if i < 0 || i >= p.len() {
        None
    } else {
        let k = site_key(encode_utf8(p[i].site_url@));
        if k.len() > 0 && k == key {
            Some(i)
        } else {
            plugin_by_site(p, key, i + 1)
        }
    }
}

fn site_key_exec(s: &str) -> (r: Vec<u8>)
    ensures
        r@ == site_key(encode_utf8(s@)),
{
    let t = trimmed(str_bytes(s));
    let b = str_bytes(t.as_str());
    let mut end = b.len();
    assert(b@.subrange(0, end as int) =~= b@);
    while end > 0 && b[end - 1] == 47
        invariant
            end <= b@.len(),
            strip_slashes(b@) == strip_slashes(b@.subrange(0, end as int)),
        decreases end,
    {
        assert(b@.subrange(0, end as int).drop_last() =~= b@.subrange(0, end - 1));
        end = end - 1;
    }
    assert(b@.subrange(0, end as int) == strip_slashes(b@.subrange(0, end as int)));
    lower_vec(&b[0..end])
}

/// The module of the plugin serving a site (see `plugin_by_site`).
pub fn plugin_name_by_site_url(site_url: &str, plugins: &[SearchPlugin]) -> (r: Option<String>)
    ensures
        match plugin_by_site(plugins@, site_key(encode_utf8(site_url@)), 0) {
            Some(j) => r matches Some(s) && s@ == plugins@[j].module@,
            None => r is None,
        },
{
    let key = site_key_exec(site_url);
    let mut i: usize = 0;
    while i < plugins.len()
        invariant
            i <= plugins@.len(),
            key@ == site_key(encode_utf8(site_url@)),
            plugin_by_site(plugins@, key@, 0) == plugin_by_site(plugins@, key@, i as int),
        decreases plugins@.len() - i,
    {
        let k = site_key_exec(plugins[i].site_url.as_str());
        if k.len() > 0 && bytes_equal(k.as_slice(), key.as_slice()) {
            return Some(plugins[i].module.clone());
        }
        i = i + 1;
    }
    None
}

/// `str::parse::<i64>`: an optional sign, then one or more decimal digits
/// whose value fits.
pub open spec fn spec_parse_i64(s: Seq<u8>) -> Option<i64> {
    let neg = s.len() > 0 && s[0] == 45;
    let digits = if s.len() > 0 && (s[0] == 43 || s[0] == 45) {
        s.drop_first()
    } else {
        s
    };
    if digits.len() == 0 || !crate::text::all_decimal(digits) {
        None
    } else {
        let v = crate::text::decimal_value(digits) as int;
        let signed = if neg {
            -v
        } else {
            v
        };
        if signed < i64::MIN || signed > i64::MAX {
            None
        } else {
            Some(signed as i64)
        }
    }
}

/// A number of a result line: the trimmed text as an `i64`, or -1.
pub open spec fn spec_number(s: Seq<u8>) -> i64 {
    match spec_parse_i64(trim_bytes(s)) {
        Some(n) => n,
        None => -1i64,
    }
}

proof fn lemma_decimal_prefix_le(s: Seq<u8>, k: int)
    requires
        0 <= k <= s.len(),
        crate::text::all_decimal(s),
    ensures
        crate::text::decimal_value(s.subrange(0, k)) <= crate::text::decimal_value(s),
    decreases s.len() - k,
{
    if k < s.len() {
        lemma_decimal_prefix_le(s, k + 1);
        assert(s.subrange(0, k + 1).drop_last() =~= s.subrange(0, k));
    } else {
        assert(s.subrange(0, k) =~= s);
    }
}

fn parse_i64_bytes(s: &[u8]) -> (r: Option<i64>)
    ensures
        r == spec_parse_i64(s@),
{
    let neg = s.len() > 0 && s[0] == 45;
    let start: usize = if s.len() > 0 && (s[0] == 43 || s[0] == 45) {
        1
    } else {
        0
    };
    let ghost digits = if s@.len() > 0 && (s@[0] == 43 || s@[0] == 45) {
        s@.drop_first()
    } else {
        s@
    };
    assert(digits =~= s@.subrange(start as int, s@.len() as int));
    if start == s.len() {
        return None;
    }
    let limit: u64 = if neg {
        9223372036854775808
    } else {
        9223372036854775807
    };
    let mut value: u64 = 0;
    let mut i: usize = start;
    while i < s.len()
        invariant
            start <= i <= s@.len(),
            digits == s@.subrange(start as int, s@.len() as int),
            digits == (if s@.len() > 0 && (s@[0] == 43 || s@[0] == 45) {
                s@.drop_first()
            } else {
                s@
            }),
            neg == (s@.len() > 0 && s@[0] == 45),
            digits.len() > 0,
            crate::text::all_decimal(s@.subrange(start as int, i as int)),
            value == crate::text::decimal_value(s@.subrange(start as int, i as int)),
            value <= limit,
            limit == (if neg { 9223372036854775808u64 } else { 9223372036854775807u64 }),
        decreases s@.len() - i,
    {
        let c = s[i];
        if c < 48 || c > 57 {
            assert(!crate::text::is_ascii_digit(digits[i - start]));
            return None;
        }
        assert(s@.subrange(start as int, i + 1).drop_last() =~= s@.subrange(start as int, i as int));
        let next = match value.checked_mul(10) {
            Some(v) => v.checked_add((c - 48) as u64),
            None => None,
        };
        match next {
            Some(v) => {
                if v > limit {
                    proof {
                        if crate::text::all_decimal(digits) {
                            lemma_decimal_prefix_le(digits, i + 1 - start);
                            assert(digits.subrange(0, i + 1 - start) =~= s@.subrange(start as int, i + 1));
                        }
                    }
                    return None;
                }
                value = v;
            },
            None => {
                proof {
                    if crate::text::all_decimal(digits) {
                        lemma_decimal_prefix_le(digits, i + 1 - start);
                        assert(digits.subrange(0, i + 1 - start) =~= s@.subrange(start as int, i + 1));
                    }
                }
                return None;
            },
        }
        i = i + 1;
    }
    assert(s@.subrange(start as int, i as int) =~= digits);
    if neg {
        if value == 9223372036854775808 {
            Some(i64::MIN)
        } else {
            Some(-(value as i64))
        }
    } else {
        Some(value as i64)
    }
}

/// A number of a result line (see `spec_number`).
pub fn parse_i64(value: &str) -> (r: i64)
    ensures
        r == spec_number(encode_utf8(value@)),
{
    let t = trimmed(str_bytes(value));
    match parse_i64_bytes(str_bytes(t.as_str())) {
        Some(n) => n,
        None => -1i64,
    }
}

} // verus!

verus! {

/// The text of `bytes` with each invalid UTF-8 sequence replaced by
/// U+FFFD, as `String::from_utf8_lossy` makes it.
pub uninterp spec fn utf8_lossy(b: Seq<u8>) -> Seq<char>;

/// `String::from_utf8_lossy`: valid UTF-8 is kept as it is; the rest is
/// named only.
#[verifier::external_body]
fn lossy_string(bytes: &[u8]) -> (r: String)
    ensures
        r@ == utf8_lossy(bytes@),
        valid_utf8(bytes@) ==> r@ == decode_utf8(bytes@),
{
    String::from_utf8_lossy(bytes).into_owned()
}

/// At most `n` parts of `s` from `pos` on, split at `|`; the last part
/// keeps the rest.
pub open spec fn splitn_from(s: Seq<u8>, pos: int, n: nat) -> Seq<Seq<u8>>
    decreases n,
{
    if n <= 1 || pos < 0 || pos > s.len() {
        seq![s.subrange(pos, s.len() as int)]
    } else {
        match find_window(s, seq![124u8], pos) {
            None => seq![s.subrange(pos, s.len() as int)],
            Some(i) => seq![s.subrange(pos, i)] + splitn_from(s, i + 1, (n - 1) as nat),
        }
    }
}

/// A result as bytes: plugin, site URL, link, name, size, seeds, leechers,
/// description link, publication date.
pub type ResultModel = (Seq<u8>, Seq<u8>, Seq<u8>, Seq<u8>, i64, i64, i64, Seq<u8>, i64);

/// One output line of a plugin: `link|name|size|seeds|leech|site[|desc[|date]]`
/// (the eighth field keeps any further `|`), trimmed; blank lines, lines
/// with fewer than six fields and unsupported links give nothing. The
/// plugin is the one serving the site; the description link is kept only
/// when it is an HTTP URL; a missing date is -1.
pub open spec fn result_line(line: Seq<u8>, plugins: Seq<SearchPlugin>) -> Option<ResultModel> {
    let t = trim_bytes(line);
    let parts = splitn_from(t, 0, 8);
    if t.len() == 0 || parts.len() < 6 {
        None
    } else {
        let link = trim_bytes(parts[0]);
        if !spec_is_result_link(link) {
            None
        } else {
            let site = trim_bytes(parts[5]);
            let plugin = match plugin_by_site(plugins, site_key(site), 0) {
                Some(j) => encode_utf8(plugins[j].module@),
                None => Seq::empty(),
            };
            let desc = if parts.len() > 6 && spec_is_http_url(trim_bytes(parts[6])) {
                trim_bytes(parts[6])
            } else {
                Seq::empty()
            };
            let date = if parts.len() > 7 {
                spec_number(parts[7])
            } else {
                -1i64
            };
            Some(
                (
                    plugin,
                    site,
                    link,
                    trim_bytes(parts[1]),
                    spec_number(parts[2]),
                    spec_number(parts[3]),
                    spec_number(parts[4]),
                    desc,
                    date,
                ),
            )
        }
    }
}

/// The results of a plugin's output lines, the first
/// `MAX_RESULTS_PER_PLUGIN` lines read (a trailing empty line gives
/// nothing).
pub open spec fn spec_results(lines: Seq<Seq<u8>>, plugins: Seq<SearchPlugin>) -> Seq<ResultModel>
    decreases lines.len(),
{
    if lines.len() == 0 {
        Seq::empty()
    } else {
        let prev = spec_results(lines.drop_last(), plugins);
        if lines.len() > MAX_RESULTS_PER_PLUGIN {
            prev
        } else {
            match result_line(lines.last(), plugins) {
                Some(r) => prev.push(r),
                None => prev,
            }
        }
    }
}

pub open spec fn result_model(r: SearchResult) -> ResultModel {
    (
        encode_utf8(r.plugin@),
        encode_utf8(r.site_url@),
        encode_utf8(r.link@),
        encode_utf8(r.name@),
        r.size_bytes,
        r.seeds,
        r.leech,
        encode_utf8(r.desc_link@),
        r.pub_date,
    )
}

fn splitn_ranges(s: &[u8], n: usize) -> (r: Vec<(usize, usize)>)
    requires
        n >= 1,
    ensures
        r@.len() == splitn_from(s@, 0, n as nat).len(),
        forall|k: int|
            0 <= k < r@.len() ==> (#[trigger] r@[k]).0 <= r@[k].1 <= s@.len() && s@.subrange(
                r@[k].0 as int,
                r@[k].1 as int,
            ) == splitn_from(s@, 0, n as nat)[k] && (r@[k].0 == 0 || s@[r@[k].0 - 1] == 124) && (r@[k].1
                == s@.len() || s@[r@[k].1 as int] == 124),
{
    let bar: [u8; 1] = [124];
    assert(bar@ =~= seq![124u8]);
    let ghost all = splitn_from(s@, 0, n as nat);
    let mut out: Vec<(usize, usize)> = Vec::new();
    let mut pos: usize = 0;
    let mut left: usize = n;
    loop
        invariant
            pos <= s@.len(),
            1 <= left <= n,
            pos == 0 || s@[pos - 1] == 124,
            bar@ == seq![124u8],
            all == splitn_from(s@, 0, n as nat),
            out@.len() + splitn_from(s@, pos as int, left as nat).len() == all.len(),
            forall|k: int| 0 <= k < out@.len() ==> all[k] == s@.subrange((#[trigger] out@[k]).0 as int, out@[k].1 as int),
            forall|k: int|
                0 <= k < splitn_from(s@, pos as int, left as nat).len() ==> all[out@.len() + k]
                    == #[trigger] splitn_from(s@, pos as int, left as nat)[k],
            forall|k: int|
                0 <= k < out@.len() ==> (#[trigger] out@[k]).0 <= out@[k].1 <= s@.len() && (out@[k].0 == 0
                    || s@[out@[k].0 - 1] == 124) && (out@[k].1 == s@.len() || s@[out@[k].1 as int] == 124),
        decreases left,
    {
        let ghost rest = splitn_from(s@, pos as int, left as nat);
        if left == 1 {
            out.push((pos, s.len()));
            proof {
                assert(rest == seq![s@.subrange(pos as int, s@.len() as int)]);
                assert(all[out@.len() - 1] == rest[0]);
            }
            return out;
        }
        proof {
            lemma_find_window(s@, seq![124u8], pos as int);
        }
        match find_bytes(s, bar.as_slice(), pos) {
            Some(k) => {
                assert(k < s.len());
                assert(s@.subrange(k as int, k + 1)[0] == s@[k as int]);
                out.push((pos, k));
                proof {
                    assert(rest == seq![s@.subrange(pos as int, k as int)] + splitn_from(s@, k + 1, (left - 1) as nat));
                    assert(all[out@.len() - 1] == rest[0]);
                    assert forall|j: int| 0 <= j < splitn_from(s@, k + 1, (left - 1) as nat).len() implies all[out@.len() + j]
                        == #[trigger] splitn_from(s@, k + 1, (left - 1) as nat)[j] by {
                        assert(rest[j + 1] == splitn_from(s@, k + 1, (left - 1) as nat)[j]);
                    }
                }
                pos = k + 1;
                left = left - 1;
            },
            None => {
                out.push((pos, s.len()));
                proof {
                    assert(rest == seq![s@.subrange(pos as int, s@.len() as int)]);
                    assert(all[out@.len() - 1] == rest[0]);
                }
                return out;
            },
        }
    }
}

fn field(b: &[u8], r: (usize, usize)) -> (s: String)
    requires
        valid_utf8(b@),
        r.0 <= r.1 <= b@.len(),
        r.0 == 0 || b@[r.0 - 1] < 128,
        r.1 == b@.len() || b@[r.1 as int] < 128,
    ensures
        encode_utf8(s@) == trim_bytes(b@.subrange(r.0 as int, r.1 as int)),
{
    proof {
        crate::text::lemma_ascii_delimited(b@, r.0 as int, r.1 as int);
    }
    trimmed(&b[r.0..r.1])
}

fn result_line_exec(line: &[u8], plugins: &[SearchPlugin]) -> (r: Option<SearchResult>)
    requires
        valid_utf8(line@),
    ensures
        match result_line(line@, plugins@) {
            Some(m) => r matches Some(x) && result_model(x) == m,
            None => r is None,
        },
{
    let t = trimmed(line);
    let tb = str_bytes(t.as_str());
    let parts = splitn_ranges(tb, 8);
    if tb.len() == 0 || parts.len() < 6 {
        return None;
    }
    proof {
        encode_utf8_valid_utf8(t@);
    }
    let link = field(tb, parts[0]);
    proof {
        encode_utf8_decode_utf8(link@);
    }
    if !is_supported_result_link(link.as_str()) {
        return None;
    }
    let site = field(tb, parts[5]);
    proof {
        encode_utf8_decode_utf8(site@);
    }
    let plugin = match plugin_name_by_site_url(site.as_str(), plugins) {
        Some(p) => p,
        None => String::new(),
    };
    let desc = if parts.len() > 6 {
        let d = field(tb, parts[6]);
        proof {
            encode_utf8_decode_utf8(d@);
        }
        if is_http_url(d.as_str()) {
            d
        } else {
            String::new()
        }
    } else {
        String::new()
    };
    let name = field(tb, parts[1]);
    let size = parse_field_number(tb, parts[2]);
    let seeds = parse_field_number(tb, parts[3]);
    let leech = parse_field_number(tb, parts[4]);
    let date = if parts.len() > 7 {
        parse_field_number(tb, parts[7])
    } else {
        -1
    };
    Some(SearchResult { result_id: 0, plugin, site_url: site, link, name, size_bytes: size, seeds, leech, desc_link: desc, pub_date: date })
}

fn parse_field_number(b: &[u8], r: (usize, usize)) -> (n: i64)
    requires
        valid_utf8(b@),
        r.0 <= r.1 <= b@.len(),
        r.0 == 0 || b@[r.0 - 1] < 128,
        r.1 == b@.len() || b@[r.1 as int] < 128,
    ensures
        n == spec_number(b@.subrange(r.0 as int, r.1 as int)),
{
    let f = field(b, r);
    match parse_i64_bytes(str_bytes(f.as_str())) {
        Some(n) => n,
        None => -1,
    }
}

/// Reads a plugin's output (see `spec_results`), its bytes taken as
/// `String::from_utf8_lossy` reads them.
pub fn parse_search_results(stdout: &[u8], plugins: &[SearchPlugin]) -> (r: Vec<SearchResult>)
    ensures
        r@.map_values(|x: SearchResult| result_model(x)) == spec_results(
            split_from(encode_utf8(utf8_lossy(stdout@)), seq![10u8], 0),
            plugins@,
        ),
{
    let text = lossy_string(stdout);
    let b = str_bytes(text.as_str());
    proof {
        encode_utf8_valid_utf8(text@);
    }
    let lines = crate::rss::split_ranges(b, 10);
    let ghost ls = split_from(b@, seq![10u8], 0);
    let mut out: Vec<SearchResult> = Vec::new();
    let mut k: usize = 0;
    assert(out@.map_values(|x: SearchResult| result_model(x)) =~= spec_results(ls.subrange(0, 0), plugins@));
    while k < lines.len() && k < MAX_RESULTS_PER_PLUGIN
        invariant
            k <= lines@.len(),
            k <= MAX_RESULTS_PER_PLUGIN,
            lines@.len() == ls.len(),
            ls == split_from(b@, seq![10u8], 0),
            valid_utf8(b@),
            forall|x: int|
                0 <= x < lines@.len() ==> (#[trigger] lines@[x]).0 <= lines@[x].1 <= b@.len() && b@.subrange(
                    lines@[x].0 as int,
                    lines@[x].1 as int,
                ) == ls[x] && (lines@[x].0 == 0 || b@[lines@[x].0 - 1] == 10) && (lines@[x].1 == b@.len()
                    || b@[lines@[x].1 as int] == 10),
            out@.map_values(|x: SearchResult| result_model(x)) == spec_results(ls.subrange(0, k as int), plugins@),
        decreases lines@.len() - k,
    {
        let (a, e) = lines[k];
        proof {
            crate::text::lemma_ascii_delimited(b@, a as int, e as int);
        }
        match result_line_exec(&b[a..e], plugins) {
            Some(x) => {
                out.push(x);
            },
            None => {},
        }
        proof {
            assert(ls.subrange(0, k + 1).drop_last() =~= ls.subrange(0, k as int));
            assert(ls.subrange(0, k + 1).last() == ls[k as int]);
            assert(out@.map_values(|x: SearchResult| result_model(x)) =~= spec_results(ls.subrange(0, k + 1), plugins@));
        }
        k = k + 1;
    }
    proof {
        lemma_results_cap(ls, plugins@, k as int);
    }
    out
}

proof fn lemma_results_cap(ls: Seq<Seq<u8>>, plugins: Seq<SearchPlugin>, k: int)
    requires
        0 <= k <= ls.len(),
        k == ls.len() || k == MAX_RESULTS_PER_PLUGIN,
    ensures
        spec_results(ls, plugins) == spec_results(ls.subrange(0, k), plugins),
    decreases ls.len() - k,
{
    if k < ls.len() {
        lemma_results_cap(ls.drop_last(), plugins, k);
        assert(ls.drop_last().subrange(0, k) =~= ls.subrange(0, k));
    } else {
        assert(ls.subrange(0, k) =~= ls);
    }
}


// ---------------------------------------------------------------------
// JSON text
// ---------------------------------------------------------------------

/// `char::is_control`: the characters of the general category `Cc`.
pub open spec fn is_control_char(c: char) -> bool {
    (c as u32) < 0x20 || (0x7f <= (c as u32) && (c as u32) <= 0x9f)
}

/// The lower-case hexadecimal digit of value `d`.
pub open spec fn hex_char(d: int) -> char {
    "0123456789abcdef"@[d]
}

/// How one character stands inside a JSON string.
pub open spec fn escape_char(c: char) -> Seq<char> {
    if c == '\\' {
        "\\\\"@
    } else if c == '"' {
        "\\\""@
    } else if c == '\n' {
        "\\n"@
    } else if c == '\r' {
        "\\r"@
    } else if c == '\t' {
        "\\t"@
    } else if is_control_char(c) {
        "\\u00"@ + seq![hex_char((c as u32) as int / 16), hex_char((c as u32) as int % 16)]
    } else {
        seq![c]
    }
}

/// Characters that stand for themselves inside a JSON string.
pub open spec fn plain_char(c: char) -> bool {
    c != '\\' && c != '"' && !is_control_char(c)
}

/// `s` written as the inside of a JSON string.
pub open spec fn spec_escape_json(s: Seq<char>) -> Seq<char>
    decreases s.len(),
{
    if s.len() == 0 {
        Seq::empty()
    } else {
        spec_escape_json(s.drop_last()) + escape_char(s.last())
    }
}

fn hex_digit_str(d: u32) -> (r: &'static str)
    requires
        d < 16,
    ensures
        r@ == seq![hex_char(d as int)],
{
    let digits = "0123456789abcdef";
    proof {
        reveal_strlit("0123456789abcdef");
    }
    digits.substring_char(d as usize, d as usize + 1)
}

/// Appends `text` written as the inside of a JSON string.
pub fn push_json_escaped(out: &mut String, text: &str)
    ensures
        final(out)@ == old(out)@ + spec_escape_json(text@),
{
    let cs = crate::text::chars_vec(text);
    let ghost start = out@;
    let n = cs.len();
    let mut run: usize = 0;
    let mut i: usize = 0;
    while i < n
        invariant
            n == cs@.len(),
            cs@ == text@,
            run <= i <= n,
            out@ == start + spec_escape_json(text@.subrange(0, run as int)),
            spec_escape_json(text@.subrange(0, i as int)) == spec_escape_json(text@.subrange(0, run as int))
                + text@.subrange(run as int, i as int),
        decreases n - i,
    {
        let c = cs[i];
        let ghost sub = text@.subrange(0, i as int + 1);
        assert(sub.drop_last() =~= text@.subrange(0, i as int));
        assert(sub.last() == c);
        if plain_char_exec(c) {
            assert(escape_char(c) == seq![c]);
            assert(text@.subrange(run as int, i as int + 1) =~= text@.subrange(run as int, i as int).push(c));
            i = i + 1;
        } else {
            let part = text.substring_char(run, i);
            out.append(part);
            assert(out@ == start + spec_escape_json(text@.subrange(0, i as int)));
            let u = c as u32;
            if c == '\\' || c == '"' || c == '\n' || c == '\r' || c == '\t' {
                let e = escape_of_simple(c);
                out.append(e);
            } else {
                proof {
                    reveal_strlit("\\u00");
                }
                out.append("\\u00");
                out.append(hex_digit_str(u / 16));
                out.append(hex_digit_str(u % 16));
                assert(out@ =~= start + spec_escape_json(text@.subrange(0, i as int)) + escape_char(c));
            }
            i = i + 1;
            run = i;
            assert(text@.subrange(run as int, i as int) =~= Seq::<char>::empty());
        }
    }
    let rest = text.substring_char(run, n);
    out.append(rest);
    assert(text@.subrange(0, n as int) =~= text@);
}

fn plain_char_exec(c: char) -> (r: bool)
    ensures
        r == plain_char(c),
{
    let u = c as u32;
    c != '\\' && c != '"' && !(u < 0x20 || (0x7f <= u && u <= 0x9f))
}

fn escape_of_simple(c: char) -> (r: &'static str)
    requires
        c == '\\' || c == '"' || c == '\n' || c == '\r' || c == '\t',
    ensures
        r@ == escape_char(c),
{
    if c == '\\' {
        "\\\\"
    } else if c == '"' {
        "\\\""
    } else if c == '\n' {
        "\\n"
    } else if c == '\r' {
        "\\r"
    } else {
        "\\t"
    }
}

/// `text` written as the inside of a JSON string: backslash, quote and
/// the control characters escaped.
pub fn escape_json(text: &str) -> (r: String)
    ensures
        r@ == spec_escape_json(text@),
{
    let mut out = String::new();
    push_json_escaped(&mut out, text);
    out
}


// ---------------------------------------------------------------------
// Catalog JSON
// ---------------------------------------------------------------------

/// The first installed plugin at `i` or later whose module is `m`.
pub open spec fn find_installed(p: Seq<SearchPlugin>, m: Seq<char>, i: int) -> Option<int>
    decreases p.len() - i,
{
    if i < 0 || i >= p.len() {
        None
    } else if p[i].module@ == m {
        Some(i)
    } else {
        find_installed(p, m, i + 1)
    }
}

/// `true` or `false`.
pub open spec fn json_bool(b: bool) -> Seq<char> {
    if b {
        "true"@
    } else {
        "false"@
    }
}

/// The JSON object of one catalog entry, with what is installed under its
/// module.
pub open spec fn catalog_entry_json(e: SearchCatalogEntry, p: Seq<SearchPlugin>) -> Seq<char> {
    let inst = find_installed(p, e.module@, 0);
    let version = if inst is Some { p[inst->0].version@ } else { Seq::empty() };
    let display = if inst is Some { p[inst->0].display_name@ } else { Seq::empty() };
    let healthy = inst is Some && p[inst->0].healthy;
    "{\"module\":\""@ + spec_escape_json(e.module@) + "\",\"name\":\""@ + spec_escape_json(e.name@)
        + "\",\"author\":\""@ + spec_escape_json(e.author@) + "\",\"version\":\""@ + spec_escape_json(
        e.version@,
    ) + "\",\"updated\":\""@ + spec_escape_json(e.updated@) + "\",\"download_url\":\""@ + spec_escape_json(
        e.download_url@,
    ) + "\",\"comment\":\""@ + spec_escape_json(e.comment@) + "\",\"private_site\":"@ + json_bool(
        e.private_site,
    ) + ",\"installed\":"@ + json_bool(inst is Some) + ",\"installed_version\":\""@ + spec_escape_json(version)
        + "\",\"installed_name\":\""@ + spec_escape_json(display) + "\",\"installed_healthy\":"@ + json_bool(
        healthy,
    ) + "}"@
}

/// The objects of the entries that are not for private sites, in order.
pub open spec fn catalog_items(es: Seq<SearchCatalogEntry>, p: Seq<SearchPlugin>) -> Seq<Seq<char>>
    decreases es.len(),
{
    if es.len() == 0 {
        Seq::empty()
    } else if es.last().private_site {
        catalog_items(es.drop_last(), p)
    } else {
        catalog_items(es.drop_last(), p).push(catalog_entry_json(es.last(), p))
    }
}

/// The items joined by commas.
pub open spec fn join_commas(items: Seq<Seq<char>>) -> Seq<char>
    decreases items.len(),
{
    if items.len() == 0 {
        Seq::empty()
    } else if items.len() == 1 {
        items[0]
    } else {
        join_commas(items.drop_last()) + ","@ + items.last()
    }
}

fn json_bool_str(b: bool) -> (r: &'static str)
    ensures
        r@ == json_bool(b),
{
    if b {
        "true"
    } else {
        "false"
    }
}

fn find_installed_exec(plugins: &[SearchPlugin], module: &String) -> (r: Option<usize>)
    ensures
        r matches Some(i) ==> find_installed(plugins@, module@, 0) == Some(i as int) && i < plugins@.len(),
        r is None ==> find_installed(plugins@, module@, 0) is None,
{
    let mut i: usize = 0;
    while i < plugins.len()
        invariant
            i <= plugins@.len(),
            find_installed(plugins@, module@, 0) == find_installed(plugins@, module@, i as int),
        decreases plugins@.len() - i,
    {
        if plugins[i].module == *module {
            return Some(i);
        }
        i = i + 1;
    }
    None
}

proof fn lemma_concat_assoc(a: Seq<char>, b: Seq<char>, c: Seq<char>)
    ensures
        (a + b) + c == a + (b + c),
{
    assert((a + b) + c =~= a + (b + c));
}

fn push_catalog_entry(out: &mut String, e: &SearchCatalogEntry, plugins: &[SearchPlugin])
    ensures
        final(out)@ == old(out)@ + catalog_entry_json(*e, plugins@),
{
    let ghost start = out@;
    let inst = find_installed_exec(plugins, &e.module);
    let empty = String::new();
    let (version, display, healthy) = match inst {
        Some(i) => (&plugins[i].version, &plugins[i].display_name, plugins[i].healthy),
        None => (&empty, &empty, false),
    };
    let ghost mut g: Seq<char> = Seq::empty();
    out.append("{\"module\":\"");
    proof { g = "{\"module\":\""@; }
    push_json_escaped(out, e.module.as_str());
    proof { lemma_concat_assoc(start, g, spec_escape_json(e.module@)); g = g + spec_escape_json(e.module@); }
    out.append("\",\"name\":\"");
    proof { lemma_concat_assoc(start, g, "\",\"name\":\""@); g = g + "\",\"name\":\""@; }
    push_json_escaped(out, e.name.as_str());
    proof { lemma_concat_assoc(start, g, spec_escape_json(e.name@)); g = g + spec_escape_json(e.name@); }
    out.append("\",\"author\":\"");
    proof { lemma_concat_assoc(start, g, "\",\"author\":\""@); g = g + "\",\"author\":\""@; }
    push_json_escaped(out, e.author.as_str());
    proof { lemma_concat_assoc(start, g, spec_escape_json(e.author@)); g = g + spec_escape_json(e.author@); }
    out.append("\",\"version\":\"");
    proof { lemma_concat_assoc(start, g, "\",\"version\":\""@); g = g + "\",\"version\":\""@; }
    push_json_escaped(out, e.version.as_str());
    proof { lemma_concat_assoc(start, g, spec_escape_json(e.version@)); g = g + spec_escape_json(e.version@); }
    out.append("\",\"updated\":\"");
    proof { lemma_concat_assoc(start, g, "\",\"updated\":\""@); g = g + "\",\"updated\":\""@; }
    push_json_escaped(out, e.updated.as_str());
    proof { lemma_concat_assoc(start, g, spec_escape_json(e.updated@)); g = g + spec_escape_json(e.updated@); }
    out.append("\",\"download_url\":\"");
    proof { lemma_concat_assoc(start, g, "\",\"download_url\":\""@); g = g + "\",\"download_url\":\""@; }
    push_json_escaped(out, e.download_url.as_str());
    proof { lemma_concat_assoc(start, g, spec_escape_json(e.download_url@)); g = g + spec_escape_json(e.download_url@); }
    out.append("\",\"comment\":\"");
    proof { lemma_concat_assoc(start, g, "\",\"comment\":\""@); g = g + "\",\"comment\":\""@; }
    push_json_escaped(out, e.comment.as_str());
    proof { lemma_concat_assoc(start, g, spec_escape_json(e.comment@)); g = g + spec_escape_json(e.comment@); }
    out.append("\",\"private_site\":");
    proof { lemma_concat_assoc(start, g, "\",\"private_site\":"@); g = g + "\",\"private_site\":"@; }
    out.append(json_bool_str(e.private_site));
    proof { lemma_concat_assoc(start, g, json_bool(e.private_site)); g = g + json_bool(e.private_site); }
    out.append(",\"installed\":");
    proof { lemma_concat_assoc(start, g, ",\"installed\":"@); g = g + ",\"installed\":"@; }
    out.append(json_bool_str(inst.is_some()));
    proof { lemma_concat_assoc(start, g, json_bool(inst is Some)); g = g + json_bool(inst is Some); }
    out.append(",\"installed_version\":\"");
    proof { lemma_concat_assoc(start, g, ",\"installed_version\":\""@); g = g + ",\"installed_version\":\""@; }
    push_json_escaped(out, version.as_str());
    proof { lemma_concat_assoc(start, g, spec_escape_json(version@)); g = g + spec_escape_json(version@); }
    out.append("\",\"installed_name\":\"");
    proof { lemma_concat_assoc(start, g, "\",\"installed_name\":\""@); g = g + "\",\"installed_name\":\""@; }
    push_json_escaped(out, display.as_str());
    proof { lemma_concat_assoc(start, g, spec_escape_json(display@)); g = g + spec_escape_json(display@); }
    out.append("\",\"installed_healthy\":");
    proof { lemma_concat_assoc(start, g, "\",\"installed_healthy\":"@); g = g + "\",\"installed_healthy\":"@; }
    out.append(json_bool_str(healthy));
    proof { lemma_concat_assoc(start, g, json_bool(healthy)); g = g + json_bool(healthy); }
    out.append("}");
    proof { lemma_concat_assoc(start, g, "}"@); g = g + "}"@; }
    assert(g == catalog_entry_json(*e, plugins@));
}

/// Appends the catalog entries that are not for private sites as JSON
/// objects joined by commas, each with the version, name and health of
/// the installed plugin of its module, if there is one.
pub fn append_catalog_entries_json(out: &mut String, entries: &[SearchCatalogEntry], installed_plugins: &[SearchPlugin])
    ensures
        final(out)@ == old(out)@ + join_commas(catalog_items(entries@, installed_plugins@)),
{
    let ghost start = out@;
    let mut first = true;
    let mut k: usize = 0;
    while k < entries.len()
        invariant
            k <= entries@.len(),
            first <==> catalog_items(entries@.subrange(0, k as int), installed_plugins@).len() == 0,
            out@ == start + join_commas(catalog_items(entries@.subrange(0, k as int), installed_plugins@)),
        decreases entries@.len() - k,
    {
        let e = &entries[k];
        let ghost before = catalog_items(entries@.subrange(0, k as int), installed_plugins@);
        let ghost sub = entries@.subrange(0, k as int + 1);
        assert(sub.drop_last() =~= entries@.subrange(0, k as int));
        assert(sub.last() == *e);
        if !e.private_site {
            if !first {
                out.append(",");
            }
            first = false;
            push_catalog_entry(out, e, installed_plugins);
            let ghost after = before.push(catalog_entry_json(*e, installed_plugins@));
            assert(after.drop_last() =~= before);
            assert(out@ =~= start + join_commas(after));
        }
        k = k + 1;
    }
    assert(entries@.subrange(0, k as int) =~= entries@);
}


// ---------------------------------------------------------------------
// Status JSON
// ---------------------------------------------------------------------

/// What the search service knows: its plugins, the last search and its
/// results, and the community catalog.
#[derive(Clone, Debug)]
pub struct SearchState {
    pub plugins: Vec<SearchPlugin>,
    pub results: Vec<SearchResult>,
    pub catalog: Vec<SearchCatalogEntry>,
    pub busy: bool,
    pub generation: u64,
    pub next_result_id: u64,
    pub python_available: bool,
    pub plugin_error: String,
    pub last_error: String,
    pub last_query: String,
    pub last_category: String,
    pub last_started_at: u64,
    pub last_finished_at: u64,
    pub catalog_error: String,
    pub catalog_fetched_at: u64,
}

/// The decimal digits of `n`.
pub open spec fn decimal_chars(n: nat) -> Seq<char>
    decreases n,
{
    if n < 10 {
        seq![hex_char(n as int)]
    } else {
        decimal_chars(n / 10) + seq![hex_char((n % 10) as int)]
    }
}

/// The decimal text of a signed number.
pub open spec fn signed_decimal_chars(n: int) -> Seq<char> {
    if n < 0 {
        "-"@ + decimal_chars((-n) as nat)
    } else {
        decimal_chars(n as nat)
    }
}

/// Appends the decimal digits of `n`.
pub fn push_decimal_u64(out: &mut String, n: u64)
    ensures
        final(out)@ == old(out)@ + decimal_chars(n as nat),
    decreases n,
{
    if n >= 10 {
        push_decimal_u64(out, n / 10);
        let ghost mid = out@;
        out.append(hex_digit_str((n % 10) as u32));
        proof {
            lemma_concat_assoc(old(out)@, decimal_chars((n / 10) as nat), seq![hex_char((n % 10) as int)]);
        }
    } else {
        out.append(hex_digit_str(n as u32));
    }
}

/// Appends the decimal text of a signed number.
pub fn push_decimal_i64(out: &mut String, n: i64)
    ensures
        final(out)@ == old(out)@ + signed_decimal_chars(n as int),
{
    if n < 0 {
        proof {
            reveal_strlit("-");
        }
        out.append("-");
        let m: u64 = (-(n as i128)) as u64;
        push_decimal_u64(out, m);
        proof {
            lemma_concat_assoc(old(out)@, "-"@, decimal_chars(m as nat));
        }
    } else {
        push_decimal_u64(out, n as u64);
    }
}

/// The categories of a plugin as quoted JSON strings.
pub open spec fn category_items(cs: Seq<String>) -> Seq<Seq<char>> {
    cs.map_values(|c: String| "\""@ + spec_escape_json(c@) + "\""@)
}

fn push_categories(out: &mut String, cs: &Vec<String>)
    ensures
        final(out)@ == old(out)@ + join_commas(category_items(cs@)),
{
    let ghost start = out@;
    let mut k: usize = 0;
    while k < cs.len()
        invariant
            k <= cs@.len(),
            out@ == start + join_commas(category_items(cs@.subrange(0, k as int))),
        decreases cs@.len() - k,
    {
        let ghost before = category_items(cs@.subrange(0, k as int));
        let ghost after = category_items(cs@.subrange(0, k as int + 1));
        assert(after.drop_last() =~= before);
        if k > 0 {
            out.append(",");
        }
        out.append("\"");
        push_json_escaped(out, cs[k].as_str());
        out.append("\"");
        assert(out@ =~= start + join_commas(after));
        k = k + 1;
    }
    assert(cs@.subrange(0, k as int) =~= cs@);
}

/// The JSON object of an installed plugin.
pub open spec fn plugin_json(p: SearchPlugin) -> Seq<char> {
    "{\"module\":\""@ + spec_escape_json(p.module@) + "\",\"display_name\":\""@ + spec_escape_json(p.display_name@) + "\",\"site_url\":\""@ + spec_escape_json(p.site_url@) + "\",\"version\":\""@ + spec_escape_json(p.version@) + "\",\"healthy\":"@ + json_bool(p.healthy) + ",\"broken_reason\":\""@ + spec_escape_json(p.broken_reason@) + "\",\"categories\":["@ + join_commas(category_items(p.categories@)) + "]}"@
}

/// The JSON object of a search result.
pub open spec fn result_json(r: SearchResult) -> Seq<char> {
    "{\"index\":"@ + decimal_chars(r.result_id as nat) + ",\"plugin\":\""@ + spec_escape_json(r.plugin@) + "\",\"site_url\":\""@ + spec_escape_json(r.site_url@) + "\",\"link\":\""@ + spec_escape_json(r.link@) + "\",\"name\":\""@ + spec_escape_json(r.name@) + "\",\"size\":"@ + signed_decimal_chars(r.size_bytes as int) + ",\"seeds\":"@ + signed_decimal_chars(r.seeds as int) + ",\"leech\":"@ + signed_decimal_chars(r.leech as int) + ",\"desc_link\":\""@ + spec_escape_json(r.desc_link@) + "\",\"pub_date\":"@ + signed_decimal_chars(r.pub_date as int) + "}"@
}

fn push_plugin_json(out: &mut String, p: &SearchPlugin)
    ensures
        final(out)@ == old(out)@ + plugin_json(*p),
{
    let ghost start = out@;
    let ghost mut g: Seq<char> = Seq::empty();
    out.append("{\"module\":\"");
    proof { g = "{\"module\":\""@; }
    push_json_escaped(out, p.module.as_str());
    proof { lemma_concat_assoc(start, g, spec_escape_json(p.module@)); g = g + spec_escape_json(p.module@); }
    out.append("\",\"display_name\":\"");
    proof { lemma_concat_assoc(start, g, "\",\"display_name\":\""@); g = g + "\",\"display_name\":\""@; }
    push_json_escaped(out, p.display_name.as_str());
    proof { lemma_concat_assoc(start, g, spec_escape_json(p.display_name@)); g = g + spec_escape_json(p.display_name@); }
    out.append("\",\"site_url\":\"");
    proof { lemma_concat_assoc(start, g, "\",\"site_url\":\""@); g = g + "\",\"site_url\":\""@; }
    push_json_escaped(out, p.site_url.as_str());
    proof { lemma_concat_assoc(start, g, spec_escape_json(p.site_url@)); g = g + spec_escape_json(p.site_url@); }
    out.append("\",\"version\":\"");
    proof { lemma_concat_assoc(start, g, "\",\"version\":\""@); g = g + "\",\"version\":\""@; }
    push_json_escaped(out, p.version.as_str());
    proof { lemma_concat_assoc(start, g, spec_escape_json(p.version@)); g = g + spec_escape_json(p.version@); }
    out.append("\",\"healthy\":");
    proof { lemma_concat_assoc(start, g, "\",\"healthy\":"@); g = g + "\",\"healthy\":"@; }
    out.append(json_bool_str(p.healthy));
    proof { lemma_concat_assoc(start, g, json_bool(p.healthy)); g = g + json_bool(p.healthy); }
    out.append(",\"broken_reason\":\"");
    proof { lemma_concat_assoc(start, g, ",\"broken_reason\":\""@); g = g + ",\"broken_reason\":\""@; }
    push_json_escaped(out, p.broken_reason.as_str());
    proof { lemma_concat_assoc(start, g, spec_escape_json(p.broken_reason@)); g = g + spec_escape_json(p.broken_reason@); }
    out.append("\",\"categories\":[");
    proof { lemma_concat_assoc(start, g, "\",\"categories\":["@); g = g + "\",\"categories\":["@; }
    push_categories(out, &p.categories);
    proof { lemma_concat_assoc(start, g, join_commas(category_items(p.categories@))); g = g + join_commas(category_items(p.categories@)); }
    out.append("]}");
    proof { lemma_concat_assoc(start, g, "]}"@); g = g + "]}"@; }
    assert(g == plugin_json(*p));
}

fn push_result_json(out: &mut String, r: &SearchResult)
    ensures
        final(out)@ == old(out)@ + result_json(*r),
{
    let ghost start = out@;
    let ghost mut g: Seq<char> = Seq::empty();
    out.append("{\"index\":");
    proof { g = "{\"index\":"@; }
    push_decimal_u64(out, r.result_id);
    proof { lemma_concat_assoc(start, g, decimal_chars(r.result_id as nat)); g = g + decimal_chars(r.result_id as nat); }
    out.append(",\"plugin\":\"");
    proof { lemma_concat_assoc(start, g, ",\"plugin\":\""@); g = g + ",\"plugin\":\""@; }
    push_json_escaped(out, r.plugin.as_str());
    proof { lemma_concat_assoc(start, g, spec_escape_json(r.plugin@)); g = g + spec_escape_json(r.plugin@); }
    out.append("\",\"site_url\":\"");
    proof { lemma_concat_assoc(start, g, "\",\"site_url\":\""@); g = g + "\",\"site_url\":\""@; }
    push_json_escaped(out, r.site_url.as_str());
    proof { lemma_concat_assoc(start, g, spec_escape_json(r.site_url@)); g = g + spec_escape_json(r.site_url@); }
    out.append("\",\"link\":\"");
    proof { lemma_concat_assoc(start, g, "\",\"link\":\""@); g = g + "\",\"link\":\""@; }
    push_json_escaped(out, r.link.as_str());
    proof { lemma_concat_assoc(start, g, spec_escape_json(r.link@)); g = g + spec_escape_json(r.link@); }
    out.append("\",\"name\":\"");
    proof { lemma_concat_assoc(start, g, "\",\"name\":\""@); g = g + "\",\"name\":\""@; }
    push_json_escaped(out, r.name.as_str());
    proof { lemma_concat_assoc(start, g, spec_escape_json(r.name@)); g = g + spec_escape_json(r.name@); }
    out.append("\",\"size\":");
    proof { lemma_concat_assoc(start, g, "\",\"size\":"@); g = g + "\",\"size\":"@; }
    push_decimal_i64(out, r.size_bytes);
    proof { lemma_concat_assoc(start, g, signed_decimal_chars(r.size_bytes as int)); g = g + signed_decimal_chars(r.size_bytes as int); }
    out.append(",\"seeds\":");
    proof { lemma_concat_assoc(start, g, ",\"seeds\":"@); g = g + ",\"seeds\":"@; }
    push_decimal_i64(out, r.seeds);
    proof { lemma_concat_assoc(start, g, signed_decimal_chars(r.seeds as int)); g = g + signed_decimal_chars(r.seeds as int); }
    out.append(",\"leech\":");
    proof { lemma_concat_assoc(start, g, ",\"leech\":"@); g = g + ",\"leech\":"@; }
    push_decimal_i64(out, r.leech);
    proof { lemma_concat_assoc(start, g, signed_decimal_chars(r.leech as int)); g = g + signed_decimal_chars(r.leech as int); }
    out.append(",\"desc_link\":\"");
    proof { lemma_concat_assoc(start, g, ",\"desc_link\":\""@); g = g + ",\"desc_link\":\""@; }
    push_json_escaped(out, r.desc_link.as_str());
    proof { lemma_concat_assoc(start, g, spec_escape_json(r.desc_link@)); g = g + spec_escape_json(r.desc_link@); }
    out.append("\",\"pub_date\":");
    proof { lemma_concat_assoc(start, g, "\",\"pub_date\":"@); g = g + "\",\"pub_date\":"@; }
    push_decimal_i64(out, r.pub_date);
    proof { lemma_concat_assoc(start, g, signed_decimal_chars(r.pub_date as int)); g = g + signed_decimal_chars(r.pub_date as int); }
    out.append("}");
    proof { lemma_concat_assoc(start, g, "}"@); g = g + "}"@; }
    assert(g == result_json(*r));
}

fn push_plugins(out: &mut String, ps: &[SearchPlugin])
    ensures
        final(out)@ == old(out)@ + join_commas(ps@.map_values(|p: SearchPlugin| plugin_json(p))),
{
    let ghost start = out@;
    let mut k: usize = 0;
    while k < ps.len()
        invariant
            k <= ps@.len(),
            out@ == start + join_commas(ps@.subrange(0, k as int).map_values(|p: SearchPlugin| plugin_json(p))),
        decreases ps@.len() - k,
    {
        let ghost before = ps@.subrange(0, k as int).map_values(|p: SearchPlugin| plugin_json(p));
        let ghost after = ps@.subrange(0, k as int + 1).map_values(|p: SearchPlugin| plugin_json(p));
        assert(after.drop_last() =~= before);
        if k > 0 {
            out.append(",");
        }
        push_plugin_json(out, &ps[k]);
        assert(out@ =~= start + join_commas(after));
        k = k + 1;
    }
    assert(ps@.subrange(0, k as int) =~= ps@);
}

fn push_results(out: &mut String, rs: &[SearchResult])
    ensures
        final(out)@ == old(out)@ + join_commas(rs@.map_values(|r: SearchResult| result_json(r))),
{
    let ghost start = out@;
    let mut k: usize = 0;
    while k < rs.len()
        invariant
            k <= rs@.len(),
            out@ == start + join_commas(rs@.subrange(0, k as int).map_values(|r: SearchResult| result_json(r))),
        decreases rs@.len() - k,
    {
        let ghost before = rs@.subrange(0, k as int).map_values(|r: SearchResult| result_json(r));
        let ghost after = rs@.subrange(0, k as int + 1).map_values(|r: SearchResult| result_json(r));
        assert(after.drop_last() =~= before);
        if k > 0 {
            out.append(",");
        }
        push_result_json(out, &rs[k]);
        assert(out@ =~= start + join_commas(after));
        k = k + 1;
    }
    assert(rs@.subrange(0, k as int) =~= rs@);
}

/// The status document of an initialized search service.
pub open spec fn status_document(state: SearchState) -> Seq<char> {
    "{\"busy\":"@ + json_bool(state.busy) + ",\"python_available\":"@ + json_bool(state.python_available) + ",\"plugin_error\":\""@ + spec_escape_json(state.plugin_error@) + "\",\"last_error\":\""@ + spec_escape_json(state.last_error@) + "\",\"query\":\""@ + spec_escape_json(state.last_query@) + "\",\"category\":\""@ + spec_escape_json(state.last_category@) + "\",\"last_started_at\":"@ + decimal_chars(state.last_started_at as nat) + ",\"last_finished_at\":"@ + decimal_chars(state.last_finished_at as nat) + ",\"plugins\":["@ + join_commas(state.plugins@.map_values(|p: SearchPlugin| plugin_json(p))) + "],\"results\":["@ + join_commas(state.results@.map_values(|r: SearchResult| result_json(r))) + "]}"@
}

/// The status document of a search service that was never initialized.
pub open spec fn uninitialized_status() -> Seq<char> {
    "{\"busy\":false,\"python_available\":false,\"plugin_error\":\"search not initialized\",\"last_error\":\"\",\"query\":\"\",\"category\":\"all\",\"last_started_at\":0,\"last_finished_at\":0,\"plugins\":[],\"results\":[]}"@
}

fn push_status_json(out: &mut String, state: &SearchState)
    ensures
        final(out)@ == old(out)@ + status_document(*state),
{
    let ghost start = out@;
    let ghost mut g: Seq<char> = Seq::empty();
    out.append("{\"busy\":");
    proof { g = "{\"busy\":"@; }
    out.append(json_bool_str(state.busy));
    proof { lemma_concat_assoc(start, g, json_bool(state.busy)); g = g + json_bool(state.busy); }
    out.append(",\"python_available\":");
    proof { lemma_concat_assoc(start, g, ",\"python_available\":"@); g = g + ",\"python_available\":"@; }
    out.append(json_bool_str(state.python_available));
    proof { lemma_concat_assoc(start, g, json_bool(state.python_available)); g = g + json_bool(state.python_available); }
    out.append(",\"plugin_error\":\"");
    proof { lemma_concat_assoc(start, g, ",\"plugin_error\":\""@); g = g + ",\"plugin_error\":\""@; }
    push_json_escaped(out, state.plugin_error.as_str());
    proof { lemma_concat_assoc(start, g, spec_escape_json(state.plugin_error@)); g = g + spec_escape_json(state.plugin_error@); }
    out.append("\",\"last_error\":\"");
    proof { lemma_concat_assoc(start, g, "\",\"last_error\":\""@); g = g + "\",\"last_error\":\""@; }
    push_json_escaped(out, state.last_error.as_str());
    proof { lemma_concat_assoc(start, g, spec_escape_json(state.last_error@)); g = g + spec_escape_json(state.last_error@); }
    out.append("\",\"query\":\"");
    proof { lemma_concat_assoc(start, g, "\",\"query\":\""@); g = g + "\",\"query\":\""@; }
    push_json_escaped(out, state.last_query.as_str());
    proof { lemma_concat_assoc(start, g, spec_escape_json(state.last_query@)); g = g + spec_escape_json(state.last_query@); }
    out.append("\",\"category\":\"");
    proof { lemma_concat_assoc(start, g, "\",\"category\":\""@); g = g + "\",\"category\":\""@; }
    push_json_escaped(out, state.last_category.as_str());
    proof { lemma_concat_assoc(start, g, spec_escape_json(state.last_category@)); g = g + spec_escape_json(state.last_category@); }
    out.append("\",\"last_started_at\":");
    proof { lemma_concat_assoc(start, g, "\",\"last_started_at\":"@); g = g + "\",\"last_started_at\":"@; }
    push_decimal_u64(out, state.last_started_at);
    proof { lemma_concat_assoc(start, g, decimal_chars(state.last_started_at as nat)); g = g + decimal_chars(state.last_started_at as nat); }
    out.append(",\"last_finished_at\":");
    proof { lemma_concat_assoc(start, g, ",\"last_finished_at\":"@); g = g + ",\"last_finished_at\":"@; }
    push_decimal_u64(out, state.last_finished_at);
    proof { lemma_concat_assoc(start, g, decimal_chars(state.last_finished_at as nat)); g = g + decimal_chars(state.last_finished_at as nat); }
    out.append(",\"plugins\":[");
    proof { lemma_concat_assoc(start, g, ",\"plugins\":["@); g = g + ",\"plugins\":["@; }
    push_plugins(out, state.plugins.as_slice());
    proof { lemma_concat_assoc(start, g, join_commas(state.plugins@.map_values(|p: SearchPlugin| plugin_json(p)))); g = g + join_commas(state.plugins@.map_values(|p: SearchPlugin| plugin_json(p))); }
    out.append("],\"results\":[");
    proof { lemma_concat_assoc(start, g, "],\"results\":["@); g = g + "],\"results\":["@; }
    push_results(out, state.results.as_slice());
    proof { lemma_concat_assoc(start, g, join_commas(state.results@.map_values(|r: SearchResult| result_json(r)))); g = g + join_commas(state.results@.map_values(|r: SearchResult| result_json(r))); }
    out.append("]}");
    proof { lemma_concat_assoc(start, g, "]}"@); g = g + "]}"@; }
    assert(g == status_document(*state));
}

/// The service's state as a JSON document: flags, messages, the last
/// query, its times, the plugins and the results, each text escaped.
pub fn status_json(state: Option<&SearchState>) -> (r: String)
    ensures
        match state {
            Some(st) => r@ == status_document(*st),
            None => r@ == uninitialized_status(),
        },
{
    match state {
        None => "{\"busy\":false,\"python_available\":false,\"plugin_error\":\"search not initialized\",\"last_error\":\"\",\"query\":\"\",\"category\":\"all\",\"last_started_at\":0,\"last_finished_at\":0,\"plugins\":[],\"results\":[]}".to_string(),
        Some(st) => {
            let mut out = String::new();
            push_status_json(&mut out, st);
            out
        },
    }
}

/// The catalog document: the last fetch error, where the catalog comes
/// from, when it was fetched, and its public entries.
pub open spec fn catalog_document(state: SearchState, source_url: Seq<char>) -> Seq<char> {
    "{\"error\":\""@ + spec_escape_json(state.catalog_error@) + "\",\"source_url\":\""@ + spec_escape_json(source_url) + "\",\"fetched_at\":"@ + decimal_chars(state.catalog_fetched_at as nat) + ",\"entries\":["@ + join_commas(catalog_items(state.catalog@, state.plugins@)) + "]}"@
}

/// The catalog document of a search service that was never initialized.
pub open spec fn uninitialized_catalog() -> Seq<char> {
    "{\"entries\":[],\"error\":\"search not initialized\"}"@
}

fn push_catalog_json(out: &mut String, state: &SearchState, source_url: &str)
    ensures
        final(out)@ == old(out)@ + catalog_document(*state, source_url@),
{
    let ghost start = out@;
    let ghost mut g: Seq<char> = Seq::empty();
    out.append("{\"error\":\"");
    proof { g = "{\"error\":\""@; }
    push_json_escaped(out, state.catalog_error.as_str());
    proof { lemma_concat_assoc(start, g, spec_escape_json(state.catalog_error@)); g = g + spec_escape_json(state.catalog_error@); }
    out.append("\",\"source_url\":\"");
    proof { lemma_concat_assoc(start, g, "\",\"source_url\":\""@); g = g + "\",\"source_url\":\""@; }
    push_json_escaped(out, source_url);
    proof { lemma_concat_assoc(start, g, spec_escape_json(source_url@)); g = g + spec_escape_json(source_url@); }
    out.append("\",\"fetched_at\":");
    proof { lemma_concat_assoc(start, g, "\",\"fetched_at\":"@); g = g + "\",\"fetched_at\":"@; }
    push_decimal_u64(out, state.catalog_fetched_at);
    proof { lemma_concat_assoc(start, g, decimal_chars(state.catalog_fetched_at as nat)); g = g + decimal_chars(state.catalog_fetched_at as nat); }
    out.append(",\"entries\":[");
    proof { lemma_concat_assoc(start, g, ",\"entries\":["@); g = g + ",\"entries\":["@; }
    append_catalog_entries_json(out, state.catalog.as_slice(), state.plugins.as_slice());
    proof { lemma_concat_assoc(start, g, join_commas(catalog_items(state.catalog@, state.plugins@))); g = g + join_commas(catalog_items(state.catalog@, state.plugins@)); }
    out.append("]}");
    proof { lemma_concat_assoc(start, g, "]}"@); g = g + "]}"@; }
    assert(g == catalog_document(*state, source_url@));
}

/// The catalog as a JSON document (see `catalog_document`).
pub fn catalog_json(state: Option<&SearchState>, source_url: &str) -> (r: String)
    ensures
        match state {
            Some(st) => r@ == catalog_document(*st, source_url@),
            None => r@ == uninitialized_catalog(),
        },
{
    match state {
        None => "{\"entries\":[],\"error\":\"search not initialized\"}".to_string(),
        Some(st) => {
            let mut out = String::new();
            push_catalog_json(&mut out, st, source_url);
            out
        },
    }
}

} // verus!

verus! {

// ---------------------------------------------------------------------
// Starting a search and merging results
// ---------------------------------------------------------------------

/// Longest search query, in bytes.
pub const MAX_SEARCH_QUERY_BYTES: usize = 1024;

/// The query a search runs with: trimmed, not empty and at most
/// `MAX_SEARCH_QUERY_BYTES` bytes of UTF-8.
pub open spec fn spec_query(query: Seq<char>) -> Result<Seq<char>, Seq<char>> {
    let q = crate::text::trim_chars(query);
    if q.len() == 0 {
        Err("search query is empty"@)
    } else if encode_utf8(q).len() > MAX_SEARCH_QUERY_BYTES {
        Err("search query is too long (maximum 1024 bytes)"@)
    } else {
        Ok(q)
    }
}

/// Checks and trims a search query (see `spec_query`).
pub fn normalize_query(query: &str) -> (r: Result<String, String>)
    ensures
        match spec_query(query@) {
            Ok(q) => r matches Ok(s) && s@ == q,
            Err(m) => r matches Err(e) && e@ == m,
        },
{
    let q = crate::text::str_trim(query);
    let b = str_bytes(q);
    proof {
        if q@.len() == 0 {
            assert(encode_utf8(q@).len() == 0);
        }
        if encode_utf8(q@).len() == 0 {
            lemma_encode_empty(q@);
        }
    }
    if b.len() == 0 {
        return Err("search query is empty".to_string());
    }
    if b.len() > MAX_SEARCH_QUERY_BYTES {
        return Err("search query is too long (maximum 1024 bytes)".to_string());
    }
    Ok(q.to_string())
}

proof fn lemma_encode_empty(s: Seq<char>)
    ensures
        (encode_utf8(s).len() == 0) == (s.len() == 0),
{
    if s.len() > 0 {
        encode_utf8_first_scalar(s);
    } else {
        assert(encode_utf8(s) =~= Seq::<u8>::empty()) by {
            reveal_with_fuel(encode_utf8, 1);
        }
    }
}

/// The bytes a result's name is ordered by.
pub open spec fn name_key(r: SearchResult) -> Seq<u8> {
    encode_utf8(r.name@)
}

/// Whether `a` is listed before `b`: more seeds first, then by name.
pub open spec fn sorts_before(a: SearchResult, b: SearchResult) -> bool {
    a.seeds > b.seeds || (a.seeds == b.seeds && crate::bencode::lex_lt(name_key(a), name_key(b)))
}

/// Results in listing order.
pub open spec fn results_sorted(s: Seq<SearchResult>) -> bool {
    forall|i: int, j: int| 0 <= i < j < s.len() ==> !sorts_before(#[trigger] s[j], #[trigger] s[i])
}

/// Listing order is a total preorder: not-before is transitive.
pub proof fn lemma_not_before_transitive(a: SearchResult, b: SearchResult, c: SearchResult)
    requires
        !sorts_before(a, b),
        !sorts_before(b, c),
    ensures
        !sorts_before(a, c),
{
    crate::bencode::lemma_lex_trichotomy(name_key(a), name_key(b));
    crate::bencode::lemma_lex_trichotomy(name_key(b), name_key(c));
    crate::bencode::lemma_lex_trichotomy(name_key(a), name_key(c));
    if a.seeds == c.seeds && crate::bencode::lex_lt(name_key(a), name_key(c)) {
        assert(a.seeds == b.seeds);
        if crate::bencode::lex_lt(name_key(b), name_key(a)) {
            crate::bencode::lemma_lex_lt_transitive(name_key(b), name_key(a), name_key(c));
        } else {
            assert(name_key(b) == name_key(a));
        }
    }
}

proof fn lemma_before_asymmetric(a: SearchResult, b: SearchResult)
    requires
        sorts_before(a, b),
    ensures
        !sorts_before(b, a),
{
    crate::bencode::lemma_lex_trichotomy(name_key(a), name_key(b));
}

/// Whether `x` is listed before `y`, computed.
fn result_before(x: &SearchResult, y: &SearchResult) -> (r: bool)
    ensures
        r == sorts_before(*x, *y),
{
    if x.seeds != y.seeds {
        x.seeds > y.seeds
    } else {
        crate::bencode::bytes_lt(str_bytes(x.name.as_str()), str_bytes(y.name.as_str()))
    }
}

/// Where `x` goes in a listing, scanning back from position `j` past the
/// results it is listed before.
pub open spec fn insert_pos_from(t: Seq<SearchResult>, x: SearchResult, j: int) -> int
    decreases j,
{
    if j > 0 && j <= t.len() && sorts_before(x, t[j - 1]) {
        insert_pos_from(t, x, j - 1)
    } else {
        j
    }
}

/// `x` added to a listing after every result it is not listed before.
pub open spec fn listed_insert(t: Seq<SearchResult>, x: SearchResult) -> Seq<SearchResult> {
    t.insert(insert_pos_from(t, x, t.len() as int), x)
}

/// The results listed one after the other by `listed_insert`: a stable
/// sort, so results listed alike keep the order they came in.
pub open spec fn listed(s: Seq<SearchResult>) -> Seq<SearchResult>
    decreases s.len(),
{
    if s.len() == 0 {
        Seq::empty()
    } else {
        listed_insert(listed(s.drop_last()), s.last())
    }
}

/// Inserts `x` into a listing after every result it is not listed before.
fn insert_sorted(v: &mut Vec<SearchResult>, x: SearchResult)
    requires
        results_sorted(old(v)@),
    ensures
        final(v)@ == listed_insert(old(v)@, x),
        results_sorted(final(v)@),
        final(v)@.to_multiset() == old(v)@.to_multiset().insert(x),
{
    let mut j: usize = v.len();
    while j > 0 && result_before(&x, &v[j - 1])
        invariant
            j <= v@.len(),
            v@ == old(v)@,
            results_sorted(v@),
            insert_pos_from(v@, x, v@.len() as int) == insert_pos_from(v@, x, j as int),
            forall|k: int| j <= k < v@.len() ==> sorts_before(x, #[trigger] v@[k]),
        decreases j,
    {
        j = j - 1;
    }
    let ghost s = v@;
    proof {
        assert forall|k: int| 0 <= k < j implies !sorts_before(x, #[trigger] s[k]) by {
            if k < j - 1 {
                assert(!sorts_before(s[j - 1], s[k]));
                lemma_not_before_transitive(x, s[j - 1], s[k]);
            }
        }
    }
    v.insert(j, x);
    proof {
        broadcast use vstd::seq_lib::to_multiset_insert;
        let t = v@;
        assert(t == s.insert(j as int, x));
        s.insert_ensures(j as int, x);
        assert forall|a: int, b: int| 0 <= a < b < t.len() implies !sorts_before(#[trigger] t[b], #[trigger] t[a]) by {
            if a < j && b == j {
            } else if a == j {
                assert(t[b] == s[b - 1]);
                assert(sorts_before(x, s[b - 1]));
                lemma_before_asymmetric(x, s[b - 1]);
            } else if b < j {
                assert(t[a] == s[a] && t[b] == s[b]);
            } else if a < j {
                assert(t[a] == s[a] && t[b] == s[b - 1]);
            } else {
                assert(t[a] == s[a - 1] && t[b] == s[b - 1]);
            }
        }
    }
}

/// `incoming` as it is listed: its result id assigned, and its plugin
/// named after the plugin serving its site when it names none.
pub open spec fn tagged(incoming: SearchResult, listed: SearchResult, id: u64, plugins: Seq<SearchPlugin>) -> bool {
    &&& listed.result_id == id
    &&& listed.site_url == incoming.site_url
    &&& listed.link == incoming.link
    &&& listed.name == incoming.name
    &&& listed.size_bytes == incoming.size_bytes
    &&& listed.seeds == incoming.seeds
    &&& listed.leech == incoming.leech
    &&& listed.desc_link == incoming.desc_link
    &&& listed.pub_date == incoming.pub_date
    &&& if incoming.plugin@.len() == 0 {
        match plugin_by_site(plugins, site_key(encode_utf8(incoming.site_url@)), 0) {
            Some(k) => listed.plugin@ == plugins[k].module@,
            None => listed.plugin == incoming.plugin,
        }
    } else {
        listed.plugin == incoming.plugin
    }
}

/// Result ids count up from `next_id` and stop at `u64::MAX`.
pub open spec fn id_after(next_id: u64, k: int) -> u64 {
    if next_id + k > u64::MAX {
        u64::MAX
    } else {
        (next_id + k) as u64
    }
}

/// Adds a plugin's results to the listing: each gets the next result id
/// (counting up from `next_id`, saturating) and, when it names no plugin,
/// the plugin serving its site; the listing is then ordered by seeds, most
/// first, then by name. Gives the listing and the next result id.
pub fn merge_results(listing: Vec<SearchResult>, incoming: Vec<SearchResult>, next_id: u64, plugins: &[SearchPlugin]) -> (r: (Vec<SearchResult>, u64))
    ensures
        results_sorted(r.0@),
        r.1 == id_after(next_id, incoming@.len() as int),
        exists|p: Seq<SearchResult>|
            {
                &&& p.len() == incoming@.len()
                &&& forall|k: int| 0 <= k < p.len() ==> tagged(incoming@[k], #[trigger] p[k], id_after(next_id, k), plugins@)
                &&& r.0@ == listed(listing@ + p)
                &&& r.0@.to_multiset() == listing@.to_multiset().add(p.to_multiset())
            },
{
    broadcast use vstd::seq_lib::group_to_multiset_ensures;
    let mut out: Vec<SearchResult> = Vec::new();
    let ghost all = listing@;
    for x in it: listing.into_iter()
        invariant
            it.seq() == all,
            results_sorted(out@),
            out@ == listed(all.take(it.index() as int)),
            out@.to_multiset() == all.take(it.index() as int).to_multiset(),
    {
        let ghost before = all.take(it.index() as int);
        proof {
            assert(all.take(it.index() + 1) =~= before.push(x));
            assert(before.push(x).drop_last() =~= before);
            vstd::seq_lib::to_multiset_build(before, x);
        }
        insert_sorted(&mut out, x);
    }
    proof {
        assert(all.take(all.len() as int) =~= all);
        assert(all + Seq::<SearchResult>::empty() =~= all);
    }
    let mut id = next_id;
    let ghost inc = incoming@;
    let ghost mut p: Seq<SearchResult> = Seq::empty();
    for x in it: incoming.into_iter()
        invariant
            it.seq() == inc,
            p.len() == it.index(),
            id == id_after(next_id, it.index() as int),
            forall|k: int| 0 <= k < p.len() ==> tagged(inc[k], #[trigger] p[k], id_after(next_id, k), plugins@),
            results_sorted(out@),
            out@ == listed(all + p),
            out@.to_multiset() == all.to_multiset().add(p.to_multiset()),
    {
        let mut y = x;
        proof {
            lemma_encode_empty(y.plugin@);
        }
        if str_bytes(y.plugin.as_str()).len() == 0 {
            match plugin_name_by_site_url(y.site_url.as_str(), plugins) {
                Some(name) => {
                    y.plugin = name;
                },
                None => {},
            }
        }
        y.result_id = id;
        id = id.saturating_add(1);
        let ghost p_old = p;
        proof {
            assert(tagged(inc[p.len() as int], y, id_after(next_id, p.len() as int), plugins@));
            p = p.push(y);
            vstd::seq_lib::to_multiset_build(p_old, y);
            assert((all + p).drop_last() =~= all + p_old);
            assert((all + p).last() == y);
        }
        insert_sorted(&mut out, y);
        proof {
            assert(out@.to_multiset() =~= all.to_multiset().add(p.to_multiset()));
        }
    }
    (out, id)
}

} // verus!

verus! {

// ---------------------------------------------------------------------
// A plugin's version line
// ---------------------------------------------------------------------

/// `# VERSION:` as bytes.
pub open spec fn version_tag_spaced() -> Seq<u8> {
    seq![35u8, 32, 86, 69, 82, 83, 73, 79, 78, 58]
}

/// `#VERSION:` as bytes.
pub open spec fn version_tag() -> Seq<u8> {
    seq![35u8, 86, 69, 82, 83, 73, 79, 78, 58]
}

/// The bytes of a line after a version tag, if it starts with one.
pub open spec fn after_version_tag(t: Seq<u8>) -> Option<Seq<u8>> {
    if t.len() >= 10 && t.subrange(0, 10) == version_tag_spaced() {
        Some(t.subrange(10, t.len() as int))
    } else if t.len() >= 9 && t.subrange(0, 9) == version_tag() {
        Some(t.subrange(9, t.len() as int))
    } else {
        None
    }
}

/// A line without surrounding white space, as bytes.
pub open spec fn trimmed_line(seg: Seq<u8>) -> Seq<u8> {
    encode_utf8(crate::text::trim_chars(decode_utf8(seg)))
}

/// The version the lines of `rest` give, line `k` being the first of them:
/// the trimmed text after `# VERSION:` or `#VERSION:` on the first of the
/// first eight lines that has it.
pub open spec fn version_from_lines(rest: Seq<u8>, k: int) -> Option<Seq<char>>
    decreases 8 - k,
{
    if k >= 8 {
        None
    } else {
        let seg = match find_first(rest, 10u8) {
            Some(i) => rest.subrange(0, i),
            None => rest,
        };
        match after_version_tag(trimmed_line(seg)) {
            Some(v) => Some(crate::text::trim_chars(decode_utf8(v))),
            None => match find_first(rest, 10u8) {
                Some(i) => version_from_lines(rest.subrange(i + 1, rest.len() as int), k + 1),
                None => None,
            },
        }
    }
}

/// The version a plugin file declares (see `version_from_lines`); none for
/// a file over `MAX_PLUGIN_BYTES` or not UTF-8.
pub open spec fn spec_plugin_version(bytes: Seq<u8>) -> Option<Seq<char>> {
    if bytes.len() > MAX_PLUGIN_BYTES || !valid_utf8(bytes) {
        None
    } else {
        version_from_lines(bytes, 0)
    }
}

/// Reads a plugin file's version line (see `spec_plugin_version`).
pub fn plugin_version(bytes: &[u8]) -> (r: Option<String>)
    ensures
        match spec_plugin_version(bytes@) {
            Some(v) => r matches Some(s) && s@ == v,
            None => r is None,
        },
{
    if bytes.len() > MAX_PLUGIN_BYTES {
        return None;
    }
    let text = match crate::text::string_from_utf8(bytes_to_vec(bytes)) {
        Some(t) => t,
        None => {
            return None;
        },
    };
    let b = str_bytes(text.as_str());
    assert(b@ == bytes@);
    let spaced: [u8; 10] = [35, 32, 86, 69, 82, 83, 73, 79, 78, 58];
    let plain: [u8; 9] = [35, 86, 69, 82, 83, 73, 79, 78, 58];
    assert(spaced@ =~= version_tag_spaced());
    assert(plain@ =~= version_tag());
    let mut start: usize = 0;
    let mut k: usize = 0;
    assert(b@.subrange(0, b@.len() as int) =~= b@);
    while k < 8
        invariant
            valid_utf8(b@),
            b@ == bytes@,
            bytes@.len() <= MAX_PLUGIN_BYTES,
            start <= b@.len(),
            start == 0 || b@[start - 1] == 10,
            version_from_lines(b@, 0) == version_from_lines(b@.subrange(start as int, b@.len() as int), k as int),
            spaced@ == version_tag_spaced(),
            plain@ == version_tag(),
        decreases 8 - k,
    {
        let rest = &b[start..b.len()];
        assert(rest@ == b@.subrange(start as int, b@.len() as int));
        let nl = find_byte(rest, 10);
        proof {
            lemma_find_first(rest@, 10u8);
        }
        let end: usize = match nl {
            Some(i) => start + i,
            None => b.len(),
        };
        proof {
            crate::text::lemma_ascii_delimited(b@, start as int, end as int);
            assert(b@.subrange(start as int, end as int) =~= match find_first(rest@, 10u8) {
                Some(i) => rest@.subrange(0, i),
                None => rest@,
            });
        }
        let seg = string_of(&b[start..end]);
        proof {
            encode_utf8_decode_utf8(seg@);
        }
        let tr = crate::text::str_trim(seg.as_str());
        let tb = str_bytes(tr);
        proof {
            assert(tb@ == trimmed_line(b@.subrange(start as int, end as int)));
            encode_utf8_valid_utf8(tr@);
        }
        let tag_len: usize = if tb.len() >= 10 && crate::http::bytes_equal(&tb[0..10], spaced.as_slice()) {
            10
        } else if tb.len() >= 9 && crate::http::bytes_equal(&tb[0..9], plain.as_slice()) {
            9
        } else {
            0
        };
        proof {
            if tag_len == 10 {
                assert(after_version_tag(tb@) == Some(tb@.subrange(10, tb@.len() as int)));
            } else if tag_len == 9 {
                assert(!(tb@.len() >= 10 && tb@.subrange(0, 10) == version_tag_spaced()));
                assert(after_version_tag(tb@) == Some(tb@.subrange(9, tb@.len() as int)));
            } else {
                assert(after_version_tag(tb@) is None);
            }
        }
        if tag_len > 0 {
            proof {
                crate::text::lemma_ascii_delimited(tb@, tag_len as int, tb@.len() as int);
            }
            let v = string_of(&tb[tag_len..tb.len()]);
            proof {
                encode_utf8_decode_utf8(v@);
                assert(tb@.subrange(tag_len as int, tb@.len() as int) == after_version_tag(tb@)->Some_0);
            }
            let t = crate::text::str_trim(v.as_str());
            let out = t.to_string();
            assert(out@ == crate::text::trim_chars(decode_utf8(tb@.subrange(tag_len as int, tb@.len() as int))));
            proof {
                let sg = b@.subrange(start as int, end as int);
                assert(trimmed_line(sg) == tb@);
                assert(after_version_tag(trimmed_line(sg)) == Some(tb@.subrange(tag_len as int, tb@.len() as int)));
                assert(version_from_lines(rest@, k as int) == Some(out@));
            }
            return Some(out);
        }
        match nl {
            Some(i) => {
                proof {
                    assert(rest@.subrange(i + 1, rest@.len() as int) =~= b@.subrange(start + i + 1, b@.len() as int));
                }
                start = start + i + 1;
            },
            None => {
                return None;
            },
        }
        k = k + 1;
    }
    None
}

} // verus!

verus! {

// ---------------------------------------------------------------------
// Plugin capabilities
// ---------------------------------------------------------------------

/// The whitespace-separated words of `s` from position `i`, `cur` being the
/// word read so far and `acc` the words before it.
pub open spec fn words_from(s: Seq<char>, i: int, cur: Seq<char>, acc: Seq<Seq<char>>) -> Seq<Seq<char>>
    decreases s.len() - i,
{
    if i < 0 || i >= s.len() {
        if cur.len() > 0 {
            acc.push(cur)
        } else {
            acc
        }
    } else if crate::text::is_unicode_whitespace(s[i]) {
        words_from(s, i + 1, Seq::empty(), if cur.len() > 0 { acc.push(cur) } else { acc })
    } else {
        words_from(s, i + 1, cur.push(s[i]), acc)
    }
}

/// The whitespace-separated words of `s` (`str::split_whitespace`).
pub open spec fn words(s: Seq<char>) -> Seq<Seq<char>> {
    words_from(s, 0, Seq::empty(), Seq::empty())
}

/// Splits a string into its whitespace-separated words.
pub fn split_words(s: &str) -> (r: Vec<String>)
    ensures
        r@.map_values(|w: String| w@) == words(s@),
{
    let cs = crate::text::chars_vec(s);
    let mut out: Vec<String> = Vec::new();
    let mut cur: Vec<char> = Vec::new();
    let mut i: usize = 0;
    assert(cur@ =~= Seq::<char>::empty());
    assert(out@.map_values(|w: String| w@) =~= Seq::<Seq<char>>::empty());
    while i < cs.len()
        invariant
            i <= cs@.len(),
            cs@ == s@,
            words(s@) == words_from(s@, i as int, cur@, out@.map_values(|w: String| w@)),
        decreases cs@.len() - i,
    {
        if crate::catalog::is_ws(cs[i]) {
            if cur.len() > 0 {
                let w = crate::catalog::string_from(cur.as_slice());
                let ghost before = out@;
                out.push(w);
                assert(out@.map_values(|w: String| w@) =~= before.map_values(|w: String| w@).push(cur@));
            }
            cur = Vec::new();
            assert(cur@ =~= Seq::<char>::empty());
        } else {
            cur.push(cs[i]);
        }
        i = i + 1;
    }
    if cur.len() > 0 {
        let w = crate::catalog::string_from(cur.as_slice());
        let ghost before = out@;
        out.push(w);
        assert(out@.map_values(|w: String| w@) =~= before.map_values(|w: String| w@).push(cur@));
    }
    out
}

/// A plugin as text: module, display name, site, version, categories,
/// health and the reason it is broken.
pub open spec fn plugin_view(p: SearchPlugin) -> (Seq<char>, Seq<char>, Seq<char>, Seq<char>, Seq<Seq<char>>, bool, Seq<char>) {
    (p.module@, p.display_name@, p.site_url@, p.version@, p.categories@.map_values(|c: String| c@), p.healthy, p.broken_reason@)
}

/// The first plugin from `i` on with module `m`.
pub open spec fn first_with_module(ps: Seq<SearchPlugin>, m: Seq<char>, i: int) -> Option<int>
    decreases ps.len() - i,
{
    if i < 0 || i >= ps.len() {
        None
    } else if ps[i].module@ == m {
        Some(i)
    } else {
        first_with_module(ps, m, i + 1)
    }
}

/// The last element child of `r` named `name` among the first `i` nodes.
pub open spec fn last_child_named(ns: Seq<crate::rss::XmlModel>, r: int, name: Seq<u8>, i: int) -> Option<int>
    decreases i,
{
    if i <= 0 || i > ns.len() {
        None
    } else if ns[i - 1].1 && ns[i - 1].0 == Some(r as usize) && ns[i - 1].2 == name {
        Some(i - 1)
    } else {
        last_child_named(ns, r, name, i - 1)
    }
}

/// `p` after the capabilities entry `c`: the entry's trimmed `name` (the
/// module when empty), `url` and `categories` words, and the health its
/// module is known for.
pub open spec fn capability_applied(ns: Seq<crate::rss::XmlModel>, c: int, p: SearchPlugin) -> (Seq<char>, Seq<char>, Seq<char>, Seq<char>, Seq<Seq<char>>, bool, Seq<char>) {
    let name = decode_utf8(crate::rss::child_text(ns, c, seq![110u8, 97, 109, 101]));
    let healthy = encode_utf8(p.module@) != magnetdl_name();
    (
        p.module@,
        if name.len() == 0 { p.module@ } else { name },
        decode_utf8(crate::rss::child_text(ns, c, seq![117u8, 114, 108])),
        p.version@,
        words(decode_utf8(crate::rss::child_text(ns, c, seq![99u8, 97, 116, 101, 103, 111, 114, 105, 101, 115]))),
        healthy,
        if healthy { Seq::empty() } else { known_issue_text() },
    )
}

/// The plugins after reading a capabilities document `ns` whose root is
/// node `r`: each plugin, the first with its module, takes its entry from
/// the last root child named after the module; the others stay.
pub open spec fn capabilities_applied(ns: Seq<crate::rss::XmlModel>, r: int, ps: Seq<SearchPlugin>, j: int) -> (Seq<char>, Seq<char>, Seq<char>, Seq<char>, Seq<Seq<char>>, bool, Seq<char>) {
    if first_with_module(ps, ps[j].module@, 0) == Some(j) {
        match last_child_named(ns, r, encode_utf8(ps[j].module@), ns.len() as int) {
            Some(c) => capability_applied(ns, c, ps[j]),
            None => plugin_view(ps[j]),
        }
    } else {
        plugin_view(ps[j])
    }
}

/// The root element of a capabilities document, when it is one.
pub open spec fn capabilities_root(text: Seq<char>) -> Option<(Seq<crate::rss::XmlModel>, int)> {
    match crate::rss::xml_nodes(text) {
        Some(ns) => match crate::rss::root_from(ns, 0) {
            Some(r) => if ns[r].2 == seq![99u8, 97, 112, 97, 98, 105, 108, 105, 116, 105, 101, 115] {
                Some((ns, r))
            } else {
                None
            },
            None => None,
        },
        None => None,
    }
}

fn plugin_index(ps: &Vec<SearchPlugin>, name: &[u8]) -> (r: Option<usize>)
    ensures
        r is None ==> forall|k: int| 0 <= k < ps@.len() ==> encode_utf8(#[trigger] ps@[k].module@) != name@,
        r matches Some(j) ==> j < ps@.len() && encode_utf8(ps@[j as int].module@) == name@
            && first_with_module(ps@, ps@[j as int].module@, 0) == Some(j as int),
{
    let mut i: usize = 0;
    while i < ps.len()
        invariant
            i <= ps@.len(),
            forall|k: int| 0 <= k < i ==> encode_utf8(#[trigger] ps@[k].module@) != name@,
        decreases ps@.len() - i,
    {
        if bytes_equal(str_bytes(ps[i].module.as_str()), name) {
            proof {
                encode_utf8_decode_utf8(ps@[i as int].module@);
                encode_utf8_valid_utf8(ps@[i as int].module@);
                lemma_first_module(ps@, ps@[i as int].module@, i as int);
            }
            return Some(i);
        }
        i = i + 1;
    }
    None
}

proof fn lemma_first_module(ps: Seq<SearchPlugin>, m: Seq<char>, i: int)
    requires
        0 <= i < ps.len(),
        ps[i].module@ == m,
        forall|k: int| 0 <= k < i ==> encode_utf8(#[trigger] ps[k].module@) != encode_utf8(m),
    ensures
        first_with_module(ps, m, 0) == Some(i),
{
    lemma_first_module_from(ps, m, i, 0);
}

proof fn lemma_first_module_from(ps: Seq<SearchPlugin>, m: Seq<char>, i: int, k: int)
    requires
        0 <= k <= i < ps.len(),
        ps[i].module@ == m,
        forall|x: int| 0 <= x < i ==> encode_utf8(#[trigger] ps[x].module@) != encode_utf8(m),
    ensures
        first_with_module(ps, m, k) == Some(i),
    decreases i - k,
{
    if k < i {
        assert(encode_utf8(ps[k].module@) != encode_utf8(m));
        lemma_first_module_from(ps, m, i, k + 1);
    }
}

proof fn lemma_no_module(ps: Seq<SearchPlugin>, m: Seq<char>, b: Seq<u8>)
    requires
        valid_utf8(b),
        m == decode_utf8(b),
        forall|k: int| 0 <= k < ps.len() ==> encode_utf8(#[trigger] ps[k].module@) != b,
    ensures
        first_with_module(ps, m, 0) is None,
{
    decode_utf8_encode_utf8(b);
    lemma_no_module_from(ps, m, b, 0);
}

proof fn lemma_no_module_from(ps: Seq<SearchPlugin>, m: Seq<char>, b: Seq<u8>, k: int)
    requires
        0 <= k <= ps.len(),
        encode_utf8(m) == b,
        forall|x: int| 0 <= x < ps.len() ==> encode_utf8(#[trigger] ps[x].module@) != b,
    ensures
        first_with_module(ps, m, k) is None,
    decreases ps.len() - k,
{
    if k < ps.len() {
        assert(encode_utf8(ps[k].module@) != b);
        lemma_no_module_from(ps, m, b, k + 1);
    }
}

} // verus!

verus! {

proof fn lemma_first_module_same(a: Seq<SearchPlugin>, b: Seq<SearchPlugin>, m: Seq<char>, i: int)
    requires
        a.len() == b.len(),
        forall|k: int| 0 <= k < a.len() ==> (#[trigger] a[k]).module@ == b[k].module@,
    ensures
        first_with_module(a, m, i) == first_with_module(b, m, i),
    decreases a.len() - i,
{
    if 0 <= i < a.len() {
        lemma_first_module_same(a, b, m, i + 1);
    }
}

proof fn lemma_encode_injective(x: Seq<char>, y: Seq<char>)
    requires
        encode_utf8(x) == encode_utf8(y),
    ensures
        x == y,
{
    encode_utf8_decode_utf8(x);
    encode_utf8_decode_utf8(y);
}

/// Reads the capabilities document the search runtime prints and updates
/// the plugins it describes (see `capabilities_applied`); `false`, with the
/// plugins unchanged, when the text is not a capabilities document.
pub fn apply_capabilities(text: &str, plugins: &mut Vec<SearchPlugin>) -> (r: bool)
    ensures
        final(plugins)@.len() == old(plugins)@.len(),
        match capabilities_root(text@) {
            None => !r && final(plugins)@ == old(plugins)@,
            Some((ns, root)) => r && forall|j: int|
                0 <= j < old(plugins)@.len() ==> plugin_view(#[trigger] final(plugins)@[j]) == capabilities_applied(
                    ns,
                    root,
                    old(plugins)@,
                    j,
                ),
        },
{
    let nodes = match crate::rss::parse_xml(text) {
        Some(n) => n,
        None => {
            return false;
        },
    };
    let ghost ns = crate::rss::nodes_view(nodes@);
    let mut r: usize = 0;
    while r < nodes.len()
        invariant
            r <= nodes@.len(),
            ns == crate::rss::nodes_view(nodes@),
            crate::rss::root_from(ns, 0) == crate::rss::root_from(ns, r as int),
        ensures
            r <= nodes@.len(),
            crate::rss::root_from(ns, 0) == crate::rss::root_from(ns, r as int),
            r == nodes@.len() || (ns[r as int].1 && ns[r as int].0 == Some(0usize)),
        decreases nodes@.len() - r,
    {
        assert(ns[r as int] == crate::rss::node_view(nodes@[r as int]));
        if nodes[r].element && match nodes[r].parent {
            Some(q) => q == 0,
            None => false,
        } {
            break;
        }
        r = r + 1;
    }
    if r == nodes.len() {
        return false;
    }
    assert(ns[r as int] == crate::rss::node_view(nodes@[r as int]));
    let cap: [u8; 12] = [99, 97, 112, 97, 98, 105, 108, 105, 116, 105, 101, 115];
    assert(cap@ =~= seq![99u8, 97, 112, 97, 98, 105, 108, 105, 116, 105, 101, 115]);
    if !bytes_equal(str_bytes(nodes[r].name.as_str()), cap.as_slice()) {
        return false;
    }
    let kn: [u8; 4] = [110, 97, 109, 101];
    let ku: [u8; 3] = [117, 114, 108];
    let kc: [u8; 10] = [99, 97, 116, 101, 103, 111, 114, 105, 101, 115];
    assert(kn@ =~= seq![110u8, 97, 109, 101]);
    assert(ku@ =~= seq![117u8, 114, 108]);
    assert(kc@ =~= seq![99u8, 97, 116, 101, 103, 111, 114, 105, 101, 115]);
    let ghost old_ps = plugins@;
    let mut i: usize = 0;
    while i < nodes.len()
        invariant
            i <= nodes@.len(),
            r < nodes@.len(),
            ns == crate::rss::nodes_view(nodes@),
            plugins@.len() == old_ps.len(),
            kn@ == seq![110u8, 97, 109, 101],
            ku@ == seq![117u8, 114, 108],
            kc@ == seq![99u8, 97, 116, 101, 103, 111, 114, 105, 101, 115],
            forall|j: int| 0 <= j < old_ps.len() ==> (#[trigger] plugins@[j]).module@ == old_ps[j].module@,
            forall|j: int|
                0 <= j < old_ps.len() ==> plugin_view(#[trigger] plugins@[j]) == (if first_with_module(
                    old_ps,
                    old_ps[j].module@,
                    0,
                ) == Some(j) {
                    match last_child_named(ns, r as int, encode_utf8(old_ps[j].module@), i as int) {
                        Some(c) => capability_applied(ns, c, old_ps[j]),
                        None => plugin_view(old_ps[j]),
                    }
                } else {
                    plugin_view(old_ps[j])
                }),
        decreases nodes@.len() - i,
    {
        assert(ns[i as int] == crate::rss::node_view(nodes@[i as int]));
        let is_child = nodes[i].element && match nodes[i].parent {
            Some(q) => q == r,
            None => false,
        };
        let ghost before = plugins@;
        if is_child {
            let nm = str_bytes(nodes[i].name.as_str());
            match plugin_index(plugins, nm) {
                Some(j) => {
                    proof {
                        lemma_first_module_same(plugins@, old_ps, plugins@[j as int].module@, 0);
                    }
                    let module = plugins[j].module.clone();
                    let version = plugins[j].version.clone();
                    let name_t = crate::rss::child_text_of(nodes.as_slice(), i, kn.as_slice());
                    proof {
                        encode_utf8_decode_utf8(name_t@);
                        lemma_encode_empty(name_t@);
                    }
                    let display_name = if str_bytes(name_t.as_str()).len() == 0 {
                        module.clone()
                    } else {
                        name_t
                    };
                    let site_url = crate::rss::child_text_of(nodes.as_slice(), i, ku.as_slice());
                    let cats = crate::rss::child_text_of(nodes.as_slice(), i, kc.as_slice());
                    proof {
                        encode_utf8_decode_utf8(site_url@);
                        encode_utf8_decode_utf8(cats@);
                    }
                    let categories = split_words(cats.as_str());
                    let (healthy, broken_reason) = match plugin_known_issue(module.as_str()) {
                        Some(reason) => (false, reason.to_string()),
                        None => (true, String::new()),
                    };
                    let p = SearchPlugin { module, display_name, site_url, version, categories, healthy, broken_reason };
                    plugins.set(j, p);
                    proof {
                        assert(last_child_named(ns, r as int, nm@, i + 1) == Some(i as int));
                        assert forall|k: int| 0 <= k < old_ps.len() implies plugin_view(#[trigger] plugins@[k]) == (if first_with_module(
                            old_ps,
                            old_ps[k].module@,
                            0,
                        ) == Some(k) {
                            match last_child_named(ns, r as int, encode_utf8(old_ps[k].module@), i + 1) {
                                Some(c) => capability_applied(ns, c, old_ps[k]),
                                None => plugin_view(old_ps[k]),
                            }
                        } else {
                            plugin_view(old_ps[k])
                        }) by {
                            if k != j {
                                assert(plugins@[k] == before[k]);
                                if encode_utf8(old_ps[k].module@) == nm@ {
                                    lemma_encode_injective(old_ps[k].module@, old_ps[j as int].module@);
                                } else {
                                    assert(last_child_named(ns, r as int, encode_utf8(old_ps[k].module@), i + 1)
                                        == last_child_named(ns, r as int, encode_utf8(old_ps[k].module@), i as int));
                                }
                            }
                        }
                    }
                },
                None => {
                    proof {
                        assert forall|k: int| 0 <= k < old_ps.len() implies last_child_named(
                            ns,
                            r as int,
                            encode_utf8(#[trigger] old_ps[k].module@),
                            i + 1,
                        ) == last_child_named(ns, r as int, encode_utf8(old_ps[k].module@), i as int) by {
                            assert(encode_utf8(plugins@[k].module@) != nm@);
                        }
                    }
                },
            }
        } else {
            proof {
                assert forall|k: int| 0 <= k < old_ps.len() implies last_child_named(
                    ns,
                    r as int,
                    encode_utf8(#[trigger] old_ps[k].module@),
                    i + 1,
                ) == last_child_named(ns, r as int, encode_utf8(old_ps[k].module@), i as int) by {}
            }
        }
        i = i + 1;
    }
    proof {
        assert(crate::rss::root_from(ns, 0) == Some(r as int));
    }
    true
}

} // verus!
