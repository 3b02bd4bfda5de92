use vstd::prelude::*;
use vstd::utf8::*;

use crate::search::{plugin_module_from_filename, filename_from_url, spec_filename_from_url, spec_module, SearchCatalogEntry};
use crate::text::{is_unicode_whitespace, trim_chars, trim_end_chars, trim_start_chars};

verus! {

// ---------------------------------------------------------------------
// Characters
// ---------------------------------------------------------------------

/// `String::push`: appends one character.
#[verifier::external_body]
pub(crate) fn push_char(s: &mut String, c: char)
    ensures
        final(s)@ == old(s)@.push(c),
{
    s.push(c);
}

/// The string of the given characters.
pub fn string_from(cs: &[char]) -> (r: String)
    ensures
        r@ == cs@,
{
    let mut out = String::new();
    let mut i: usize = 0;
    while i < cs.len()
        invariant
            i <= cs@.len(),
            out@ == cs@.subrange(0, i as int),
        decreases cs@.len() - i,
    {
        push_char(&mut out, cs[i]);
        assert(out@ =~= cs@.subrange(0, i as int + 1));
        i = i + 1;
    }
    assert(cs@.subrange(0, i as int) =~= cs@);
    out
}

pub(crate) fn is_ws(c: char) -> (r: bool)
    ensures
        r == is_unicode_whitespace(c),
{
    let u = c as u32;
    (9 <= u && u <= 13) || u == 32 || u == 0x85 || u == 0xa0 || u == 0x1680 || (0x2000 <= u && u <= 0x200a)
        || u == 0x2028 || u == 0x2029 || u == 0x202f || u == 0x205f || u == 0x3000
}

proof fn lemma_trim_start_skip(s: Seq<char>, k: int)
    requires
        0 <= k <= s.len(),
        forall|j: int| 0 <= j < k ==> is_unicode_whitespace(#[trigger] s[j]),
    ensures
        trim_start_chars(s) == trim_start_chars(s.subrange(k, s.len() as int)),
    decreases k,
{
    if k == 0 {
        assert(s.subrange(0, s.len() as int) =~= s);
    } else {
        assert(s.drop_first().subrange(k - 1, s.drop_first().len() as int) =~= s.subrange(k, s.len() as int));
        lemma_trim_start_skip(s.drop_first(), k - 1);
    }
}

proof fn lemma_trim_end_skip(s: Seq<char>, k: int)
    requires
        0 <= k <= s.len(),
        forall|j: int| k <= j < s.len() ==> is_unicode_whitespace(#[trigger] s[j]),
    ensures
        trim_end_chars(s) == trim_end_chars(s.subrange(0, k)),
    decreases s.len() - k,
{
    if k == s.len() {
        assert(s.subrange(0, k) =~= s);
    } else {
        assert(s.drop_last().subrange(0, k) =~= s.subrange(0, k));
        lemma_trim_end_skip(s.drop_last(), k);
    }
}

/// The bounds of `cs[lo..hi]` without its leading and trailing whitespace.
pub fn trim_range(cs: &[char], lo: usize, hi: usize) -> (r: (usize, usize))
    requires
        lo <= hi <= cs@.len(),
    ensures
        lo <= r.0 <= r.1 <= hi,
        cs@.subrange(r.0 as int, r.1 as int) == trim_chars(cs@.subrange(lo as int, hi as int)),
{
    let ghost s = cs@.subrange(lo as int, hi as int);
    let mut a = lo;
    while a < hi && is_ws(cs[a])
        invariant
            lo <= a <= hi <= cs@.len(),
            forall|j: int| lo <= j < a ==> is_unicode_whitespace(#[trigger] cs@[j]),
        decreases hi - a,
    {
        a = a + 1;
    }
    proof {
        assert forall|j: int| 0 <= j < a - lo implies is_unicode_whitespace(#[trigger] s[j]) by {
            assert(s[j] == cs@[lo + j]);
        }
        lemma_trim_start_skip(s, a - lo);
        assert(s.subrange(a - lo, s.len() as int) =~= cs@.subrange(a as int, hi as int));
        let t = cs@.subrange(a as int, hi as int);
        if a < hi {
            assert(t[0] == cs@[a as int]);
            assert(trim_start_chars(t) == t);
        } else {
            assert(t.len() == 0);
        }
    }
    let mut b = hi;
    while b > a && is_ws(cs[b - 1])
        invariant
            lo <= a <= b <= hi <= cs@.len(),
            forall|j: int| b <= j < hi ==> is_unicode_whitespace(#[trigger] cs@[j]),
        decreases b - a,
    {
        b = b - 1;
    }
    proof {
        let t = cs@.subrange(a as int, hi as int);
        assert forall|j: int| b - a <= j < t.len() implies is_unicode_whitespace(#[trigger] t[j]) by {
            assert(t[j] == cs@[a + j]);
        }
        lemma_trim_end_skip(t, b - a);
        assert(t.subrange(0, b - a) =~= cs@.subrange(a as int, b as int));
        let u = cs@.subrange(a as int, b as int);
        if a < b {
            assert(u.last() == cs@[b - 1]);
        }
        assert(trim_end_chars(u) == u);
    }
    (a, b)
}

/// The first position at or after `i` that holds `c`.
pub open spec fn find_char(s: Seq<char>, c: char, i: int) -> Option<int>
    decreases s.len() - i,
{
    if i < 0 || i >= s.len() {
        None
    } else if s[i] == c {
        Some(i)
    } else {
        find_char(s, c, i + 1)
    }
}

proof fn lemma_find_char(s: Seq<char>, c: char, i: int)
    requires
        0 <= i,
    ensures
        find_char(s, c, i) matches Some(k) ==> i <= k < s.len() && s[k] == c,
    decreases s.len() - i,
{
    if i < s.len() && s[i] != c {
        lemma_find_char(s, c, i + 1);
    }
}

fn find_char_exec(cs: &[char], c: char, i: usize, hi: usize) -> (r: Option<usize>)
    requires
        i <= hi <= cs@.len(),
    ensures
        r matches Some(k) ==> find_char(cs@.subrange(0, hi as int), c, i as int) == Some(k as int) && k < hi,
        r is None ==> find_char(cs@.subrange(0, hi as int), c, i as int) is None,
{
    let ghost s = cs@.subrange(0, hi as int);
    let mut k = i;
    while k < hi
        invariant
            i <= k <= hi <= cs@.len(),
            s == cs@.subrange(0, hi as int),
            find_char(s, c, i as int) == find_char(s, c, k as int),
        decreases hi - k,
    {
        if cs[k] == c {
            assert(s[k as int] == c);
            return Some(k);
        }
        k = k + 1;
    }
    None
}

/// The last position of `c`.
pub open spec fn rfind_char(s: Seq<char>, c: char) -> Option<int>
    decreases s.len(),
{
    if s.len() == 0 {
        None
    } else if s.last() == c {
        Some(s.len() - 1)
    } else {
        rfind_char(s.drop_last(), c)
    }
}

fn rfind_char_exec(cs: &[char], c: char, lo: usize, hi: usize) -> (r: Option<usize>)
    requires
        lo <= hi <= cs@.len(),
    ensures
        r matches Some(k) ==> lo <= k < hi && rfind_char(cs@.subrange(lo as int, hi as int), c) == Some(k - lo),
        r is None ==> rfind_char(cs@.subrange(lo as int, hi as int), c) is None,
{
    let mut k = hi;
    while k > lo
        invariant
            lo <= k <= hi <= cs@.len(),
            rfind_char(cs@.subrange(lo as int, hi as int), c) == rfind_char(cs@.subrange(lo as int, k as int), c),
        decreases k - lo,
    {
        let ghost t = cs@.subrange(lo as int, k as int);
        assert(t.drop_last() =~= cs@.subrange(lo as int, k - 1));
        if cs[k - 1] == c {
            assert(t.last() == c);
            return Some(k - 1);
        }
        k = k - 1;
    }
    None
}

/// The first position at or after `i` where `p` occurs.
pub open spec fn find_seq(s: Seq<char>, p: Seq<char>, i: int) -> Option<int>
    decreases s.len() - i,
{
    if i < 0 || p.len() == 0 || i + p.len() > s.len() {
        None
    } else if s.subrange(i, i + p.len()) == p {
        Some(i)
    } else {
        find_seq(s, p, i + 1)
    }
}

fn matches_at(cs: &[char], p: &[char], i: usize) -> (r: bool)
    requires
        i + p.len() <= cs.len(),
    ensures
        r == (cs@.subrange(i as int, i + p@.len()) == p@),
{
    let mut j: usize = 0;
    while j < p.len()
        invariant
            j <= p@.len(),
            i + p.len() <= cs.len(),
            forall|x: int| 0 <= x < j ==> cs@[i + x] == p@[x],
        decreases p@.len() - j,
    {
        if cs[i + j] != p[j] {
            assert(cs@.subrange(i as int, i + p@.len())[j as int] != p@[j as int]);
            return false;
        }
        j = j + 1;
    }
    assert(cs@.subrange(i as int, i + p@.len()) =~= p@);
    true
}

fn find_seq_exec(cs: &[char], p: &[char], i: usize) -> (r: Option<usize>)
    requires
        i <= cs@.len(),
        p@.len() > 0,
    ensures
        r matches Some(k) ==> find_seq(cs@, p@, i as int) == Some(k as int) && k + p@.len() <= cs@.len(),
        r is None ==> find_seq(cs@, p@, i as int) is None,
{
    let mut k = i;
    while k < cs.len() && cs.len() - k >= p.len()
        invariant
            i <= k <= cs@.len(),
            p@.len() > 0,
            find_seq(cs@, p@, i as int) == find_seq(cs@, p@, k as int),
        decreases cs@.len() - k,
    {
        if matches_at(cs, p, k) {
            return Some(k);
        }
        k = k + 1;
    }
    None
}

/// Every occurrence of `p` in `s` from `i` on, left to right and not
/// overlapping, replaced by `rep`.
pub open spec fn replace_from(s: Seq<char>, p: Seq<char>, rep: Seq<char>, i: int) -> Seq<char>
    decreases s.len() - i,
{
    if i < 0 || i > s.len() {
        Seq::empty()
    } else {
        match find_seq(s, p, i) {
            None => s.subrange(i, s.len() as int),
            Some(k) => if k < i || k + p.len() > s.len() || p.len() == 0 {
                Seq::empty()
            } else {
                s.subrange(i, k) + rep + replace_from(s, p, rep, k + p.len())
            },
        }
    }
}

proof fn lemma_find_seq(s: Seq<char>, p: Seq<char>, i: int)
    requires
        0 <= i,
    ensures
        find_seq(s, p, i) matches Some(k) ==> i <= k && k + p.len() <= s.len() && p.len() > 0,
    decreases s.len() - i,
{
    if !(i < 0 || p.len() == 0 || i + p.len() > s.len()) && s.subrange(i, i + p.len()) != p {
        lemma_find_seq(s, p, i + 1);
    }
}

/// `str::replace` over characters.
pub fn replace_all(cs: &[char], p: &[char], rep: &[char]) -> (r: Vec<char>)
    requires
        p@.len() > 0,
    ensures
        r@ == replace_from(cs@, p@, rep@, 0),
{
    let mut out: Vec<char> = Vec::new();
    let mut i: usize = 0;
    while i <= cs.len()
        invariant
            i <= cs@.len() + 1,
            p@.len() > 0,
            i <= cs@.len() ==> out@ + replace_from(cs@, p@, rep@, i as int) == replace_from(cs@, p@, rep@, 0),
            i > cs@.len() ==> out@ == replace_from(cs@, p@, rep@, 0),
        decreases cs@.len() + 1 - i,
    {
        proof {
            lemma_find_seq(cs@, p@, i as int);
        }
        match find_seq_exec(cs, p, i) {
            None => {
                let ghost before = out@;
                let mut j = i;
                while j < cs.len()
                    invariant
                        i <= j <= cs@.len(),
                        out@ == before + cs@.subrange(i as int, j as int),
                    decreases cs@.len() - j,
                {
                    out.push(cs[j]);
                    assert(out@ =~= before + cs@.subrange(i as int, j + 1));
                    j = j + 1;
                }
                assert(out@ == before + replace_from(cs@, p@, rep@, i as int));
                assert(out@ =~= replace_from(cs@, p@, rep@, 0));
                return out;
            },
            Some(k) => {
                let ghost before = out@;
                let mut j = i;
                while j < k
                    invariant
                        i <= j <= k <= cs@.len(),
                        out@ == before + cs@.subrange(i as int, j as int),
                    decreases k - j,
                {
                    out.push(cs[j]);
                    assert(out@ =~= before + cs@.subrange(i as int, j + 1));
                    j = j + 1;
                }
                let mut x: usize = 0;
                while x < rep.len()
                    invariant
                        x <= rep@.len(),
                        out@ == before + cs@.subrange(i as int, k as int) + rep@.subrange(0, x as int),
                    decreases rep@.len() - x,
                {
                    out.push(rep[x]);
                    assert(out@ =~= before + cs@.subrange(i as int, k as int) + rep@.subrange(0, x + 1));
                    x = x + 1;
                }
                assert(rep@.subrange(0, x as int) =~= rep@);
                let ghost tail = replace_from(cs@, p@, rep@, k + p@.len());
                assert(replace_from(cs@, p@, rep@, i as int) == cs@.subrange(i as int, k as int) + rep@ + tail);
                assert(out@ + tail =~= before + replace_from(cs@, p@, rep@, i as int));
                i = k + p.len();
            },
        }
    }
    out
}


// ---------------------------------------------------------------------
// Wiki markup
// ---------------------------------------------------------------------

/// The bytes of the UTF-8 encoding of `c`, each taken as a character:
/// what pushing a string's bytes one by one `as char` leaves of `c`.
pub open spec fn mangle(c: char) -> Seq<char> {
    encode_scalar(c as u32).map_values(|b: u8| b as char)
}

fn encode_char(c: char) -> (r: Vec<u8>)
    ensures
        r@ == encode_scalar(c as u32),
{
    proof {
        char_is_scalar(c);
    }
    let u = c as u32;
    if u <= 0x7f {
        vec![(u & 0x7F) as u8]
    } else if u <= 0x7ff {
        vec![0xC0 | ((u >> 6) & 0x1F) as u8, 0x80 | (u & 0x3F) as u8]
    } else if u <= 0xffff {
        vec![0xE0 | ((u >> 12) & 0x0F) as u8, 0x80 | ((u >> 6) & 0x3F) as u8, 0x80 | (u & 0x3F) as u8]
    } else {
        vec![
            0xF0 | ((u >> 18) & 0x7) as u8,
            0x80 | ((u >> 12) & 0x3F) as u8,
            0x80 | ((u >> 6) & 0x3F) as u8,
            0x80 | (u & 0x3F) as u8,
        ]
    }
}

fn push_mangled(out: &mut Vec<char>, c: char)
    ensures
        final(out)@ == old(out)@ + mangle(c),
{
    let bytes = encode_char(c);
    let ghost start = out@;
    let mut i: usize = 0;
    while i < bytes.len()
        invariant
            i <= bytes@.len(),
            bytes@ == encode_scalar(c as u32),
            out@ == start + mangle(c).subrange(0, i as int),
        decreases bytes@.len() - i,
    {
        out.push(bytes[i] as char);
        assert(out@ =~= start + mangle(c).subrange(0, i as int + 1));
        i = i + 1;
    }
    assert(mangle(c).subrange(0, i as int) =~= mangle(c));
}

fn push_range(out: &mut Vec<char>, cs: &[char], a: usize, b: usize)
    requires
        a <= b <= cs@.len(),
    ensures
        final(out)@ == old(out)@ + cs@.subrange(a as int, b as int),
{
    let ghost start = out@;
    let mut i = a;
    while i < b
        invariant
            a <= i <= b <= cs@.len(),
            out@ == start + cs@.subrange(a as int, i as int),
        decreases b - i,
    {
        out.push(cs[i]);
        assert(out@ =~= start + cs@.subrange(a as int, i + 1));
        i = i + 1;
    }
}

/// `[[target|label]]` links replaced by their trimmed label (nothing when
/// there is no `|`); every other byte of the text kept as a character of
/// its own.
pub open spec fn strip_double(s: Seq<char>, i: int) -> Seq<char>
    decreases s.len() - i,
{
    if i < 0 || i >= s.len() {
        Seq::empty()
    } else if s[i] == '[' && i + 1 < s.len() && s[i + 1] == '[' && find_seq(s, seq![']', ']'], i + 2) is Some {
        let e = find_seq(s, seq![']', ']'], i + 2)->0;
        if e < i + 2 || e + 2 > s.len() {
            Seq::empty()
        } else {
            let inner = s.subrange(i + 2, e);
            let label = match rfind_char(inner, '|') {
                Some(p) => trim_chars(inner.subrange(p + 1, inner.len() as int)),
                None => Seq::empty(),
            };
            label + strip_double(s, e + 2)
        }
    } else {
        mangle(s[i]) + strip_double(s, i + 1)
    }
}

/// `[url label]` links replaced by their trimmed label (nothing when there
/// is none); every other byte kept as a character of its own.
pub open spec fn strip_links(s: Seq<char>, i: int) -> Seq<char>
    decreases s.len() - i,
{
    if i < 0 || i >= s.len() {
        Seq::empty()
    } else if s[i] == '[' && !(i + 1 < s.len() && s[i + 1] == '[') && find_char(s, ']', i + 1) is Some {
        let e = find_char(s, ']', i + 1)->0;
        if e < i + 1 || e + 1 > s.len() {
            Seq::empty()
        } else {
            let inner = trim_chars(s.subrange(i + 1, e));
            let label = match find_char(inner, ' ', 0) {
                Some(p) => trim_chars(inner.subrange(p + 1, inner.len() as int)),
                None => Seq::empty(),
            };
            label + strip_links(s, e + 1)
        }
    } else {
        mangle(s[i]) + strip_links(s, i + 1)
    }
}

#[verifier::rlimit(50)]
#[verifier::spinoff_prover]
fn strip_double_exec(cs: &[char]) -> (r: Vec<char>)
    ensures
        r@ == strip_double(cs@, 0),
{
    let close = [']', ']'];
    assert(close@ =~= seq![']', ']']);
    let mut out: Vec<char> = Vec::new();
    let mut idx: usize = 0;
    while idx < cs.len()
        invariant
            idx <= cs@.len(),
            close@ == seq![']', ']'],
            out@ + strip_double(cs@, idx as int) == strip_double(cs@, 0),
        decreases cs@.len() - idx,
    {
        let ghost before = out@;
        if cs[idx] == '[' && idx + 1 < cs.len() && cs[idx + 1] == '[' {
            let start = idx + 2;
            proof {
                lemma_find_seq(cs@, close@, start as int);
            }
            match find_seq_exec(cs, close.as_slice(), start) {
                Some(e) => {
                    let ghost inner = cs@.subrange(start as int, e as int);
                    match rfind_char_exec(cs, '|', start, e) {
                        Some(p) => {
                            let (a, b) = trim_range(cs, p + 1, e);
                            assert(inner.subrange(p + 1 - start, inner.len() as int) =~= cs@.subrange(p + 1, e as int));
                            push_range(&mut out, cs, a, b);
                        },
                        None => {},
                    }
                    idx = e + 2;
                    assert(out@ + strip_double(cs@, idx as int) =~= before + strip_double(cs@, start - 2));
                    continue;
                },
                None => {},
            }
        }
        push_mangled(&mut out, cs[idx]);
        idx = idx + 1;
        assert(out@ + strip_double(cs@, idx as int) =~= before + strip_double(cs@, idx - 1));
    }
    assert(out@ =~= strip_double(cs@, 0));
    out
}

#[verifier::rlimit(50)]
#[verifier::spinoff_prover]
fn strip_links_exec(cs: &[char]) -> (r: Vec<char>)
    ensures
        r@ == strip_links(cs@, 0),
{
    let mut out: Vec<char> = Vec::new();
    let mut idx: usize = 0;
    while idx < cs.len()
        invariant
            idx <= cs@.len(),
            out@ + strip_links(cs@, idx as int) == strip_links(cs@, 0),
        decreases cs@.len() - idx,
    {
        let ghost before = out@;
        if cs[idx] == '[' && !(idx + 1 < cs.len() && cs[idx + 1] == '[') {
            let start = idx + 1;
            proof {
                lemma_find_char(cs@.subrange(0, cs@.len() as int), ']', start as int);
                assert(cs@.subrange(0, cs@.len() as int) =~= cs@);
            }
            match find_char_exec(cs, ']', start, cs.len()) {
                Some(e) => {
                    let (a, b) = trim_range(cs, start, e);
                    let ghost inner = cs@.subrange(a as int, b as int);
                    proof {
                        lemma_find_char(inner, ' ', 0);
                    }
                    match find_char_exec(cs, ' ', a, b) {
                        Some(p) => {
                            proof {
                                assert(cs@.subrange(0, b as int).subrange(a as int, b as int) =~= inner);
                                lemma_find_char_shift(cs@.subrange(0, b as int), ' ', a as int, a as int);
                            }
                            let (x, y) = trim_range(cs, p + 1, b);
                            assert(inner.subrange(p + 1 - a, inner.len() as int) =~= cs@.subrange(p + 1, b as int));
                            push_range(&mut out, cs, x, y);
                        },
                        None => {
                            proof {
                                assert(cs@.subrange(0, b as int).subrange(a as int, b as int) =~= inner);
                                lemma_find_char_shift(cs@.subrange(0, b as int), ' ', a as int, a as int);
                            }
                        },
                    }
                    idx = e + 1;
                    assert(out@ + strip_links(cs@, idx as int) =~= before + strip_links(cs@, start - 1));
                    continue;
                },
                None => {},
            }
        }
        push_mangled(&mut out, cs[idx]);
        idx = idx + 1;
        assert(out@ + strip_links(cs@, idx as int) =~= before + strip_links(cs@, idx - 1));
    }
    assert(out@ =~= strip_links(cs@, 0));
    out
}

/// Searching `s` from `j` finds what searching `s[a..]` from `j - a`
/// finds, moved by `a`.
proof fn lemma_find_char_shift(s: Seq<char>, c: char, a: int, j: int)
    requires
        0 <= a <= j <= s.len(),
    ensures
        find_char(s, c, j) == (match find_char(s.subrange(a, s.len() as int), c, j - a) {
            Some(k) => Some(k + a),
            None => None,
        }),
    decreases s.len() - j,
{
    let t = s.subrange(a, s.len() as int);
    if j < s.len() {
        assert(t[j - a] == s[j]);
        if s[j] != c {
            lemma_find_char_shift(s, c, a, j + 1);
        }
    }
}


/// Each run of whitespace as one space, from `i` on; `last` tells whether
/// a space was just written.
pub open spec fn collapse_from(s: Seq<char>, i: int, last: bool) -> Seq<char>
    decreases s.len() - i,
{
    if i < 0 || i >= s.len() {
        Seq::empty()
    } else if is_unicode_whitespace(s[i]) {
        if last {
            collapse_from(s, i + 1, true)
        } else {
            seq![' '] + collapse_from(s, i + 1, true)
        }
    } else {
        seq![s[i]] + collapse_from(s, i + 1, false)
    }
}

/// Whitespace runs collapsed to one space, and the ends trimmed.
pub open spec fn collapse_whitespace(s: Seq<char>) -> Seq<char> {
    trim_chars(collapse_from(s, 0, false))
}

fn collapse_exec(cs: &[char]) -> (r: Vec<char>)
    ensures
        r@ == collapse_whitespace(cs@),
{
    let mut out: Vec<char> = Vec::new();
    let mut last = false;
    let mut i: usize = 0;
    while i < cs.len()
        invariant
            i <= cs@.len(),
            out@ + collapse_from(cs@, i as int, last) == collapse_from(cs@, 0, false),
        decreases cs@.len() - i,
    {
        let ghost before = out@;
        let ghost l = last;
        if is_ws(cs[i]) {
            if !last {
                out.push(' ');
                last = true;
            }
        } else {
            out.push(cs[i]);
            last = false;
        }
        i = i + 1;
        assert(out@ + collapse_from(cs@, i as int, last) =~= before + collapse_from(cs@, i - 1, l));
    }
    assert(out@ =~= collapse_from(cs@, 0, false));
    let (a, b) = trim_range(out.as_slice(), 0, out.len());
    assert(out@.subrange(0, out@.len() as int) =~= out@);
    let mut r: Vec<char> = Vec::new();
    push_range(&mut r, out.as_slice(), a, b);
    assert(r@ =~= collapse_whitespace(cs@));
    r
}

/// `clean_wiki_text`: line breaks as ` / `, bold and italic quotes
/// dropped, `&nbsp;` as a space, links reduced to their labels, `&#124;`
/// as `|`, and whitespace collapsed.
#[verifier::opaque]
pub open spec fn clean_wiki(s: Seq<char>) -> Seq<char> {
    let r1 = replace_from(s, "<br />"@, " / "@, 0);
    let r2 = replace_from(r1, "<br/>"@, " / "@, 0);
    let r3 = replace_from(r2, "<br>"@, " / "@, 0);
    let r4 = replace_from(r3, "'''"@, ""@, 0);
    let r5 = replace_from(r4, "''"@, ""@, 0);
    let r6 = replace_from(r5, "&nbsp;"@, " "@, 0);
    let r7 = strip_double(r6, 0);
    let r8 = strip_links(r7, 0);
    let r9 = replace_from(r8, "&#124;"@, "|"@, 0);
    collapse_whitespace(r9)
}

fn replace_lit(cs: &[char], p: &str, rep: &str) -> (r: Vec<char>)
    requires
        p@.len() > 0,
    ensures
        r@ == replace_from(cs@, p@, rep@, 0),
{
    let pv = crate::text::chars_vec(p);
    let rv = crate::text::chars_vec(rep);
    replace_all(cs, pv.as_slice(), rv.as_slice())
}

/// Cleans wiki markup (see `clean_wiki`).
pub fn clean_wiki_text(cs: &[char]) -> (r: Vec<char>)
    ensures
        r@ == clean_wiki(cs@),
{
    proof {
        reveal(clean_wiki);
        reveal_strlit("<br />");
        reveal_strlit("<br/>");
        reveal_strlit("<br>");
        reveal_strlit("'''");
        reveal_strlit("''");
        reveal_strlit("&nbsp;");
        reveal_strlit("&#124;");
    }
    let r1 = replace_lit(cs, "<br />", " / ");
    let r2 = replace_lit(r1.as_slice(), "<br/>", " / ");
    let r3 = replace_lit(r2.as_slice(), "<br>", " / ");
    let r4 = replace_lit(r3.as_slice(), "'''", "");
    let r5 = replace_lit(r4.as_slice(), "''", "");
    let r6 = replace_lit(r5.as_slice(), "&nbsp;", " ");
    let r7 = strip_double_exec(r6.as_slice());
    let r8 = strip_links_exec(r7.as_slice());
    let r9 = replace_lit(r8.as_slice(), "&#124;", "|");
    collapse_exec(r9.as_slice())
}

/// The `[url label]` links of a cell, from `i` on: each trimmed chunk
/// split at its first space into a trimmed url and label, a chunk without
/// a space taken whole as a url without label, an empty one skipped.
pub open spec fn links_from(s: Seq<char>, i: int) -> Seq<(Seq<char>, Seq<char>)>
    decreases s.len() - i,
{
    if i < 0 || i >= s.len() {
        Seq::empty()
    } else if s[i] == '[' && !(i + 1 < s.len() && s[i + 1] == '[') && find_char(s, ']', i + 1) is Some {
        let e = find_char(s, ']', i + 1)->0;
        if e < i + 1 || e + 1 > s.len() {
            Seq::empty()
        } else {
            let chunk = trim_chars(s.subrange(i + 1, e));
            let rest = links_from(s, e + 1);
            match find_char(chunk, ' ', 0) {
                Some(p) => seq![
                    (trim_chars(chunk.subrange(0, p)), trim_chars(chunk.subrange(p + 1, chunk.len() as int))),
                ] + rest,
                None => if chunk.len() > 0 {
                    seq![(chunk, Seq::<char>::empty())] + rest
                } else {
                    rest
                },
            }
        }
    } else {
        links_from(s, i + 1)
    }
}

/// The view of a list of links.
pub open spec fn links_view(v: Seq<(Vec<char>, Vec<char>)>) -> Seq<(Seq<char>, Seq<char>)> {
    v.map_values(|l: (Vec<char>, Vec<char>)| (l.0@, l.1@))
}

/// The links of a cell (see `links_from`).
#[verifier::rlimit(50)]
#[verifier::spinoff_prover]
pub fn external_links(cs: &[char]) -> (r: Vec<(Vec<char>, Vec<char>)>)
    ensures
        links_view(r@) == links_from(cs@, 0),
{
    let mut out: Vec<(Vec<char>, Vec<char>)> = Vec::new();
    let mut idx: usize = 0;
    while idx < cs.len()
        invariant
            idx <= cs@.len(),
            links_view(out@) + links_from(cs@, idx as int) == links_from(cs@, 0),
        decreases cs@.len() - idx,
    {
        let ghost before = links_view(out@);
        if cs[idx] == '[' && !(idx + 1 < cs.len() && cs[idx + 1] == '[') {
            let start = idx + 1;
            proof {
                lemma_find_char(cs@.subrange(0, cs@.len() as int), ']', start as int);
                assert(cs@.subrange(0, cs@.len() as int) =~= cs@);
            }
            match find_char_exec(cs, ']', start, cs.len()) {
                Some(e) => {
                    let (a, b) = trim_range(cs, start, e);
                    let ghost chunk = cs@.subrange(a as int, b as int);
                    proof {
                        lemma_find_char(chunk, ' ', 0);
                        assert(cs@.subrange(0, b as int).subrange(a as int, b as int) =~= chunk);
                        lemma_find_char_shift(cs@.subrange(0, b as int), ' ', a as int, a as int);
                    }
                    match find_char_exec(cs, ' ', a, b) {
                        Some(p) => {
                            let (x, y) = trim_range(cs, a, p);
                            let (u, v) = trim_range(cs, p + 1, b);
                            assert(chunk.subrange(0, p - a) =~= cs@.subrange(a as int, p as int));
                            assert(chunk.subrange(p + 1 - a, chunk.len() as int) =~= cs@.subrange(p + 1, b as int));
                            let mut url: Vec<char> = Vec::new();
                            push_range(&mut url, cs, x, y);
                            let mut label: Vec<char> = Vec::new();
                            push_range(&mut label, cs, u, v);
                            out.push((url, label));
                        },
                        None => {
                            if b > a {
                                let mut url: Vec<char> = Vec::new();
                                push_range(&mut url, cs, a, b);
                                out.push((url, Vec::new()));
                            }
                        },
                    }
                    idx = e + 1;
                    assert(links_view(out@) + links_from(cs@, idx as int) =~= before + links_from(cs@, start - 1));
                    continue;
                },
                None => {},
            }
        }
        idx = idx + 1;
    }
    assert(links_view(out@) =~= links_from(cs@, 0));
    out
}


// ---------------------------------------------------------------------
// Catalog entries
// ---------------------------------------------------------------------

/// ASCII upper-case letters in lower case.
pub open spec fn lower_char(c: char) -> char {
    if 'A' <= c && c <= 'Z' {
        (((c as u8) + 32) as u8) as char
    } else {
        c
    }
}

pub open spec fn lower_chars(s: Seq<char>) -> Seq<char> {
    s.map_values(|c: char| lower_char(c))
}

fn lower_vec_chars(cs: &[char]) -> (r: Vec<char>)
    ensures
        r@ == lower_chars(cs@),
{
    let mut out: Vec<char> = Vec::new();
    let mut i: usize = 0;
    while i < cs.len()
        invariant
            i <= cs@.len(),
            out@ == lower_chars(cs@.subrange(0, i as int)),
        decreases cs@.len() - i,
    {
        let c = cs[i];
        let l = if 'A' <= c && c <= 'Z' {
            ((c as u8) + 32) as char
        } else {
            c
        };
        out.push(l);
        assert(out@ =~= lower_chars(cs@.subrange(0, i as int + 1)));
        i = i + 1;
    }
    assert(cs@.subrange(0, i as int) =~= cs@);
    out
}

/// `s` ends with `p`.
pub open spec fn ends_with_chars(s: Seq<char>, p: Seq<char>) -> bool {
    p.len() <= s.len() && s.subrange(s.len() - p.len(), s.len() as int) == p
}

fn ends_with_lit(cs: &[char], p: &str) -> (r: bool)
    ensures
        r == ends_with_chars(cs@, p@),
{
    let pv = crate::text::chars_vec(p);
    if pv.len() > cs.len() {
        return false;
    }
    matches_at(cs, pv.as_slice(), cs.len() - pv.len())
}

fn contains_lit(cs: &[char], p: &str) -> (r: bool)
    requires
        p@.len() > 0,
    ensures
        r == (find_seq(cs@, p@, 0) is Some),
{
    let pv = crate::text::chars_vec(p);
    find_seq_exec(cs, pv.as_slice(), 0).is_some()
}

/// The first link whose url, in lower case, holds `.py`.
pub open spec fn first_py(ls: Seq<(Seq<char>, Seq<char>)>, k: int) -> Option<Seq<char>>
    decreases ls.len() - k,
{
    if k < 0 || k >= ls.len() {
        None
    } else if find_seq(lower_chars(ls[k].0), ".py"@, 0) is Some {
        Some(ls[k].0)
    } else {
        first_py(ls, k + 1)
    }
}

/// A link to an image or a site icon.
pub open spec fn image_link(u: Seq<char>) -> bool {
    let l = lower_chars(u);
    ends_with_chars(l, ".png"@) || ends_with_chars(l, ".gif"@) || ends_with_chars(l, ".jpg"@) || ends_with_chars(
        l,
        ".jpeg"@,
    ) || find_seq(l, "favicon"@, 0) is Some
}

/// The cleaned label of the last of the first `k` links that is not an
/// image and has a non-empty label.
pub open spec fn last_label(ls: Seq<(Seq<char>, Seq<char>)>, k: int) -> Option<Seq<char>>
    decreases k,
{
    if k <= 0 || k > ls.len() {
        None
    } else if !image_link(ls[k - 1].0) && clean_wiki(ls[k - 1].1).len() > 0 {
        Some(clean_wiki(ls[k - 1].1))
    } else {
        last_label(ls, k - 1)
    }
}

/// The name a cell shows: its last labelled non-image link, else its
/// whole cleaned text, if any.
pub open spec fn display_name(cell: Seq<char>) -> Option<Seq<char>> {
    let ls = links_from(cell, 0);
    match last_label(ls, ls.len() as int) {
        Some(n) => Some(n),
        None => {
            let c = clean_wiki(cell);
            if c.len() > 0 {
                Some(c)
            } else {
                None
            }
        },
    }
}

fn extract_display_name(cell: &[char]) -> (r: Option<Vec<char>>)
    ensures
        match display_name(cell@) {
            Some(n) => r matches Some(v) && v@ == n,
            None => r is None,
        },
{
    let links = external_links(cell);
    let ghost ls = links_from(cell@, 0);
    let mut k = links.len();
    while k > 0
        invariant
            k <= links@.len(),
            links_view(links@) == ls,
            ls == links_from(cell@, 0),
            last_label(ls, ls.len() as int) == last_label(ls, k as int),
        decreases k,
    {
        let url = &links[k - 1].0;
        let lower = lower_vec_chars(url.as_slice());
        proof {
            reveal_strlit("favicon");
        }
        let image = ends_with_lit(lower.as_slice(), ".png") || ends_with_lit(lower.as_slice(), ".gif")
            || ends_with_lit(lower.as_slice(), ".jpg") || ends_with_lit(lower.as_slice(), ".jpeg") || contains_lit(
            lower.as_slice(),
            "favicon",
        );
        assert(ls[k - 1] == (links@[k - 1].0@, links@[k - 1].1@));
        if !image {
            let cleaned = clean_wiki_text(links[k - 1].1.as_slice());
            if cleaned.len() > 0 {
                return Some(cleaned);
            }
        }
        k = k - 1;
    }
    let cleaned = clean_wiki_text(cell);
    if cleaned.len() > 0 {
        Some(cleaned)
    } else {
        None
    }
}

fn extract_download_url(cell: &[char]) -> (r: Option<Vec<char>>)
    ensures
        match first_py(links_from(cell@, 0), 0) {
            Some(u) => r matches Some(v) && v@ == u,
            None => r is None,
        },
{
    let links = external_links(cell);
    let ghost ls = links_from(cell@, 0);
    proof {
        reveal_strlit(".py");
    }
    let mut k: usize = 0;
    while k < links.len()
        invariant
            k <= links@.len(),
            links_view(links@) == ls,
            ls == links_from(cell@, 0),
            first_py(ls, 0) == first_py(ls, k as int),
        decreases links@.len() - k,
    {
        let lower = lower_vec_chars(links[k].0.as_slice());
        proof {
            reveal_strlit(".py");
        }
        assert(ls[k as int] == (links@[k as int].0@, links@[k as int].1@));
        if contains_lit(lower.as_slice(), ".py") {
            let mut out: Vec<char> = Vec::new();
            push_range(&mut out, links[k].0.as_slice(), 0, links[k].0.len());
            assert(links@[k as int].0@.subrange(0, links@[k as int].0@.len() as int) =~= links@[k as int].0@);
            return Some(out);
        }
        k = k + 1;
    }
    None
}

/// The module a download link names, or `plugin`.
pub open spec fn link_module(url: Seq<char>) -> Seq<char> {
    match spec_filename_from_url(encode_utf8(url)) {
        Some(f) => match spec_module(f) {
            Some(m) => decode_utf8(m),
            None => "plugin"@,
        },
        None => "plugin"@,
    }
}

fn filename_from_link(url: &[char]) -> (r: String)
    ensures
        r@ == link_module(url@),
{
    let s = string_from(url);
    match filename_from_url(s.as_str()) {
        Ok(f) => {
            proof {
                encode_utf8_decode_utf8(f@);
            }
            match plugin_module_from_filename(f.as_str()) {
                Some(m) => {
                    proof {
                        encode_utf8_decode_utf8(m@);
                    }
                    m
                },
                None => "plugin".to_string(),
            }
        },
        Err(_) => "plugin".to_string(),
    }
}

/// A catalog entry as a value.
pub type EntryModel = (Seq<char>, Seq<char>, Seq<char>, Seq<char>, Seq<char>, Seq<char>, Seq<char>, bool);

pub open spec fn entry_model(e: SearchCatalogEntry) -> EntryModel {
    (e.module@, e.name@, e.author@, e.version@, e.updated@, e.download_url@, e.comment@, e.private_site)
}

/// The entry of a table row's cells: none without five cells or without
/// a `.py` link in the fifth; otherwise the module and name from the link
/// and the first cell, the author from the second, version and date from
/// the third and fourth, and the comment from a sixth cell.
#[verifier::opaque]
pub open spec fn build_entry(cells: Seq<Seq<char>>, private_site: bool) -> Option<EntryModel> {
    if cells.len() < 5 {
        None
    } else {
        match first_py(links_from(cells[4], 0), 0) {
            None => None,
            Some(url) => Some(
                (
                    link_module(url),
                    match display_name(cells[0]) {
                        Some(n) => n,
                        None => link_module(url),
                    },
                    match display_name(cells[1]) {
                        Some(a) => a,
                        None => clean_wiki(cells[1]),
                    },
                    clean_wiki(cells[2]),
                    clean_wiki(cells[3]),
                    url,
                    if cells.len() > 5 {
                        clean_wiki(cells[5])
                    } else {
                        Seq::empty()
                    },
                    private_site,
                ),
            ),
        }
    }
}

pub open spec fn cells_view(cells: Seq<Vec<char>>) -> Seq<Seq<char>> {
    cells.map_values(|c: Vec<char>| c@)
}

fn build_catalog_entry(cells: &Vec<Vec<char>>, private_site: bool) -> (r: Option<SearchCatalogEntry>)
    ensures
        match build_entry(cells_view(cells@), private_site) {
            Some(m) => r matches Some(e) && entry_model(e) == m,
            None => r is None,
        },
{
    proof {
        reveal(build_entry);
    }
    if cells.len() < 5 {
        return None;
    }
    let url = match extract_download_url(cells[4].as_slice()) {
        Some(u) => u,
        None => {
            return None;
        },
    };
    let module = filename_from_link(url.as_slice());
    let comment = if cells.len() > 5 {
        string_from(clean_wiki_text(cells[5].as_slice()).as_slice())
    } else {
        String::new()
    };
    let name = match extract_display_name(cells[0].as_slice()) {
        Some(n) => string_from(n.as_slice()),
        None => filename_from_link(url.as_slice()),
    };
    let author = match extract_display_name(cells[1].as_slice()) {
        Some(a) => string_from(a.as_slice()),
        None => string_from(clean_wiki_text(cells[1].as_slice()).as_slice()),
    };
    let version = string_from(clean_wiki_text(cells[2].as_slice()).as_slice());
    let updated = string_from(clean_wiki_text(cells[3].as_slice()).as_slice());
    let download_url = string_from(url.as_slice());
    Some(SearchCatalogEntry { module, name, author, version, updated, download_url, comment, private_site })
}


// ---------------------------------------------------------------------
// The catalog page
// ---------------------------------------------------------------------

/// The lines of `s` from `pos` on, split at `\n`.
pub open spec fn lines_from(s: Seq<char>, pos: int) -> Seq<Seq<char>>
    decreases s.len() - pos,
{
    if pos < 0 || pos > s.len() {
        Seq::empty()
    } else {
        match find_char(s, '\n', pos) {
            None => seq![s.subrange(pos, s.len() as int)],
            Some(i) => if i < pos || i >= s.len() {
                Seq::empty()
            } else {
                seq![s.subrange(pos, i)] + lines_from(s, i + 1)
            },
        }
    }
}

/// What the scan of the page carries from line to line: the entries so
/// far, the finished cells and the open cell of the current row, whether a
/// row is open, whether the private section began, and whether the
/// current row is in it.
pub type ScanState = (Seq<EntryModel>, Seq<Seq<char>>, Seq<char>, bool, bool, bool);

/// The entries with `e` added, if there is one.
pub open spec fn push_entry(rows: Seq<EntryModel>, e: Option<EntryModel>) -> Seq<EntryModel> {
    match e {
        Some(x) => rows.push(x),
        None => rows,
    }
}

/// `s` begins with `p`.
pub open spec fn starts_with_chars(s: Seq<char>, p: Seq<char>) -> bool {
    p.len() <= s.len() && s.subrange(0, p.len() as int) == p
}

/// One line of the page, trimmed: the private-section heading, a row
/// separator (which closes the row before it), the end of the table, a
/// header cell (skipped), a new cell, or more text of the open cell.
#[verifier::opaque]
pub open spec fn scan_trimmed(st: ScanState, line: Seq<char>) -> ScanState {
    let (rows, cells, cell, in_row, private_site, row_private) = st;
    if starts_with_chars(line, "= Plugins for Private Sites ="@) {
        (rows, cells, cell, in_row, true, row_private)
    } else if line == "|-"@ {
        (push_entry(rows, build_entry(cells, row_private)), Seq::empty(), Seq::empty(), true, private_site, private_site)
    } else if !in_row {
        st
    } else if line == "|}"@ {
        (push_entry(rows, build_entry(cells, row_private)), Seq::empty(), Seq::empty(), false, private_site, row_private)
    } else if line.len() > 0 && line[0] == '!' {
        st
    } else if line.len() > 0 && line[0] == '|' {
        let cells2 = if trim_chars(cell).len() > 0 {
            cells.push(trim_chars(cell))
        } else {
            cells
        };
        (rows, cells2, trim_chars(line.subrange(1, line.len() as int)), in_row, private_site, row_private)
    } else if line.len() > 0 {
        let cell2 = if cell.len() > 0 {
            cell.push(' ') + line
        } else {
            line
        };
        (rows, cells, cell2, in_row, private_site, row_private)
    } else {
        st
    }
}

/// One raw line of the page.
pub open spec fn scan_step(st: ScanState, raw: Seq<char>) -> ScanState {
    scan_trimmed(st, trim_chars(raw))
}

struct Scan {
    rows: Vec<SearchCatalogEntry>,
    cells: Vec<Vec<char>>,
    cell: Vec<char>,
    in_row: bool,
    private_site: bool,
    row_private: bool,
}

spec fn scan_view(s: Scan) -> ScanState {
    (s.rows@.map_values(|e: SearchCatalogEntry| entry_model(e)), cells_view(s.cells@), s.cell@, s.in_row, s.private_site, s.row_private)
}

fn close_row(s: &mut Scan)
    ensures
        scan_view(*final(s)).0 == push_entry(scan_view(*old(s)).0, build_entry(scan_view(*old(s)).1, old(s).row_private)),
        final(s).cells@.len() == 0,
        final(s).cell@.len() == 0,
        final(s).in_row == old(s).in_row,
        final(s).private_site == old(s).private_site,
        final(s).row_private == old(s).row_private,
{
    match build_catalog_entry(&s.cells, s.row_private) {
        Some(e) => {
            s.rows.push(e);
            assert(s.rows@.map_values(|e: SearchCatalogEntry| entry_model(e)) =~= old(s).rows@.map_values(
                |e: SearchCatalogEntry| entry_model(e),
            ).push(entry_model(e)));
        },
        None => {},
    }
    s.cells = Vec::new();
    s.cell = Vec::new();
}

fn add_cell(s: &mut Scan, line: &Vec<char>)
    requires
        line@.len() > 0,
    ensures
        scan_view(*final(s)) == ({
            let (rows, cells, cell, in_row, p, rp) = scan_view(*old(s));
            let cells2 = if trim_chars(cell).len() > 0 {
                cells.push(trim_chars(cell))
            } else {
                cells
            };
            (rows, cells2, trim_chars(line@.subrange(1, line@.len() as int)), in_row, p, rp)
        }),
{
    let t = trimmed_range_vec(s.cell.as_slice(), 0, s.cell.len());
    assert(old(s).cell@.subrange(0, old(s).cell@.len() as int) =~= old(s).cell@);
    if t.len() > 0 {
        s.cells.push(t);
        assert(cells_view(s.cells@) =~= cells_view(old(s).cells@).push(t@));
    }
    s.cell = trimmed_range_vec(line.as_slice(), 1, line.len());
}

fn extend_cell(s: &mut Scan, line: &Vec<char>)
    ensures
        final(s).cell@ == (if old(s).cell@.len() > 0 {
            old(s).cell@.push(' ') + line@
        } else {
            line@
        }),
        final(s).rows@ == old(s).rows@,
        final(s).cells@ == old(s).cells@,
        final(s).in_row == old(s).in_row,
        final(s).private_site == old(s).private_site,
        final(s).row_private == old(s).row_private,
{
    if s.cell.len() > 0 {
        s.cell.push(' ');
    }
    let ghost c0 = s.cell@;
    let mut j: usize = 0;
    while j < line.len()
        invariant
            j <= line@.len(),
            s.cell@ == c0 + line@.subrange(0, j as int),
            s.rows@ == old(s).rows@,
            s.cells@ == old(s).cells@,
            s.in_row == old(s).in_row,
            s.private_site == old(s).private_site,
            s.row_private == old(s).row_private,
            c0 == (if old(s).cell@.len() > 0 { old(s).cell@.push(' ') } else { old(s).cell@ }),
        decreases line@.len() - j,
    {
        s.cell.push(line[j]);
        assert(s.cell@ =~= c0 + line@.subrange(0, j as int + 1));
        j = j + 1;
    }
    assert(line@.subrange(0, j as int) =~= line@);
    assert(old(s).cell@.len() == 0 ==> c0 + line@ =~= line@);
}

fn scan_line(s: &mut Scan, line: &Vec<char>)
    ensures
        scan_view(*final(s)) == scan_trimmed(scan_view(*old(s)), line@),
{
    proof {
        reveal(scan_trimmed);
        reveal_strlit("|-");
        reveal_strlit("|}");
    }
    if starts_lit(line, "= Plugins for Private Sites =") {
        s.private_site = true;
    } else if eq_lit(line, "|-") {
        close_row(s);
        s.in_row = true;
        s.row_private = s.private_site;
        assert(cells_view(s.cells@) =~= Seq::<Seq<char>>::empty());
    } else if !s.in_row {
    } else if eq_lit(line, "|}") {
        close_row(s);
        s.in_row = false;
        assert(cells_view(s.cells@) =~= Seq::<Seq<char>>::empty());
    } else if line.len() > 0 && line[0] == '!' {
    } else if line.len() > 0 && line[0] == '|' {
        add_cell(s, line);
    } else if line.len() > 0 {
        extend_cell(s, line);
    }
}

/// The state after the given lines.
pub open spec fn scan_lines(lines: Seq<Seq<char>>) -> ScanState
    decreases lines.len(),
{
    if lines.len() == 0 {
        (Seq::empty(), Seq::empty(), Seq::empty(), false, false, false)
    } else {
        scan_step(scan_lines(lines.drop_last()), lines.last())
    }
}

/// The plugins listed by the wiki page of unofficial search plugins: one
/// entry per table row that has five cells and a `.py` download link, the
/// rows after the private-sites heading marked private; a row still open
/// at the end of the page counts too.
pub open spec fn spec_parse_catalog(text: Seq<char>) -> Seq<EntryModel> {
    let st = scan_lines(lines_from(text, 0));
    push_entry(st.0, build_entry(st.1, st.5))
}

fn trimmed_range_vec(cs: &[char], lo: usize, hi: usize) -> (r: Vec<char>)
    requires
        lo <= hi <= cs@.len(),
    ensures
        r@ == trim_chars(cs@.subrange(lo as int, hi as int)),
{
    let (a, b) = trim_range(cs, lo, hi);
    let mut out: Vec<char> = Vec::new();
    push_range(&mut out, cs, a, b);
    out
}

fn eq_lit(cs: &Vec<char>, p: &str) -> (r: bool)
    ensures
        r == (cs@ == p@),
{
    let pv = crate::text::chars_vec(p);
    if pv.len() != cs.len() {
        return false;
    }
    let r = matches_at(cs.as_slice(), pv.as_slice(), 0);
    assert(cs@.subrange(0, cs@.len() as int) =~= cs@);
    r
}

fn starts_lit(cs: &Vec<char>, p: &str) -> (r: bool)
    ensures
        r == starts_with_chars(cs@, p@),
{
    let pv = crate::text::chars_vec(p);
    if pv.len() > cs.len() {
        return false;
    }
    matches_at(cs.as_slice(), pv.as_slice(), 0)
}

/// Reads the catalog page (see `spec_parse_catalog`).
#[verifier::rlimit(50)]
#[verifier::spinoff_prover]
pub fn parse_unofficial_catalog(text: &str) -> (r: Vec<SearchCatalogEntry>)
    ensures
        r@.map_values(|e: SearchCatalogEntry| entry_model(e)) == spec_parse_catalog(text@),
{
    let cs = crate::text::chars_vec(text);
    let ghost lines = lines_from(cs@, 0);
    let mut scan = Scan {
        rows: Vec::new(),
        cells: Vec::new(),
        cell: Vec::new(),
        in_row: false,
        private_site: false,
        row_private: false,
    };
    proof {
        assert(scan_view(scan) =~~= scan_lines(lines.subrange(0, 0)));
    }
    let mut pos: usize = 0;
    let ghost mut k: int = 0;
    let mut done = false;
    while !done
        invariant
            pos <= cs@.len(),
            cs@ == text@,
            lines == lines_from(cs@, 0),
            !done ==> lines_from(cs@, pos as int) == lines.subrange(k, lines.len() as int),
            0 <= k <= lines.len(),
            done ==> k == lines.len(),
            scan_lines(lines.subrange(0, k)) == scan_view(scan),
        decreases cs@.len() + 1 - pos, if done { 0int } else { 1int },
    {
        proof {
            lemma_find_char(cs@.subrange(0, cs@.len() as int), '\n', pos as int);
            assert(cs@.subrange(0, cs@.len() as int) =~= cs@);
        }
        let found = find_char_exec(cs.as_slice(), '\n', pos, cs.len());
        let end = match found {
            Some(e) => e,
            None => cs.len(),
        };
        let ghost raw = cs@.subrange(pos as int, end as int);
        proof {
            assert(lines_from(cs@, pos as int)[0] == raw);
            assert(lines_from(cs@, pos as int).len() > 0);
            assert(k < lines.len());
            assert(lines.subrange(k, lines.len() as int)[0] == lines[k]);
        }
        let line = trimmed_range_vec(cs.as_slice(), pos, end);
        let ghost sub = lines.subrange(0, k + 1);
        proof {
            assert(sub.drop_last() =~= lines.subrange(0, k));
            assert(sub.last() == raw);
        }
        scan_line(&mut scan, &line);
        proof {
            if end < cs.len() {
                let rest = lines_from(cs@, end + 1);
                let here = lines.subrange(k, lines.len() as int);
                assert(lines_from(cs@, pos as int) == seq![raw] + rest);
                assert(here == seq![raw] + rest);
                assert(rest =~= here.subrange(1, here.len() as int));
                assert(here.subrange(1, here.len() as int) =~= lines.subrange(k + 1, lines.len() as int));
            } else {
                assert(lines_from(cs@, pos as int) =~= seq![raw]);
                assert(lines.subrange(k, lines.len() as int).len() == 1);
            }
            k = k + 1;
        }
        if end < cs.len() {
            pos = end + 1;
        } else {
            done = true;
        }
    }
    assert(lines.subrange(0, k) =~= lines);
    close_row(&mut scan);
    scan.rows
}

} // verus!
