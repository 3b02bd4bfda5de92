use vstd::prelude::*;
use crate::catalog::push_char;
use crate::rss::XmlNode;

verus! {

// ---------------------------------------------------------------------
// The XML the feed and capability readers take
// ---------------------------------------------------------------------
//
// A document is optional prolog matter (white space, comments, processing
// instructions, a `<!...>` declaration), one root element, and optional
// trailing white space, comments and processing instructions. An element
// is `<name attr="value" ...>` content `</name>`, or `<name .../>`; its
// content is text, child elements, comments, processing instructions and
// CDATA sections. Text and attribute values decode the five named
// entities and numeric character references. Names keep their local
// part, after the last `:`.

/// How deep elements may nest.
pub const MAX_XML_DEPTH: usize = 256;

/// An attribute: local name and value.
pub type CharAttr = (Seq<char>, Seq<char>);

/// A node: its parent's position, whether it is an element, its local
/// name, its text (the text directly inside it, CDATA included) and its
/// attributes.
pub type CharNode = (Option<usize>, bool, Seq<char>, Seq<char>, Seq<CharAttr>);

pub open spec fn is_ws(c: char) -> bool {
    c == ' ' || c == '\t' || c == '\n' || c == '\r'
}

pub open spec fn is_name_char(c: char) -> bool {
    &&& !is_ws(c)
    &&& c != '<' && c != '>' && c != '/' && c != '=' && c != '!'
    &&& c != '?' && c != '"' && c != '\'' && c != '&'
}

/// The end of the name starting at `i`.
pub open spec fn name_end(cs: Seq<char>, i: int) -> int
    decreases cs.len() - i,
{
    if 0 <= i < cs.len() && is_name_char(cs[i]) {
        name_end(cs, i + 1)
    } else {
        i
    }
}

/// The end of the white space starting at `i`.
pub open spec fn ws_end(cs: Seq<char>, i: int) -> int
    decreases cs.len() - i,
{
    if 0 <= i < cs.len() && is_ws(cs[i]) {
        ws_end(cs, i + 1)
    } else {
        i
    }
}

/// The part of a name after its last `:`, looking from position `j` back.
pub open spec fn local_from(q: Seq<char>, j: int) -> Seq<char>
    decreases j,
{
    if j <= 0 || j > q.len() {
        q
    } else if q[j - 1] == ':' {
        q.subrange(j, q.len() as int)
    } else {
        local_from(q, j - 1)
    }
}

pub open spec fn local_name(q: Seq<char>) -> Seq<char> {
    local_from(q, q.len() as int)
}

/// Whether `pat` stands at position `i`.
pub open spec fn at(cs: Seq<char>, i: int, pat: Seq<char>) -> bool {
    0 <= i && i + pat.len() <= cs.len() && cs.subrange(i, i + pat.len()) == pat
}

/// The first position from `i` on where `pat` stands, or the end.
pub open spec fn find_from(cs: Seq<char>, i: int, pat: Seq<char>) -> int
    decreases cs.len() - i,
{
    if i < 0 || i >= cs.len() {
        cs.len() as int
    } else if at(cs, i, pat) {
        i
    } else {
        find_from(cs, i + 1, pat)
    }
}

/// The `;` ending an entity, among the `n` characters from `i`.
pub open spec fn semi_within(cs: Seq<char>, i: int, n: nat) -> Option<int>
    decreases n,
{
    if n == 0 || i < 0 || i >= cs.len() {
        None
    } else if cs[i] == ';' {
        Some(i)
    } else {
        semi_within(cs, i + 1, (n - 1) as nat)
    }
}

pub open spec fn dec_digit(c: char) -> bool {
    '0' <= c <= '9'
}

pub open spec fn hex_digit(c: char) -> bool {
    ('0' <= c <= '9') || ('a' <= c <= 'f') || ('A' <= c <= 'F')
}

pub open spec fn hex_digit_value(c: char) -> int {
    if '0' <= c <= '9' {
        c as int - '0' as int
    } else if 'a' <= c <= 'f' {
        c as int - 'a' as int + 10
    } else {
        c as int - 'A' as int + 10
    }
}

/// The value of some digits in base `b`.
pub open spec fn digits_in(s: Seq<char>, b: int) -> int
    decreases s.len(),
{
    if s.len() == 0 {
        0
    } else {
        digits_in(s.drop_last(), b) * b + hex_digit_value(s.last())
    }
}

/// The character with code point `n`, if there is one.
pub open spec fn code_char(n: int) -> Option<char> {
    if (0 <= n < 0xD800) || (0xE000 <= n <= 0x10FFFF) {
        Some(n as char)
    } else {
        None
    }
}

/// The character an entity name (between `&` and `;`) stands for.
pub open spec fn entity_char(e: Seq<char>) -> Option<char> {
    if e == seq!['l', 't'] {
        Some('<')
    } else if e == seq!['g', 't'] {
        Some('>')
    } else if e == seq!['a', 'm', 'p'] {
        Some('&')
    } else if e == seq!['q', 'u', 'o', 't'] {
        Some('"')
    } else if e == seq!['a', 'p', 'o', 's'] {
        Some('\'')
    } else if e.len() >= 2 && e[0] == '#' && (e[1] == 'x' || e[1] == 'X') {
        let d = e.subrange(2, e.len() as int);
        if 1 <= d.len() <= 6 && (forall|k: int| 0 <= k < d.len() ==> hex_digit(#[trigger] d[k])) {
            code_char(digits_in(d, 16))
        } else {
            None
        }
    } else if e.len() >= 1 && e[0] == '#' {
        let d = e.subrange(1, e.len() as int);
        if 1 <= d.len() <= 7 && (forall|k: int| 0 <= k < d.len() ==> dec_digit(#[trigger] d[k])) {
            code_char(digits_in(d, 10))
        } else {
            None
        }
    } else {
        None
    }
}

/// Decoded characters from `i` on, added to `acc`: up to a `<` (for
/// `quote` none: text, which may end the input) or up to the quote (an
/// attribute value, which may hold no `<`); gives the text and where it
/// stopped.
pub open spec fn chars_until(cs: Seq<char>, i: int, acc: Seq<char>, quote: Option<char>) -> Option<(Seq<char>, int)>
    decreases cs.len() - i,
{
    if i < 0 || i >= cs.len() {
        if quote is None { Some((acc, cs.len() as int)) } else { None }
    } else {
        let c = cs[i];
        if quote is None && c == '<' {
            Some((acc, i))
        } else if quote matches Some(q) && c == q {
            Some((acc, i))
        } else if c == '<' {
            None
        } else if c == '&' {
            match semi_within(cs, i + 1, 12) {
                None => None,
                Some(e) => if e <= i || e >= cs.len() {
                    None
                } else {
                    match entity_char(cs.subrange(i + 1, e)) {
                        None => None,
                        Some(d) => chars_until(cs, e + 1, acc.push(d), quote),
                    }
                },
            }
        } else {
            chars_until(cs, i + 1, acc.push(c), quote)
        }
    }
}

/// The attributes of a tag from `i` on, added to `acc`, up to its `>`
/// (or `/>` for an empty element): gives them, the position after the
/// tag, and whether the element is empty.
pub open spec fn tag_attrs(cs: Seq<char>, i: int, acc: Seq<CharAttr>) -> Option<(Seq<CharAttr>, int, bool)>
    decreases cs.len() - i,
{
    let j = ws_end(cs, i);
    if i < 0 || j < i || j >= cs.len() {
        None
    } else if cs[j] == '>' {
        Some((acc, j + 1, false))
    } else if cs[j] == '/' {
        if j + 1 < cs.len() && cs[j + 1] == '>' {
            Some((acc, j + 2, true))
        } else {
            None
        }
    } else if j == i {
        None
    } else {
        let ne = name_end(cs, j);
        let k = ws_end(cs, ne);
        if ne <= j || k < ne || k >= cs.len() || cs[k] != '=' {
            None
        } else {
            let v = ws_end(cs, k + 1);
            if v <= k || v >= cs.len() || (cs[v] != '"' && cs[v] != '\'') {
                None
            } else {
                match chars_until(cs, v + 1, Seq::empty(), Some(cs[v])) {
                    None => None,
                    Some((val, e)) => if e <= v || e >= cs.len() {
                        None
                    } else {
                        tag_attrs(cs, e + 1, acc.push((local_name(cs.subrange(j, ne)), val)))
                    },
                }
            }
        }
    }
}

/// The element whose tag starts at `i` (a `<`), a child of `parent`,
/// placed at position `base`: its node and its descendants', in document
/// order, and the position after it.
pub open spec fn element(cs: Seq<char>, i: int, parent: usize, base: int, depth: int) -> Option<(Seq<CharNode>, int)>
    decreases cs.len() - i, 0int,
{
    let ne = name_end(cs, i + 1);
    if depth > MAX_XML_DEPTH || i < 0 || i >= cs.len() || ne <= i + 1 {
        None
    } else {
        let q = cs.subrange(i + 1, ne);
        match tag_attrs(cs, ne, Seq::empty()) {
            None => None,
            Some((at, j, empty)) => if j <= i || j > cs.len() {
                None
            } else if empty {
                Some((seq![(Some(parent), true, local_name(q), Seq::empty(), at)], j))
            } else if base < 0 || base + 1 > usize::MAX {
                None
            } else {
                match content(cs, j, base, base + 1, Seq::empty(), Seq::empty(), q, depth) {
                    None => None,
                    Some((text, kids, e)) => Some((seq![(Some(parent), true, local_name(q), text, at)] + kids, e)),
                }
            },
        }
    }
}

/// The content of the element at position `me` named `q` from `i` on,
/// with the text and descendants found so far, its next descendant to be
/// placed at `next`: gives its text, its descendants and the position
/// after its end tag.
pub open spec fn content(
    cs: Seq<char>,
    i: int,
    me: int,
    next: int,
    text: Seq<char>,
    kids: Seq<CharNode>,
    q: Seq<char>,
    depth: int,
) -> Option<(Seq<char>, Seq<CharNode>, int)>
    decreases cs.len() - i, 1int,
{
    if i < 0 || i >= cs.len() || me < 0 || me > usize::MAX {
        None
    } else if cs[i] != '<' {
        match chars_until(cs, i, text, None) {
            None => None,
            Some((t, j)) => if j <= i || j > cs.len() {
                None
            } else {
                content(cs, j, me, next, t, kids, q, depth)
            },
        }
    } else if at(cs, i, seq!['<', '/']) {
        let ne = name_end(cs, i + 2);
        let k = ws_end(cs, ne);
        if ne < i + 2 || cs.subrange(i + 2, ne) != q || k < ne || k >= cs.len() || cs[k] != '>' {
            None
        } else {
            Some((text, kids, k + 1))
        }
    } else if at(cs, i, seq!['<', '!', '-', '-']) {
        let e = find_from(cs, i + 4, seq!['-', '-', '>']);
        if e < i || e + 3 > cs.len() {
            None
        } else {
            content(cs, e + 3, me, next, text, kids, q, depth)
        }
    } else if at(cs, i, seq!['<', '!', '[', 'C', 'D', 'A', 'T', 'A', '[']) {
        let e = find_from(cs, i + 9, seq![']', ']', '>']);
        if e < i + 9 || e + 3 > cs.len() {
            None
        } else {
            content(cs, e + 3, me, next, text + cs.subrange(i + 9, e), kids, q, depth)
        }
    } else if at(cs, i, seq!['<', '?']) {
        let e = find_from(cs, i + 2, seq!['?', '>']);
        if e < i || e + 2 > cs.len() {
            None
        } else {
            content(cs, e + 2, me, next, text, kids, q, depth)
        }
    } else {
        match element(cs, i, me as usize, next, depth + 1) {
            None => None,
            Some((ns, e)) => if e <= i || e > cs.len() || next + ns.len() > usize::MAX {
                None
            } else {
                content(cs, e, me, next + ns.len(), text, kids + ns, q, depth)
            },
        }
    }
}

/// White space, comments and processing instructions from `i` on (and
/// `<!...>` declarations where `decl`): where they end.
pub open spec fn misc(cs: Seq<char>, i: int, decl: bool) -> int
    decreases cs.len() - i,
{
    let j = ws_end(cs, i);
    if i < 0 || j < i || j >= cs.len() {
        j
    } else if at(cs, j, seq!['<', '!', '-', '-']) {
        let e = find_from(cs, j + 4, seq!['-', '-', '>']);
        if e < j || e + 3 > cs.len() {
            j
        } else {
            misc(cs, e + 3, decl)
        }
    } else if at(cs, j, seq!['<', '?']) {
        let e = find_from(cs, j + 2, seq!['?', '>']);
        if e < j || e + 2 > cs.len() {
            j
        } else {
            misc(cs, e + 2, decl)
        }
    } else if decl && at(cs, j, seq!['<', '!']) {
        let e = find_from(cs, j + 2, seq!['>']);
        if e < j || e + 1 > cs.len() {
            j
        } else {
            misc(cs, e + 1, decl)
        }
    } else {
        j
    }
}

/// The nodes of a document: the document node first, then its elements
/// in document order; nothing when the text is not a document.
pub open spec fn spec_xml(cs: Seq<char>) -> Option<Seq<CharNode>> {
    let i = misc(cs, 0, true);
    if i < 0 || i >= cs.len() || cs[i] != '<' {
        None
    } else {
        match element(cs, i, 0, 1, 0) {
            None => None,
            Some((ns, e)) => if e < 0 || e > cs.len() || misc(cs, e, false) != cs.len() {
                None
            } else {
                Some(seq![(None::<usize>, false, Seq::<char>::empty(), Seq::<char>::empty(), Seq::<CharAttr>::empty())] + ns)
            },
        }
    }
}

// ---------------------------------------------------------------------
// The reader
// ---------------------------------------------------------------------

pub open spec fn attrs_chars(v: Seq<(String, String)>) -> Seq<CharAttr> {
    v.map_values(|a: (String, String)| (a.0@, a.1@))
}

pub open spec fn node_chars(n: XmlNode) -> CharNode {
    (n.parent, n.element, n.name@, n.text@, attrs_chars(n.attrs@))
}

pub open spec fn nodes_chars(v: Seq<XmlNode>) -> Seq<CharNode> {
    v.map_values(|n: XmlNode| node_chars(n))
}

fn ws_char(c: char) -> (r: bool)
    ensures
        r == is_ws(c),
{
    c == ' ' || c == '\t' || c == '\n' || c == '\r'
}

fn name_char(c: char) -> (r: bool)
    ensures
        r == is_name_char(c),
{
    !ws_char(c) && c != '<' && c != '>' && c != '/' && c != '=' && c != '!' && c != '?' && c != '"' && c != '\''
        && c != '&'
}

fn name_end_exec(cs: &Vec<char>, i: usize) -> (r: usize)
    requires
        i <= cs@.len(),
    ensures
        r == name_end(cs@, i as int),
        i <= r <= cs@.len(),
{
    let mut j = i;
    while j < cs.len() && name_char(cs[j])
        invariant
            i <= j <= cs@.len(),
            name_end(cs@, i as int) == name_end(cs@, j as int),
        decreases cs@.len() - j,
    {
        j = j + 1;
    }
    j
}

fn ws_end_exec(cs: &Vec<char>, i: usize) -> (r: usize)
    requires
        i <= cs@.len(),
    ensures
        r == ws_end(cs@, i as int),
        i <= r <= cs@.len(),
{
    let mut j = i;
    while j < cs.len() && ws_char(cs[j])
        invariant
            i <= j <= cs@.len(),
            ws_end(cs@, i as int) == ws_end(cs@, j as int),
        decreases cs@.len() - j,
    {
        j = j + 1;
    }
    j
}

/// Appends the characters `a..b` of `cs`.
fn push_range(s: &mut String, cs: &Vec<char>, a: usize, b: usize)
    requires
        a <= b <= cs@.len(),
    ensures
        final(s)@ == old(s)@ + cs@.subrange(a as int, b as int),
{
    let ghost s0 = s@;
    let mut k = a;
    while k < b
        invariant
            a <= k <= b <= cs@.len(),
            s@ == s0 + cs@.subrange(a as int, k as int),
        decreases b - k,
    {
        push_char(s, cs[k]);
        k = k + 1;
        assert(s@ =~= s0 + cs@.subrange(a as int, k as int));
    }
}

fn local_name_exec(cs: &Vec<char>, a: usize, b: usize) -> (r: String)
    requires
        a <= b <= cs@.len(),
    ensures
        r@ == local_name(cs@.subrange(a as int, b as int)),
{
    let ghost q = cs@.subrange(a as int, b as int);
    let mut j = b;
    while j > a && cs[j - 1] != ':'
        invariant
            a <= j <= b <= cs@.len(),
            q == cs@.subrange(a as int, b as int),
            local_from(q, (j - a) as int) == local_name(q),
        decreases j,
    {
        assert(q[(j - a) - 1] == cs@[j - 1]);
        j = j - 1;
    }
    proof {
        if j > a {
            assert(q[(j - a) - 1] == cs@[j - 1]);
            assert(q.subrange((j - a) as int, q.len() as int) =~= cs@.subrange(j as int, b as int));
        } else {
            assert(q =~= cs@.subrange(j as int, b as int));
        }
    }
    let mut s = String::new();
    push_range(&mut s, cs, j, b);
    assert(s@ =~= cs@.subrange(j as int, b as int));
    s
}

fn at_exec(cs: &Vec<char>, i: usize, pat: &[char]) -> (r: bool)
    ensures
        r == at(cs@, i as int, pat@),
{
    if i > cs.len() || pat.len() > cs.len() - i {
        return false;
    }
    let mut k: usize = 0;
    while k < pat.len()
        invariant
            i + pat@.len() <= cs@.len(),
            cs@.len() <= usize::MAX,
            k <= pat@.len(),
            forall|m: int| 0 <= m < k ==> cs@[i + m] == pat@[m],
        decreases pat@.len() - k,
    {
        assert(i + k < cs@.len());
        if cs[i + k] != pat[k] {
            assert(cs@.subrange(i as int, i + pat@.len())[k as int] != pat@[k as int]);
            return false;
        }
        k = k + 1;
    }
    assert(cs@.subrange(i as int, i + pat@.len()) =~= pat@);
    true
}

fn find_exec(cs: &Vec<char>, i: usize, pat: &[char]) -> (r: usize)
    requires
        i <= cs@.len(),
    ensures
        r == find_from(cs@, i as int, pat@),
        r <= cs@.len(),
{
    let mut j = i;
    while j < cs.len() && !at_exec(cs, j, pat)
        invariant
            i <= j <= cs@.len(),
            find_from(cs@, i as int, pat@) == find_from(cs@, j as int, pat@),
        decreases cs@.len() - j,
    {
        j = j + 1;
    }
    j
}

fn semi_exec(cs: &Vec<char>, i: usize) -> (r: Option<usize>)
    requires
        i <= cs@.len(),
    ensures
        match semi_within(cs@, i as int, 12) {
            Some(e) => r == Some(e as usize) && i <= e < cs@.len(),
            None => r is None,
        },
{
    let mut j = i;
    let mut n: usize = 12;
    while n > 0 && j < cs.len() && cs[j] != ';'
        invariant
            i <= j <= cs@.len(),
            n <= 12,
            semi_within(cs@, i as int, 12) == semi_within(cs@, j as int, n as nat),
        decreases n,
    {
        j = j + 1;
        n = n - 1;
    }
    if n > 0 && j < cs.len() {
        Some(j)
    } else {
        None
    }
}

/// `char::from_u32`: the character with this code point, for a Unicode
/// scalar value (at most `0x10FFFF`, not a surrogate), else none.
#[verifier::external_body]
fn char_from_code(n: u32) -> (r: Option<char>)
    ensures
        r == code_char(n as int),
{
    char::from_u32(n)
}

fn range_is(cs: &Vec<char>, a: usize, b: usize, lit: &[char]) -> (r: bool)
    requires
        a <= b <= cs@.len(),
    ensures
        r == (cs@.subrange(a as int, b as int) == lit@),
{
    if b - a != lit.len() {
        return false;
    }
    let r = at_exec(cs, a, lit);
    assert(r == (cs@.subrange(a as int, b as int) =~= lit@));
    r
}

fn digits_value(cs: &Vec<char>, a: usize, b: usize, base: u64, max: usize) -> (r: Option<u32>)
    requires
        a <= b <= cs@.len(),
        base == 10 || base == 16,
        max <= 7,
        base == 16 ==> max <= 6,
    ensures
        ({
            let d = cs@.subrange(a as int, b as int);
            let ok = 1 <= d.len() <= max && (forall|k: int| 0 <= k < d.len() ==> (if base == 16 {
                hex_digit(#[trigger] d[k])
            } else {
                dec_digit(d[k])
            }));
            &&& ok ==> r == Some(digits_in(d, base as int) as u32) && 0 <= digits_in(d, base as int) <= u32::MAX
            &&& !ok ==> r is None
        }),
{
    let ghost d = cs@.subrange(a as int, b as int);
    if b - a < 1 || b - a > max {
        return None;
    }
    let mut v: u64 = 0;
    let mut p: u64 = 1;
    let mut k = a;
    while k < b
        invariant
            a <= k <= b <= cs@.len(),
            b - a <= max,
            d == cs@.subrange(a as int, b as int),
            base == 10 || base == 16,
            max <= 7,
            base == 16 ==> max <= 6,
            v == digits_in(d.take((k - a) as int), base as int),
            v < p,
            p == pow_bound(base, (k - a) as nat),
            forall|m: int| 0 <= m < k - a ==> (if base == 16 {
                hex_digit(#[trigger] d[m])
            } else {
                dec_digit(d[m])
            }),
        decreases b - k,
    {
        let c = cs[k];
        let ok = if base == 16 {
            ('0' <= c && c <= '9') || ('a' <= c && c <= 'f') || ('A' <= c && c <= 'F')
        } else {
            '0' <= c && c <= '9'
        };
        if !ok {
            assert(d[(k - a) as int] == c);
            return None;
        }
        let dv: u64 = if '0' <= c && c <= '9' {
            (c as u64) - ('0' as u64)
        } else if 'a' <= c && c <= 'f' {
            (c as u64) - ('a' as u64) + 10
        } else {
            (c as u64) - ('A' as u64) + 10
        };
        proof {
            lemma_pow_bound_step(base, (k - a) as nat);
            assert(dv < base);
            assert(v * base + dv < p * base) by (nonlinear_arith)
                requires
                    v < p,
                    dv < base,
            ;
            assert(d.take((k - a) + 1).drop_last() =~= d.take((k - a) as int));
            assert(d.take((k - a) + 1).last() == c);
        }
        v = v * base + dv;
        p = p * base;
        k = k + 1;
    }
    assert(d.take((b - a) as int) =~= d);
    proof {
        lemma_pow_bound_max(base, (b - a) as nat);
    }
    Some(v as u32)
}

pub open spec fn pow_bound(base: u64, k: nat) -> int
    decreases k,
{
    if k == 0 {
        1
    } else {
        pow_bound(base, (k - 1) as nat) * base
    }
}

proof fn lemma_pow_bound_step(base: u64, k: nat)
    requires
        base == 10 || base == 16,
        k < 7,
    ensures
        pow_bound(base, k + 1) == pow_bound(base, k) * base,
        pow_bound(base, k + 1) <= 0x10000000,
{
    reveal_with_fuel(pow_bound, 8);
    lemma_pow_bound_mono(base, k + 1);
}

proof fn lemma_pow_bound_mono(base: u64, k: nat)
    requires
        base == 10 || base == 16,
        k <= 7,
    ensures
        1 <= pow_bound(base, k) <= pow_bound(base, 7),
        pow_bound(base, 7) <= 0x10000000,
    decreases 7 - k,
{
    reveal_with_fuel(pow_bound, 8);
    if k < 7 {
        lemma_pow_bound_mono(base, k + 1);
    }
}

proof fn lemma_pow_bound_max(base: u64, k: nat)
    requires
        base == 10 || base == 16,
        k <= 7,
        base == 16 ==> k <= 6,
    ensures
        pow_bound(base, k) <= 0x1000000,
    decreases 7 - k,
{
    reveal_with_fuel(pow_bound, 8);
}

fn entity_exec(cs: &Vec<char>, a: usize, b: usize) -> (r: Option<char>)
    requires
        a <= b <= cs@.len(),
    ensures
        r == entity_char(cs@.subrange(a as int, b as int)),
{
    let ghost e = cs@.subrange(a as int, b as int);
    let lt = ['l', 't'];
    let gt = ['g', 't'];
    let amp = ['a', 'm', 'p'];
    let quot = ['q', 'u', 'o', 't'];
    let apos = ['a', 'p', 'o', 's'];
    assert(lt@ =~= seq!['l', 't']);
    assert(gt@ =~= seq!['g', 't']);
    assert(amp@ =~= seq!['a', 'm', 'p']);
    assert(quot@ =~= seq!['q', 'u', 'o', 't']);
    assert(apos@ =~= seq!['a', 'p', 'o', 's']);
    if range_is(cs, a, b, &lt) {
        return Some('<');
    }
    if range_is(cs, a, b, &gt) {
        return Some('>');
    }
    if range_is(cs, a, b, &amp) {
        return Some('&');
    }
    if range_is(cs, a, b, &quot) {
        return Some('"');
    }
    if range_is(cs, a, b, &apos) {
        return Some('\'');
    }
    if b - a >= 2 && cs[a] == '#' && (cs[a + 1] == 'x' || cs[a + 1] == 'X') {
        assert(e[0] == cs@[a as int] && e[1] == cs@[a + 1]);
        assert(e.subrange(2, e.len() as int) =~= cs@.subrange(a + 2, b as int));
        assert(e != seq!['l', 't'] && e != seq!['g', 't'] && e != seq!['a', 'm', 'p']);
        assert(e != seq!['q', 'u', 'o', 't'] && e != seq!['a', 'p', 'o', 's']);
        match digits_value(cs, a + 2, b, 16, 6) {
            Some(n) => {
                assert(entity_char(e) == code_char(digits_in(cs@.subrange(a + 2, b as int), 16)));
                char_from_code(n)
            },
            None => None,
        }
    } else if b - a >= 1 && cs[a] == '#' {
        assert(e[0] == cs@[a as int]);
        assert(e.len() >= 2 ==> e[1] == cs@[a + 1]);
        assert(e.subrange(1, e.len() as int) =~= cs@.subrange(a + 1, b as int));
        assert(e != seq!['l', 't'] && e != seq!['g', 't'] && e != seq!['a', 'm', 'p']);
        assert(e != seq!['q', 'u', 'o', 't'] && e != seq!['a', 'p', 'o', 's']);
        match digits_value(cs, a + 1, b, 10, 7) {
            Some(n) => {
                assert(entity_char(e) == code_char(digits_in(cs@.subrange(a + 1, b as int), 10)));
                char_from_code(n)
            },
            None => None,
        }
    } else {
        proof {
            if e.len() >= 1 {
                assert(e[0] == cs@[a as int]);
            }
            if e.len() >= 2 {
                assert(e[1] == cs@[a + 1]);
            }
        }
        None
    }
}

/// Decodes characters from `i` into `acc` (see `chars_until`).
fn chars_until_exec(cs: &Vec<char>, i: usize, acc: String, quote: Option<char>) -> (r: Option<(String, usize)>)
    requires
        i <= cs@.len(),
    ensures
        match chars_until(cs@, i as int, acc@, quote) {
            Some((t, j)) => r matches Some((s, j2)) && j2 == j && s@ == t,
            None => r is None,
        },
        r matches Some((s, j)) ==> j <= cs@.len(),
{
    let ghost whole = chars_until(cs@, i as int, acc@, quote);
    let mut out = acc;
    let mut k = i;
    loop
        invariant
            i <= k <= cs@.len(),
            whole == chars_until(cs@, i as int, acc@, quote),
            whole == chars_until(cs@, k as int, out@, quote),
        decreases cs@.len() - k,
    {
        if k >= cs.len() {
            if quote.is_none() {
                return Some((out, k));
            }
            return None;
        }
        let c = cs[k];
        if quote.is_none() && c == '<' {
            return Some((out, k));
        }
        match quote {
            Some(q) => {
                if c == q {
                    return Some((out, k));
                }
            },
            None => {},
        }
        if c == '<' {
            return None;
        }
        if c == '&' {
            let e = match semi_exec(cs, k + 1) {
                Some(e) => e,
                None => {
                    return None;
                },
            };
            if e <= k || e >= cs.len() {
                return None;
            }
            let d = match entity_exec(cs, k + 1, e) {
                Some(d) => d,
                None => {
                    return None;
                },
            };
            assert(chars_until(cs@, k as int, out@, quote) == chars_until(cs@, e + 1, out@.push(d), quote));
            push_char(&mut out, d);
            k = e + 1;
        } else {
            assert(chars_until(cs@, k as int, out@, quote) == chars_until(cs@, k + 1, out@.push(c), quote));
            push_char(&mut out, c);
            k = k + 1;
        }
    }
}

/// The attributes of a tag from `i` on (see `tag_attrs`).
fn tag_attrs_exec(cs: &Vec<char>, i: usize) -> (r: Option<(Vec<(String, String)>, usize, bool)>)
    requires
        i <= cs@.len(),
    ensures
        match tag_attrs(cs@, i as int, Seq::empty()) {
            Some((at, j, empty)) => r matches Some((v, j2, e2)) && attrs_chars(v@) == at && j2 == j && e2 == empty,
            None => r is None,
        },
        r matches Some((v, j, e)) ==> j <= cs@.len(),
{
    let mut acc: Vec<(String, String)> = Vec::new();
    let ghost whole = tag_attrs(cs@, i as int, Seq::empty());
    let mut p = i;
    proof {
        assert(attrs_chars(acc@) =~= Seq::<CharAttr>::empty());
    }
    loop
        invariant
            i <= p <= cs@.len(),
            whole == tag_attrs(cs@, i as int, Seq::empty()),
            whole == tag_attrs(cs@, p as int, attrs_chars(acc@)),
        decreases cs@.len() - p,
    {
        let j = ws_end_exec(cs, p);
        if j >= cs.len() {
            return None;
        }
        if cs[j] == '>' {
            return Some((acc, j + 1, false));
        }
        if cs[j] == '/' {
            if j + 1 < cs.len() && cs[j + 1] == '>' {
                return Some((acc, j + 2, true));
            }
            return None;
        }
        if j == p {
            return None;
        }
        let ne = name_end_exec(cs, j);
        let k = ws_end_exec(cs, ne);
        if ne <= j || k >= cs.len() || cs[k] != '=' {
            return None;
        }
        let v = ws_end_exec(cs, k + 1);
        if v <= k || v >= cs.len() || (cs[v] != '"' && cs[v] != '\'') {
            return None;
        }
        let (val, e) = match chars_until_exec(cs, v + 1, String::new(), Some(cs[v])) {
            Some(r) => r,
            None => {
                return None;
            },
        };
        if e <= v || e >= cs.len() {
            return None;
        }
        let name = local_name_exec(cs, j, ne);
        let ghost before = attrs_chars(acc@);
        acc.push((name, val));
        proof {
            assert(attrs_chars(acc@) =~= before.push((local_name(cs@.subrange(j as int, ne as int)), val@)));
        }
        p = e + 1;
    }
}

fn ranges_equal(cs: &Vec<char>, a1: usize, b1: usize, a2: usize, b2: usize) -> (r: bool)
    requires
        a1 <= b1 <= cs@.len(),
        a2 <= b2 <= cs@.len(),
    ensures
        r == (cs@.subrange(a1 as int, b1 as int) == cs@.subrange(a2 as int, b2 as int)),
{
    if b1 - a1 != b2 - a2 {
        assert(cs@.subrange(a1 as int, b1 as int).len() != cs@.subrange(a2 as int, b2 as int).len());
        return false;
    }
    let mut k: usize = 0;
    while k < b1 - a1
        invariant
            a1 <= b1 <= cs@.len(),
            a2 <= b2 <= cs@.len(),
            b1 - a1 == b2 - a2,
            k <= b1 - a1,
            forall|m: int|
                0 <= m < k ==> #[trigger] cs@.subrange(a1 as int, b1 as int)[m] == cs@.subrange(a2 as int, b2 as int)[m],
        decreases b1 - a1 - k,
    {
        assert(cs@.subrange(a1 as int, b1 as int)[k as int] == cs@[a1 + k]);
        assert(cs@.subrange(a2 as int, b2 as int)[k as int] == cs@[a2 + k]);
        if cs[a1 + k] != cs[a2 + k] {
            return false;
        }
        k = k + 1;
    }
    assert(cs@.subrange(a1 as int, b1 as int) =~= cs@.subrange(a2 as int, b2 as int));
    true
}

proof fn lemma_nodes_chars_concat(a: Seq<XmlNode>, b: Seq<XmlNode>)
    ensures
        nodes_chars(a + b) == nodes_chars(a) + nodes_chars(b),
{
    assert(nodes_chars(a + b) =~= nodes_chars(a) + nodes_chars(b));
}

/// The element whose tag starts at `i` (see `element`).
fn element_exec(cs: &Vec<char>, i: usize, parent: usize, base: usize, depth: usize) -> (r: Option<(Vec<XmlNode>, usize)>)
    ensures
        match element(cs@, i as int, parent, base as int, depth as int) {
            Some((ns, e)) => r matches Some((v, e2)) && nodes_chars(v@) == ns && e2 == e,
            None => r is None,
        },
        r matches Some((v, e)) ==> e <= cs@.len(),
    decreases cs@.len() - i, 0int,
{
    if depth > MAX_XML_DEPTH || i >= cs.len() {
        return None;
    }
    let ne = name_end_exec(cs, i + 1);
    if ne <= i + 1 {
        return None;
    }
    let (attrs, j, empty) = match tag_attrs_exec(cs, ne) {
        Some(t) => t,
        None => {
            return None;
        },
    };
    if j <= i || j > cs.len() {
        return None;
    }
    let name = local_name_exec(cs, i + 1, ne);
    if empty {
        let node = XmlNode { parent: Some(parent), element: true, name, text: String::new(), attrs };
        let mut v: Vec<XmlNode> = Vec::new();
        v.push(node);
        assert(nodes_chars(v@) =~= seq![node_chars(node)]);
        return Some((v, j));
    }
    if base >= usize::MAX {
        return None;
    }
    let no_kids: Vec<XmlNode> = Vec::new();
    proof {
        assert(nodes_chars(no_kids@) =~= Seq::<CharNode>::empty());
    }
    let (text, mut kids, e) = match content_exec(cs, j, base, base + 1, String::new(), no_kids, i + 1, ne, depth) {
        Some(t) => t,
        None => {
            return None;
        },
    };
    let node = XmlNode { parent: Some(parent), element: true, name, text, attrs };
    let mut v: Vec<XmlNode> = Vec::new();
    v.push(node);
    let ghost first = v@;
    let ghost rest = kids@;
    v.append(&mut kids);
    proof {
        assert(nodes_chars(first) =~= seq![node_chars(node)]);
        lemma_nodes_chars_concat(first, rest);
    }
    Some((v, e))
}

/// The content of an element from `i` on (see `content`); its name is
/// `cs[qa..qb]`.
fn content_exec(
    cs: &Vec<char>,
    i: usize,
    me: usize,
    next: usize,
    text: String,
    kids: Vec<XmlNode>,
    qa: usize,
    qb: usize,
    depth: usize,
) -> (r: Option<(String, Vec<XmlNode>, usize)>)
    requires
        i <= cs@.len(),
        qa <= qb <= cs@.len(),
        depth <= MAX_XML_DEPTH,
    ensures
        match content(
            cs@,
            i as int,
            me as int,
            next as int,
            text@,
            nodes_chars(kids@),
            cs@.subrange(qa as int, qb as int),
            depth as int,
        ) {
            Some((t, ks, e)) => r matches Some((t2, k2, e2)) && t2@ == t && nodes_chars(k2@) == ks && e2 == e,
            None => r is None,
        },
        r matches Some((t, k, e)) ==> e <= cs@.len(),
    decreases cs@.len() - i, 1int,
{
    let ghost q = cs@.subrange(qa as int, qb as int);
    let ghost whole = content(cs@, i as int, me as int, next as int, text@, nodes_chars(kids@), q, depth as int);
    let close = ['<', '/'];
    let comment = ['<', '!', '-', '-'];
    let comment_end = ['-', '-', '>'];
    let cdata = ['<', '!', '[', 'C', 'D', 'A', 'T', 'A', '['];
    let cdata_end = [']', ']', '>'];
    let pi = ['<', '?'];
    let pi_end = ['?', '>'];
    assert(close@ =~= seq!['<', '/']);
    assert(comment@ =~= seq!['<', '!', '-', '-']);
    assert(comment_end@ =~= seq!['-', '-', '>']);
    assert(cdata@ =~= seq!['<', '!', '[', 'C', 'D', 'A', 'T', 'A', '[']);
    assert(cdata_end@ =~= seq![']', ']', '>']);
    assert(pi@ =~= seq!['<', '?']);
    assert(pi_end@ =~= seq!['?', '>']);
    let mut t = text;
    let mut ks = kids;
    let mut nx = next;
    let mut p = i;
    loop
        invariant
            i <= p <= cs@.len(),
            qa <= qb <= cs@.len(),
            depth <= MAX_XML_DEPTH,
            q == cs@.subrange(qa as int, qb as int),
            close@ == seq!['<', '/'],
            comment@ == seq!['<', '!', '-', '-'],
            comment_end@ == seq!['-', '-', '>'],
            cdata@ == seq!['<', '!', '[', 'C', 'D', 'A', 'T', 'A', '['],
            cdata_end@ == seq![']', ']', '>'],
            pi@ == seq!['<', '?'],
            pi_end@ == seq!['?', '>'],
            whole == content(cs@, i as int, me as int, next as int, text@, nodes_chars(kids@), q, depth as int),
            whole == content(cs@, p as int, me as int, nx as int, t@, nodes_chars(ks@), q, depth as int),
        decreases cs@.len() - p,
    {
        if p >= cs.len() {
            return None;
        }
        if cs[p] != '<' {
            let (t2, j) = match chars_until_exec(cs, p, t, None) {
                Some(r) => r,
                None => {
                    return None;
                },
            };
            if j <= p || j > cs.len() {
                return None;
            }
            t = t2;
            p = j;
        } else if at_exec(cs, p, &close) {
            let ne = name_end_exec(cs, p + 2);
            let k = ws_end_exec(cs, ne);
            if !ranges_equal(cs, p + 2, ne, qa, qb) || k >= cs.len() || cs[k] != '>' {
                return None;
            }
            return Some((t, ks, k + 1));
        } else if at_exec(cs, p, &comment) {
            let e = find_exec(cs, p + 4, &comment_end);
            if e < p || e > cs.len() - 3 {
                return None;
            }
            p = e + 3;
        } else if at_exec(cs, p, &cdata) {
            let e = find_exec(cs, p + 9, &cdata_end);
            if e < p + 9 || e > cs.len() - 3 {
                return None;
            }
            push_range(&mut t, cs, p + 9, e);
            p = e + 3;
        } else if at_exec(cs, p, &pi) {
            let e = find_exec(cs, p + 2, &pi_end);
            if e < p || e > cs.len() - 2 {
                return None;
            }
            p = e + 2;
        } else {
            let (mut ns, e) = match element_exec(cs, p, me, nx, depth + 1) {
                Some(r) => r,
                None => {
                    return None;
                },
            };
            if e <= p || e > cs.len() || ns.len() > usize::MAX - nx {
                return None;
            }
            let ghost before = ks@;
            let ghost added = ns@;
            nx = nx + ns.len();
            ks.append(&mut ns);
            proof {
                lemma_nodes_chars_concat(before, added);
            }
            p = e;
        }
    }
}

/// Where the white space, comments and processing instructions (and
/// declarations where `decl`) from `i` on end (see `misc`).
fn misc_exec(cs: &Vec<char>, i: usize, decl: bool) -> (r: usize)
    requires
        i <= cs@.len(),
    ensures
        r == misc(cs@, i as int, decl),
        r <= cs@.len(),
{
    let comment = ['<', '!', '-', '-'];
    let comment_end = ['-', '-', '>'];
    let pi = ['<', '?'];
    let pi_end = ['?', '>'];
    let bang = ['<', '!'];
    let gt = ['>'];
    assert(comment@ =~= seq!['<', '!', '-', '-']);
    assert(comment_end@ =~= seq!['-', '-', '>']);
    assert(pi@ =~= seq!['<', '?']);
    assert(pi_end@ =~= seq!['?', '>']);
    assert(bang@ =~= seq!['<', '!']);
    assert(gt@ =~= seq!['>']);
    let mut p = i;
    loop
        invariant
            i <= p <= cs@.len(),
            comment@ == seq!['<', '!', '-', '-'],
            comment_end@ == seq!['-', '-', '>'],
            pi@ == seq!['<', '?'],
            pi_end@ == seq!['?', '>'],
            bang@ == seq!['<', '!'],
            gt@ == seq!['>'],
            misc(cs@, i as int, decl) == misc(cs@, p as int, decl),
        decreases cs@.len() - p,
    {
        let j = ws_end_exec(cs, p);
        if j >= cs.len() {
            return j;
        }
        if at_exec(cs, j, &comment) {
            let e = find_exec(cs, j + 4, &comment_end);
            if e < j || e > cs.len() - 3 {
                return j;
            }
            p = e + 3;
        } else if at_exec(cs, j, &pi) {
            let e = find_exec(cs, j + 2, &pi_end);
            if e < j || e > cs.len() - 2 {
                return j;
            }
            p = e + 2;
        } else if decl && at_exec(cs, j, &bang) {
            let e = find_exec(cs, j + 2, &gt);
            if e < j || e > cs.len() - 1 {
                return j;
            }
            p = e + 1;
        } else {
            return j;
        }
    }
}

/// The characters of a string.
fn chars_of(text: &str) -> (r: Vec<char>)
    ensures
        r@ == text@,
{
    let mut out: Vec<char> = Vec::new();
    proof {
        broadcast use vstd::string::axiom_spec_iter;
    }
    for c in it: text.chars()
        invariant
            it.seq() == text@,
            out@ == it.seq().take(it.index() as int),
    {
        proof {
            assert(it.seq().take(it.index() + 1) =~= out@.push(c));
        }
        out.push(c);
    }
    out
}

/// Reads an XML document (see `spec_xml`): the document node, then its
/// elements in document order, each with its parent's position, local
/// name, text and attributes; nothing when the text is not a document.
pub fn parse_document(text: &str) -> (r: Option<Vec<XmlNode>>)
    ensures
        match spec_xml(text@) {
            Some(ns) => r matches Some(v) && nodes_chars(v@) == ns,
            None => r is None,
        },
{
    let cs = chars_of(text);
    let i = misc_exec(&cs, 0, true);
    if i >= cs.len() || cs[i] != '<' {
        return None;
    }
    let (mut ns, e) = match element_exec(&cs, i, 0, 1, 0) {
        Some(r) => r,
        None => {
            return None;
        },
    };
    if misc_exec(&cs, e, false) != cs.len() {
        return None;
    }
    let doc = XmlNode { parent: None, element: false, name: String::new(), text: String::new(), attrs: Vec::new() };
    let mut v: Vec<XmlNode> = Vec::new();
    v.push(doc);
    let ghost first = v@;
    let ghost rest = ns@;
    v.append(&mut ns);
    proof {
        assert(attrs_chars(doc.attrs@) =~= Seq::<CharAttr>::empty());
        assert(nodes_chars(first) =~= seq![(None::<usize>, false, Seq::<char>::empty(), Seq::<char>::empty(), Seq::<CharAttr>::empty())]);
        lemma_nodes_chars_concat(first, rest);
    }
    Some(v)
}

} // verus!
