use vstd::prelude::*;
use vstd::utf8::*;

verus! {

// ---------------------------------------------------------------------
// Byte sequences
// ---------------------------------------------------------------------

/// The first position of byte `x`.
pub open spec fn find_first(s: Seq<u8>, x: u8) -> Option<int>
    decreases s.len(),
{
    if s.len() == 0 {
        None
    } else if s[0] == x {
        Some(0)
    } else {
        match find_first(s.drop_first(), x) {
            Some(i) => Some(i + 1),
            None => None,
        }
    }
}

/// The last position of byte `x`.
pub open spec fn find_last(s: Seq<u8>, x: u8) -> Option<int>
    decreases s.len(),
{
    if s.len() == 0 {
        None
    } else if s.last() == x {
        Some(s.len() - 1)
    } else {
        find_last(s.drop_last(), x)
    }
}

/// How often byte `x` occurs.
pub open spec fn count_byte(s: Seq<u8>, x: u8) -> nat
    decreases s.len(),
{
    if s.len() == 0 {
        0
    } else {
        count_byte(s.drop_last(), x) + if s.last() == x {
            1nat
        } else {
            0nat
        }
    }
}

pub proof fn lemma_find_first(s: Seq<u8>, x: u8)
    ensures
        find_first(s, x) matches Some(i) ==> 0 <= i < s.len() && s[i] == x && forall|j: int|
            0 <= j < i ==> s[j] != x,
        find_first(s, x) is None ==> forall|j: int| 0 <= j < s.len() ==> s[j] != x,
    decreases s.len(),
{
    if s.len() > 0 {
        lemma_find_first(s.drop_first(), x);
        assert forall|j: int| 1 <= j < s.len() implies s.drop_first()[j - 1] == s[j] by {}
    }
}

pub proof fn lemma_find_first_at(s: Seq<u8>, x: u8, i: int)
    requires
        0 <= i < s.len(),
        s[i] == x,
        forall|j: int| 0 <= j < i ==> s[j] != x,
    ensures
        find_first(s, x) == Some(i),
    decreases s.len(),
{
    if i > 0 {
        lemma_find_first_at(s.drop_first(), x, i - 1);
    }
}

pub proof fn lemma_find_last(s: Seq<u8>, x: u8)
    ensures
        find_last(s, x) matches Some(i) ==> 0 <= i < s.len() && s[i] == x && forall|j: int|
            i < j < s.len() ==> s[j] != x,
        find_last(s, x) is None ==> forall|j: int| 0 <= j < s.len() ==> s[j] != x,
    decreases s.len(),
{
    if s.len() > 0 {
        lemma_find_last(s.drop_last(), x);
        assert forall|j: int| 0 <= j < s.len() - 1 implies s.drop_last()[j] == s[j] by {}
    }
}

/// The position of the first `x` in `s`.
pub fn find_byte(s: &[u8], x: u8) -> (r: Option<usize>)
    ensures
        r matches Some(i) ==> i < s@.len(),
        match find_first(s@, x) {
            Some(i) => r matches Some(j) && j as int == i,
            None => r is None,
        },
{
    let mut i: usize = 0;
    while i < s.len()
        invariant
            i <= s@.len(),
            forall|j: int| 0 <= j < i ==> s@[j] != x,
        decreases s@.len() - i,
    {
        if s[i] == x {
            proof {
                lemma_find_first_at(s@, x, i as int);
            }
            return Some(i);
        }
        i = i + 1;
    }
    proof {
        lemma_find_first(s@, x);
        if let Some(k) = find_first(s@, x) {
            assert(s@[k] == x);
        }
    }
    None
}

/// The position of the last `x` in `s`.
pub fn rfind_byte(s: &[u8], x: u8) -> (r: Option<usize>)
    ensures
        r matches Some(i) ==> i < s@.len(),
        match find_last(s@, x) {
            Some(i) => r matches Some(j) && j as int == i,
            None => r is None,
        },
{
    let mut i: usize = s.len();
    assert(s@.subrange(0, i as int) =~= s@);
    while i > 0
        invariant
            i <= s@.len(),
            find_last(s@, x) == find_last(s@.subrange(0, i as int), x),
        decreases i,
    {
        assert(s@.subrange(0, i as int).drop_last() =~= s@.subrange(0, i - 1));
        if s[i - 1] == x {
            return Some(i - 1);
        }
        i = i - 1;
    }
    None
}

/// How often `x` occurs in `s`.
pub fn count_bytes(s: &[u8], x: u8) -> (r: usize)
    ensures
        r == count_byte(s@, x),
{
    let mut n: usize = 0;
    let mut i: usize = 0;
    while i < s.len()
        invariant
            i <= s@.len(),
            n == count_byte(s@.subrange(0, i as int), x),
            n <= i,
        decreases s@.len() - i,
    {
        assert(s@.subrange(0, i + 1).drop_last() =~= s@.subrange(0, i as int));
        if s[i] == x {
            n = n + 1;
        }
        i = i + 1;
    }
    assert(s@.subrange(0, i as int) =~= s@);
    n
}

/// A copy of `s`.
pub fn bytes_to_vec(s: &[u8]) -> (r: Vec<u8>)
    ensures
        r@ == s@,
{
    let mut out: Vec<u8> = Vec::new();
    let mut i: usize = 0;
    while i < s.len()
        invariant
            i <= s@.len(),
            out@ == s@.subrange(0, i as int),
        decreases s@.len() - i,
    {
        out.push(s[i]);
        i = i + 1;
        assert(out@ =~= s@.subrange(0, i as int));
    }
    assert(out@ =~= s@);
    out
}

pub open spec fn is_ascii_digit(c: u8) -> bool {
    48 <= c <= 57
}

pub open spec fn is_ascii_hex(c: u8) -> bool {
    is_ascii_digit(c) || (97 <= c <= 102) || (65 <= c <= 70)
}

/// `char::is_ascii_control`.
pub open spec fn is_ascii_control(c: u8) -> bool {
    c < 32 || c == 127
}

/// `u8::is_ascii_whitespace`: space, tab, line feed, form feed, carriage
/// return.
pub open spec fn is_ascii_space(c: u8) -> bool {
    c == 32 || c == 9 || c == 10 || c == 12 || c == 13
}

/// The value of a string of decimal digits.
pub open spec fn decimal_value(s: Seq<u8>) -> nat
    decreases s.len(),
{
    if s.len() == 0 {
        0
    } else {
        decimal_value(s.drop_last()) * 10 + (s.last() - 48) as nat
    }
}

pub open spec fn all_decimal(s: Seq<u8>) -> bool {
    forall|i: int| 0 <= i < s.len() ==> is_ascii_digit(#[trigger] s[i])
}

/// `str::parse::<u16>`: an optional `+`, then one or more decimal digits
/// whose value fits in `u16`.
pub open spec fn spec_parse_u16(s: Seq<u8>) -> Option<u16> {
    let digits = if s.len() > 0 && s[0] == 43 {
        s.drop_first()
    } else {
        s
    };
    if digits.len() == 0 || !all_decimal(digits) || decimal_value(digits) > u16::MAX {
        None
    } else {
        Some(decimal_value(digits) as u16)
    }
}

proof fn lemma_decimal_value_monotone(s: Seq<u8>, k: int)
    requires
        0 <= k <= s.len(),
        all_decimal(s),
    ensures
        decimal_value(s.subrange(0, k)) <= decimal_value(s),
    decreases s.len() - k,
{
    if k < s.len() {
        lemma_decimal_value_monotone(s, k + 1);
        assert(s.subrange(0, k + 1).drop_last() =~= s.subrange(0, k));
    } else {
        assert(s.subrange(0, k) =~= s);
    }
}

/// Parses a port number as `str::parse::<u16>` does.
pub fn parse_u16(s: &[u8]) -> (r: Option<u16>)
    ensures
        r == spec_parse_u16(s@),
{
    let start: usize = if s.len() > 0 && s[0] == 43 {
        1
    } else {
        0
    };
    let ghost digits = if s@.len() > 0 && s@[0] == 43 {
        s@.drop_first()
    } else {
        s@
    };
    assert(digits =~= s@.subrange(start as int, s@.len() as int));
    if start == s.len() {
        return None;
    }
    let mut value: u32 = 0;
    let mut i: usize = start;
    while i < s.len()
        invariant
            start <= i <= s@.len(),
            digits == s@.subrange(start as int, s@.len() as int),
            digits == (if s@.len() > 0 && s@[0] == 43 {
                s@.drop_first()
            } else {
                s@
            }),
            digits.len() > 0,
            all_decimal(s@.subrange(start as int, i as int)),
            value == decimal_value(s@.subrange(start as int, i as int)),
            value <= 65535,
        decreases s@.len() - i,
    {
        let c = s[i];
        if c < 48 || c > 57 {
            assert(!is_ascii_digit(digits[i - start]));
            return None;
        }
        let next = value * 10 + (c - 48) as u32;
        assert(s@.subrange(start as int, i + 1).drop_last() =~= s@.subrange(start as int, i as int));
        if next > 65535 {
            proof {
                assert(all_decimal(s@.subrange(start as int, i + 1)));
                if all_decimal(digits) {
                    lemma_decimal_value_monotone(digits, i + 1 - start);
                    assert(digits.subrange(0, i + 1 - start) =~= s@.subrange(start as int, i + 1));
                }
            }
            return None;
        }
        value = next;
        i = i + 1;
    }
    assert(s@.subrange(start as int, i as int) =~= digits);
    Some(value as u16)
}

// ---------------------------------------------------------------------
// Text addresses
// ---------------------------------------------------------------------

/// One to four hexadecimal digits.
pub open spec fn hex_group(g: Seq<u8>) -> bool {
    &&& 1 <= g.len() <= 4
    &&& forall|i: int| 0 <= i < g.len() ==> is_ascii_hex(#[trigger] g[i])
}

/// A decimal IPv4 octet: one to three digits without a leading zero,
/// at most 255.
pub open spec fn ipv4_octet(g: Seq<u8>) -> bool {
    &&& 1 <= g.len() <= 3
    &&& all_decimal(g)
    &&& (g.len() == 1 || g[0] != 48)
    &&& decimal_value(g) <= 255
}

/// The number of `sep`-separated fields of `s` if each satisfies `field`.
pub open spec fn field_count(s: Seq<u8>, sep: u8, field: spec_fn(Seq<u8>) -> bool) -> Option<nat>
    decreases s.len(),
{
    match find_first(s, sep) {
        None => if field(s) {
            Some(1)
        } else {
            None
        },
        Some(p) => if 0 <= p < s.len() && field(s.subrange(0, p)) {
            match field_count(s.subrange(p + 1, s.len() as int), sep, field) {
                Some(k) => Some(k + 1),
                None => None,
            }
        } else {
            None
        },
    }
}

pub open spec fn hex_group_fn() -> spec_fn(Seq<u8>) -> bool {
    |g: Seq<u8>| hex_group(g)
}

pub open spec fn ipv4_octet_fn() -> spec_fn(Seq<u8>) -> bool {
    |g: Seq<u8>| ipv4_octet(g)
}

/// A dotted-quad IPv4 address as `Ipv4Addr::from_str` accepts it.
pub open spec fn ipv4_text(s: Seq<u8>) -> bool {
    field_count(s, 46, ipv4_octet_fn()) == Some(4nat)
}

/// The number of 16-bit groups written by `s`: colon-separated hex groups,
/// the last of which may be an IPv4 address counting for two.
pub open spec fn tail_groups(s: Seq<u8>) -> Option<nat> {
    match find_last(s, 58) {
        None => if ipv4_text(s) {
            Some(2)
        } else if hex_group(s) {
            Some(1)
        } else {
            None
        },
        Some(p) => if ipv4_text(s.subrange(p + 1, s.len() as int)) {
            match field_count(s.subrange(0, p), 58, hex_group_fn()) {
                Some(k) => Some(k + 2),
                None => None,
            }
        } else {
            field_count(s, 58, hex_group_fn())
        },
    }
}

/// The first `::` in `s`.
pub open spec fn find_double_colon(s: Seq<u8>) -> Option<int>
    decreases s.len(),
{
    if s.len() < 2 {
        None
    } else if s[0] == 58 && s[1] == 58 {
        Some(0)
    } else {
        match find_double_colon(s.drop_first()) {
            Some(i) => Some(i + 1),
            None => None,
        }
    }
}

/// An IPv6 address as `Ipv6Addr::from_str` accepts it: eight groups, or
/// fewer around one `::` standing for at least one zero group, with an
/// optional trailing IPv4 address.
pub open spec fn ipv6_text(s: Seq<u8>) -> bool {
    match find_double_colon(s) {
        None => tail_groups(s) == Some(8nat),
        Some(q) => {
            let l = s.subrange(0, q);
            let r = s.subrange(q + 2, s.len() as int);
            let lc = if l.len() == 0 {
                Some(0nat)
            } else {
                field_count(l, 58, hex_group_fn())
            };
            let rc = if r.len() == 0 {
                Some(0nat)
            } else {
                tail_groups(r)
            };
            lc is Some && rc is Some && lc.unwrap() + rc.unwrap() <= 7
        },
    }
}

fn is_hex_group(g: &[u8]) -> (r: bool)
    ensures
        r == hex_group(g@),
{
    if g.len() == 0 || g.len() > 4 {
        return false;
    }
    let mut i: usize = 0;
    while i < g.len()
        invariant
            i <= g@.len(),
            forall|j: int| 0 <= j < i ==> is_ascii_hex(#[trigger] g@[j]),
        decreases g@.len() - i,
    {
        let c = g[i];
        if !((48 <= c && c <= 57) || (97 <= c && c <= 102) || (65 <= c && c <= 70)) {
            return false;
        }
        i = i + 1;
    }
    true
}

fn is_ipv4_octet(g: &[u8]) -> (r: bool)
    ensures
        r == ipv4_octet(g@),
{
    if g.len() == 0 || g.len() > 3 {
        return false;
    }
    if g.len() > 1 && g[0] == 48 {
        return false;
    }
    let mut value: u32 = 0;
    let mut i: usize = 0;
    while i < g.len()
        invariant
            i <= g@.len(),
            g@.len() <= 3,
            all_decimal(g@.subrange(0, i as int)),
            value == decimal_value(g@.subrange(0, i as int)),
            i == 0 ==> value == 0,
            i <= 1 ==> value <= 9,
            i <= 2 ==> value <= 99,
            value <= 999,
        decreases g@.len() - i,
    {
        let c = g[i];
        if c < 48 || c > 57 {
            assert(!is_ascii_digit(g@[i as int]));
            return false;
        }
        assert(g@.subrange(0, i + 1).drop_last() =~= g@.subrange(0, i as int));
        value = value * 10 + (c - 48) as u32;
        i = i + 1;
    }
    assert(g@.subrange(0, i as int) =~= g@);
    value <= 255
}

} // verus!

verus! {

pub open spec fn add_count(o: Option<nat>, c: nat) -> Option<nat> {
    match o {
        Some(k) => Some(k + c),
        None => None,
    }
}

pub open spec fn field_kind(octets: bool) -> spec_fn(Seq<u8>) -> bool {
    if octets {
        ipv4_octet_fn()
    } else {
        hex_group_fn()
    }
}

/// The number of `sep`-separated IPv4 octets (`octets`) or hex groups in
/// `s`, if all are well formed.
fn count_fields(s: &[u8], sep: u8, octets: bool) -> (r: Option<usize>)
    ensures
        match field_count(s@, sep, field_kind(octets)) {
            Some(k) => r matches Some(x) && x as int == k && k <= s@.len(),
            None => r is None,
        },
{
    proof {
        lemma_field_count_nonempty(s@, sep, field_kind(octets));
    }
    let mut start: usize = 0;
    let mut count: usize = 0;
    assert(s@.subrange(0, s@.len() as int) =~= s@);
    while start <= s.len()
        invariant
            start <= s@.len(),
            count <= start,
            start <= s@.len() ==> field_count(s@, sep, field_kind(octets)) == add_count(
                field_count(s@.subrange(start as int, s@.len() as int), sep, field_kind(octets)),
                count as nat,
            ),
        decreases s@.len() + 1 - start,
    {
        let rest = &s[start..s.len()];
        assert(rest@ == s@.subrange(start as int, s@.len() as int));
        match find_byte(rest, sep) {
            None => {
                let ok = if octets {
                    is_ipv4_octet(rest)
                } else {
                    is_hex_group(rest)
                };
                if ok {
                    return Some(count + 1);
                } else {
                    return None;
                }
            },
            Some(p) => {
                proof {
                    lemma_find_first(rest@, sep);
                }
                let head = &rest[0..p];
                let ok = if octets {
                    is_ipv4_octet(head)
                } else {
                    is_hex_group(head)
                };
                if !ok {
                    return None;
                }
                assert(rest@.subrange(p + 1, rest@.len() as int) =~= s@.subrange(
                    start + p + 1,
                    s@.len() as int,
                ));
                count = count + 1;
                start = start + p + 1;
            },
        }
    }
    None
}

/// Whether `s` is an IPv4 address in dotted-quad form.
pub fn is_ipv4_text(s: &[u8]) -> (r: bool)
    ensures
        r == ipv4_text(s@),
{
    match count_fields(s, 46, true) {
        Some(k) => k == 4,
        None => false,
    }
}

fn count_tail_groups(s: &[u8]) -> (r: Option<usize>)
    ensures
        match tail_groups(s@) {
            Some(k) => r matches Some(x) && x as int == k,
            None => r is None,
        },
{
    match rfind_byte(s, 58) {
        None => {
            if is_ipv4_text(s) {
                Some(2)
            } else if is_hex_group(s) {
                Some(1)
            } else {
                None
            }
        },
        Some(p) => {
            proof {
                lemma_find_last(s@, 58);
            }
            let n = s.len();
            if is_ipv4_text(&s[p + 1..n]) {
                match count_fields(&s[0..p], 58, false) {
                    Some(k) => {
                        proof {
                            lemma_field_count_bound(s@.subrange(0, p as int), 58, hex_group_fn());
                        }
                        Some(k + 2)
                    },
                    None => None,
                }
            } else {
                count_fields(s, 58, false)
            }
        },
    }
}

proof fn lemma_field_count_nonempty(s: Seq<u8>, sep: u8, f: spec_fn(Seq<u8>) -> bool)
    requires
        forall|g: Seq<u8>| #[trigger] f(g) ==> g.len() >= 1,
    ensures
        field_count(s, sep, f) matches Some(k) ==> k <= s.len(),
    decreases s.len(),
{
    lemma_find_first(s, sep);
    if let Some(p) = find_first(s, sep) {
        lemma_field_count_nonempty(s.subrange(p + 1, s.len() as int), sep, f);
    }
}

proof fn lemma_field_count_bound(s: Seq<u8>, sep: u8, f: spec_fn(Seq<u8>) -> bool)
    ensures
        field_count(s, sep, f) matches Some(k) ==> k <= s.len() + 1,
    decreases s.len(),
{
    lemma_find_first(s, sep);
    if let Some(p) = find_first(s, sep) {
        lemma_field_count_bound(s.subrange(p + 1, s.len() as int), sep, f);
    }
}

proof fn lemma_find_double_colon(s: Seq<u8>)
    ensures
        find_double_colon(s) matches Some(q) ==> 0 <= q < s.len() - 1 && s[q] == 58 && s[q + 1]
            == 58 && forall|j: int| 0 <= j < q ==> !(#[trigger] s[j] == 58 && s[j + 1] == 58),
        find_double_colon(s) is None ==> forall|j: int|
            0 <= j < s.len() - 1 ==> !(#[trigger] s[j] == 58 && s[j + 1] == 58),
    decreases s.len(),
{
    if s.len() >= 2 {
        lemma_find_double_colon(s.drop_first());
        assert forall|j: int| 1 <= j < s.len() implies s.drop_first()[j - 1] == s[j] by {}
    }
}

proof fn lemma_find_double_colon_at(s: Seq<u8>, q: int)
    requires
        0 <= q < s.len() - 1,
        s[q] == 58 && s[q + 1] == 58,
        forall|j: int| 0 <= j < q ==> !(#[trigger] s[j] == 58 && s[j + 1] == 58),
    ensures
        find_double_colon(s) == Some(q),
    decreases s.len(),
{
    if q > 0 {
        lemma_find_double_colon_at(s.drop_first(), q - 1);
    }
}

fn find_double_colon_exec(s: &[u8]) -> (r: Option<usize>)
    ensures
        match find_double_colon(s@) {
            Some(q) => r matches Some(x) && x as int == q && q + 2 <= s@.len(),
            None => r is None,
        },
{
    let mut q: usize = 0;
    while q < s.len() && q + 1 < s.len()
        invariant
            q <= s@.len(),
            forall|j: int| 0 <= j < q && j + 1 < s@.len() ==> !(#[trigger] s@[j] == 58 && s@[j + 1] == 58),
        decreases s@.len() - q,
    {
        if s[q] == 58 && s[q + 1] == 58 {
            proof {
                lemma_find_double_colon_at(s@, q as int);
            }
            return Some(q);
        }
        q = q + 1;
    }
    proof {
        lemma_find_double_colon(s@);
        if let Some(x) = find_double_colon(s@) {
            assert(s@[x] == 58 && s@[x + 1] == 58);
        }
    }
    None
}

/// Whether `s` is an IPv6 address as `Ipv6Addr::from_str` accepts it.
pub fn is_ipv6_text(s: &[u8]) -> (r: bool)
    ensures
        r == ipv6_text(s@),
{
    let q = match find_double_colon_exec(s) {
        None => {
            return match count_tail_groups(s) {
                Some(k) => k == 8,
                None => false,
            };
        },
        Some(q) => q,
    };
    let n = s.len();
    let left = &s[0..q];
    let right = &s[q + 2..n];
    let lc = if left.len() == 0 {
        Some(0)
    } else {
        count_fields(left, 58, false)
    };
    let rc = if right.len() == 0 {
        Some(0)
    } else {
        count_tail_groups(right)
    };
    match (lc, rc) {
        (Some(a), Some(b)) => {
            proof {
                lemma_field_count_bound(left@, 58, hex_group_fn());
            }
            a <= 7 && b <= 7 && a + b <= 7
        },
        _ => false,
    }
}

} // verus!

verus! {

// ---------------------------------------------------------------------
// UTF-8 and strings
// ---------------------------------------------------------------------

/// Splitting valid UTF-8 around an ASCII byte leaves valid UTF-8 on both
/// sides.
pub proof fn lemma_split_at_ascii(bytes: Seq<u8>, p: int)
    requires
        valid_utf8(bytes),
        0 <= p < bytes.len(),
        bytes[p] < 128,
    ensures
        valid_utf8(bytes.subrange(0, p)),
        valid_utf8(bytes.subrange(p + 1, bytes.len() as int)),
{
    is_char_boundary_iff_not_is_continuation_byte(bytes, p);
    valid_utf8_split(bytes, p);
    let t = bytes.subrange(p, bytes.len() as int);
    assert(t[0] == bytes[p]);
    assert(pop_first_scalar(t) =~= bytes.subrange(p + 1, bytes.len() as int));
}

/// A slice of valid UTF-8 that starts at the beginning or after an ASCII
/// byte, and ends at the end or before an ASCII byte, is valid UTF-8.
pub proof fn lemma_ascii_delimited(bytes: Seq<u8>, a: int, b: int)
    requires
        valid_utf8(bytes),
        0 <= a <= b <= bytes.len(),
        a == 0 || bytes[a - 1] < 128,
        b == bytes.len() || bytes[b] < 128,
    ensures
        valid_utf8(bytes.subrange(a, b)),
{
    let suffix = bytes.subrange(a, bytes.len() as int);
    if a == 0 {
        assert(suffix =~= bytes);
    } else {
        lemma_split_at_ascii(bytes, a - 1);
        assert(bytes.subrange(a - 1 + 1, bytes.len() as int) =~= suffix);
    }
    if b == bytes.len() {
        assert(suffix =~= bytes.subrange(a, b));
    } else {
        assert(suffix[b - a] == bytes[b]);
        lemma_split_at_ascii(suffix, b - a);
        assert(suffix.subrange(0, b - a) =~= bytes.subrange(a, b));
    }
}

/// Builds a `String` with `String::from_utf8`, which accepts exactly the
/// valid UTF-8 byte vectors and keeps their bytes.
#[verifier::external_body]
pub fn string_from_utf8(bytes: Vec<u8>) -> (r: Option<String>)
    ensures
        r is Some <==> valid_utf8(bytes@),
        r matches Some(s) ==> encode_utf8(s@) == bytes@,
{
    String::from_utf8(bytes).ok()
}

/// The string whose UTF-8 encoding is `bytes`.
pub fn string_of(bytes: &[u8]) -> (r: String)
    requires
        valid_utf8(bytes@),
    ensures
        encode_utf8(r@) == bytes@,
{
    match string_from_utf8(bytes_to_vec(bytes)) {
        Some(s) => s,
        None => {
            assert(false);
            String::new()
        },
    }
}

/// The characters `char::is_whitespace` accepts: the Unicode `White_Space`
/// property.
pub open spec fn is_unicode_whitespace(c: char) -> bool {
    let u = c as u32;
    (9 <= u <= 13) || u == 32 || u == 0x85 || u == 0xa0 || u == 0x1680 || (0x2000 <= u <= 0x200a)
        || u == 0x2028 || u == 0x2029 || u == 0x202f || u == 0x205f || u == 0x3000
}

pub open spec fn trim_start_chars(s: Seq<char>) -> Seq<char>
    decreases s.len(),
{
    if s.len() > 0 && is_unicode_whitespace(s[0]) {
        trim_start_chars(s.drop_first())
    } else {
        s
    }
}

pub open spec fn trim_end_chars(s: Seq<char>) -> Seq<char>
    decreases s.len(),
{
    if s.len() > 0 && is_unicode_whitespace(s.last()) {
        trim_end_chars(s.drop_last())
    } else {
        s
    }
}

/// `s` without leading and trailing whitespace.
pub open spec fn trim_chars(s: Seq<char>) -> Seq<char> {
    trim_end_chars(trim_start_chars(s))
}

/// `str::trim`: the slice without leading and trailing characters of the
/// Unicode `White_Space` property.
#[verifier::external_body]
pub fn str_trim(s: &str) -> (r: &str)
    ensures
        r@ == trim_chars(s@),
{
    s.trim()
}

/// The UTF-8 bytes of a string slice, which are valid UTF-8.
pub fn str_bytes(s: &str) -> (r: &[u8])
    ensures
        r@ == encode_utf8(s@),
        valid_utf8(r@),
{
    proof {
        encode_utf8_valid_utf8(s@);
    }
    s.as_bytes()
}

} // verus!

verus! {

/// The characters of a string slice.
pub fn chars_vec(s: &str) -> (r: Vec<char>)
    ensures
        r@ == s@,
{
    broadcast use vstd::string::axiom_spec_iter;

    let mut out: Vec<char> = Vec::new();
    for c in it: s.chars()
        invariant
            it.seq() == s@,
            out@ == it.seq().take(it.index() as int),
    {
        out.push(c);
        assert(out@ =~= it.seq().take(it.index() as int + 1));
    }
    assert(out@ =~= s@);
    out
}

} // verus!
