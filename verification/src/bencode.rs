use vstd::prelude::*;
use vstd::utf8::*;

verus! {

/// Deepest nesting the decoder accepts; protects the call stack against
/// hostile inputs made of thousands of nested lists.
pub const MAX_DEPTH: usize = 512;

/// Number of values (dictionary keys included) one decode may produce.
pub const MAX_VALUES: usize = 262_144;

/// A decoded bencode value.
#[derive(Debug, PartialEq)]
pub enum Value {
    Int(i64),
    Bytes(Vec<u8>),
    List(Vec<Value>),
    Dict(Vec<(Vec<u8>, Value)>),
}

/// Why a byte string is not accepted as bencode, or why a value does not
/// fit the decoder's budgets.
#[derive(Debug, Clone, Copy, PartialEq, Eq, Structural)]
pub enum Error {
    UnexpectedEof,
    InvalidPrefix(u8),
    InvalidInt,
    InvalidLen,
    TrailingData,
    InvalidDictKey,
    InvalidDictOrder,
    DepthLimitExceeded,
    ValueLimitExceeded,
}

/// The mathematical model of a bencode value.
pub enum SpecValue {
    Int(int),
    Bytes(Seq<u8>),
    List(Seq<SpecValue>),
    Dict(Seq<(Seq<u8>, SpecValue)>),
}

// ---------------------------------------------------------------------
// The model of a value
// ---------------------------------------------------------------------

pub open spec fn value_view(v: Value) -> SpecValue
    decreases v, 0nat,
{
    match v {
        Value::Int(n) => SpecValue::Int(n as int),
        Value::Bytes(b) => SpecValue::Bytes(b@),
        Value::List(items) => SpecValue::List(list_view(items@)),
        Value::Dict(items) => SpecValue::Dict(entries_view(items@)),
    }
}

pub open spec fn list_view(s: Seq<Value>) -> Seq<SpecValue>
    decreases s, 0nat,
{
    if s.len() == 0 {
        seq![]
    } else {
        list_view(s.subrange(0, s.len() - 1)).push(value_view(s[s.len() - 1]))
    }
}

pub open spec fn entries_view(s: Seq<(Vec<u8>, Value)>) -> Seq<(Seq<u8>, SpecValue)>
    decreases s, 0nat,
{
    if s.len() == 0 {
        seq![]
    } else {
        entries_view(s.subrange(0, s.len() - 1)).push(
            (s[s.len() - 1].0@, value_view(s[s.len() - 1].1)),
        )
    }
}

impl Value {
    /// A copy of the value, equal to it in every part.
    #[verifier::loop_isolation(false)]
    pub fn deep_clone(&self) -> (r: Value)
        ensures
            r@ == self@,
        decreases self,
    {
        match self {
            Value::Int(n) => Value::Int(*n),
            Value::Bytes(b) => Value::Bytes(copy_bytes(b.as_slice())),
            Value::List(items) => {
                let mut out: Vec<Value> = Vec::new();
                let mut i: usize = 0;
                while i < items.len()
                    invariant
                        i <= items.len(),
                        list_view(out@) == list_view(items@.subrange(0, i as int)),
                    decreases items.len() - i,
                {
                    proof {
                        assert(decreases_to!(*self => *items));
                        assert(decreases_to!(*items => items@));
                        assert(decreases_to!(items@ => items@[i as int]));
                    }
                    let c = items[i].deep_clone();
                    proof {
                        lemma_list_view_push(out@, c);
                        lemma_list_view_push(items@.subrange(0, i as int), items@[i as int]);
                        assert(items@.subrange(0, i as int).push(items@[i as int]) =~= items@.subrange(0, i + 1));
                    }
                    out.push(c);
                    i = i + 1;
                }
                assert(items@.subrange(0, items@.len() as int) =~= items@);
                Value::List(out)
            },
            Value::Dict(items) => {
                let mut out: Vec<(Vec<u8>, Value)> = Vec::new();
                let mut i: usize = 0;
                while i < items.len()
                    invariant
                        i <= items.len(),
                        entries_view(out@) == entries_view(items@.subrange(0, i as int)),
                    decreases items.len() - i,
                {
                    proof {
                        assert(decreases_to!(*self => *items));
                        assert(decreases_to!(*items => items@));
                        assert(decreases_to!(items@ => items@[i as int]));
                        assert(decreases_to!(items@[i as int] => items@[i as int].1));
                    }
                    let k = copy_bytes(items[i].0.as_slice());
                    let c = items[i].1.deep_clone();
                    proof {
                        lemma_entries_view_push(out@, (k, c));
                        lemma_entries_view_push(items@.subrange(0, i as int), items@[i as int]);
                        assert(items@.subrange(0, i as int).push(items@[i as int]) =~= items@.subrange(0, i + 1));
                    }
                    out.push((k, c));
                    i = i + 1;
                }
                assert(items@.subrange(0, items@.len() as int) =~= items@);
                Value::Dict(out)
            },
        }
    }
}

impl Clone for Value {
    fn clone(&self) -> (r: Value)
        ensures
            r@ == self@,
    {
        self.deep_clone()
    }
}

/// A fresh vector holding the given bytes.
pub fn copy_bytes(b: &[u8]) -> (r: Vec<u8>)
    ensures
        r@ == b@,
{
    let mut out: Vec<u8> = Vec::new();
    let mut i: usize = 0;
    while i < b.len()
        invariant
            i <= b.len(),
            out@ == b@.subrange(0, i as int),
        decreases b.len() - i,
    {
        out.push(b[i]);
        i = i + 1;
    }
    out
}

impl View for Value {
    type V = SpecValue;

    open spec fn view(&self) -> SpecValue {
        value_view(*self)
    }
}

pub proof fn lemma_list_view_push(s: Seq<Value>, v: Value)
    ensures
        list_view(s.push(v)) == list_view(s).push(value_view(v)),
{
    assert(s.push(v).subrange(0, s.len() as int) =~= s);
}

pub proof fn lemma_entries_view_push(s: Seq<(Vec<u8>, Value)>, e: (Vec<u8>, Value))
    ensures
        entries_view(s.push(e)) == entries_view(s).push((e.0@, value_view(e.1))),
{
    assert(s.push(e).subrange(0, s.len() as int) =~= s);
}

pub proof fn lemma_list_view_index(s: Seq<Value>)
    ensures
        list_view(s).len() == s.len(),
        forall|i: int| 0 <= i < s.len() ==> #[trigger] list_view(s)[i] == value_view(s[i]),
    decreases s.len(),
{
    if s.len() > 0 {
        lemma_list_view_index(s.subrange(0, s.len() - 1));
    }
}

pub proof fn lemma_entries_view_index(s: Seq<(Vec<u8>, Value)>)
    ensures
        entries_view(s).len() == s.len(),
        forall|i: int|
            0 <= i < s.len() ==> #[trigger] entries_view(s)[i] == (s[i].0@, value_view(s[i].1)),
    decreases s.len(),
{
    if s.len() > 0 {
        lemma_entries_view_index(s.subrange(0, s.len() - 1));
    }
}

// ---------------------------------------------------------------------
// Decimal text of integers
// ---------------------------------------------------------------------

pub open spec fn is_digit_byte(b: u8) -> bool {
    48 <= b <= 57
}

/// The shortest decimal text of a natural number.
pub open spec fn decimal(n: nat) -> Seq<u8>
    decreases n,
{
    if n < 10 {
        seq![(48 + n) as u8]
    } else {
        decimal(n / 10).push((48 + n % 10) as u8)
    }
}

/// The shortest decimal text of an integer, with a leading minus sign for
/// negative numbers.
pub open spec fn decimal_int(n: int) -> Seq<u8> {
    if n < 0 {
        seq![45u8] + decimal((-n) as nat)
    } else {
        decimal(n as nat)
    }
}

/// The number a string of decimal digits denotes.
pub open spec fn digits_value(s: Seq<u8>) -> nat
    decreases s.len(),
{
    if s.len() == 0 {
        0
    } else {
        digits_value(s.drop_last()) * 10 + (s.last() - 48) as nat
    }
}

/// Whether the byte is an ASCII decimal digit.
pub fn is_digit(b: u8) -> (r: bool)
    ensures
        r == is_digit_byte(b),
{
    48 <= b && b <= 57
}

pub open spec fn all_digits(s: Seq<u8>) -> bool {
    forall|i: int| 0 <= i < s.len() ==> is_digit_byte(#[trigger] s[i])
}

/// A digit string without superfluous leading zeros.
pub open spec fn canonical_digits(s: Seq<u8>) -> bool {
    &&& s.len() > 0
    &&& all_digits(s)
    &&& (s.len() > 1 ==> s[0] != 48)
}

// ---------------------------------------------------------------------
// Byte-string order (the order of Rust slices of bytes)
// ---------------------------------------------------------------------

pub open spec fn lex_lt(a: Seq<u8>, b: Seq<u8>) -> bool
    decreases a.len(),
{
    if a.len() == 0 {
        b.len() > 0
    } else if b.len() == 0 {
        false
    } else if a[0] != b[0] {
        a[0] < b[0]
    } else {
        lex_lt(a.drop_first(), b.drop_first())
    }
}

pub open spec fn lex_le(a: Seq<u8>, b: Seq<u8>) -> bool {
    lex_lt(a, b) || a == b
}

pub proof fn lemma_lex_lt_irreflexive(a: Seq<u8>)
    ensures
        !lex_lt(a, a),
    decreases a.len(),
{
    if a.len() > 0 {
        lemma_lex_lt_irreflexive(a.drop_first());
    }
}

pub proof fn lemma_lex_trichotomy(a: Seq<u8>, b: Seq<u8>)
    ensures
        lex_lt(a, b) || lex_lt(b, a) || a == b,
        !(lex_lt(a, b) && lex_lt(b, a)),
    decreases a.len(),
{
    if a.len() > 0 && b.len() > 0 && a[0] == b[0] {
        lemma_lex_trichotomy(a.drop_first(), b.drop_first());
        if a.drop_first() == b.drop_first() {
            assert(a =~= seq![a[0]] + a.drop_first());
            assert(b =~= seq![b[0]] + b.drop_first());
        }
    }
    if a.len() == 0 && b.len() == 0 {
        assert(a =~= b);
    }
}

pub proof fn lemma_lex_lt_transitive(a: Seq<u8>, b: Seq<u8>, c: Seq<u8>)
    requires
        lex_lt(a, b),
        lex_lt(b, c),
    ensures
        lex_lt(a, c),
    decreases a.len(),
{
    if a.len() > 0 && b.len() > 0 && c.len() > 0 && a[0] == b[0] && b[0] == c[0] {
        lemma_lex_lt_transitive(a.drop_first(), b.drop_first(), c.drop_first());
    }
}

pub proof fn lemma_lex_le_transitive(a: Seq<u8>, b: Seq<u8>, c: Seq<u8>)
    requires
        lex_le(a, b),
        lex_le(b, c),
    ensures
        lex_le(a, c),
{
    if lex_lt(a, b) && lex_lt(b, c) {
        lemma_lex_lt_transitive(a, b, c);
    }
}

/// Compares two byte strings in the order of Rust slices.
pub fn bytes_lt(a: &[u8], b: &[u8]) -> (r: bool)
    ensures
        r == lex_lt(a@, b@),
{
    let mut i: usize = 0;
    assert(a@.subrange(0, a@.len() as int) =~= a@);
    assert(b@.subrange(0, b@.len() as int) =~= b@);
    while i < a.len() && i < b.len()
        invariant
            i <= a.len(),
            i <= b.len(),
            forall|j: int| 0 <= j < i ==> a@[j] == b@[j],
            lex_lt(a@, b@) == lex_lt(a@.subrange(i as int, a@.len() as int), b@.subrange(i as int, b@.len() as int)),
        decreases a.len() - i,
    {
        let x = a[i];
        let y = b[i];
        if x != y {
            return x < y;
        }
        proof {
            let sa = a@.subrange(i as int, a@.len() as int);
            let sb = b@.subrange(i as int, b@.len() as int);
            assert(sa.drop_first() =~= a@.subrange(i + 1, a@.len() as int));
            assert(sb.drop_first() =~= b@.subrange(i + 1, b@.len() as int));
        }
        i = i + 1;
    }
    i < b.len()
}

// ---------------------------------------------------------------------
// Encoding
// ---------------------------------------------------------------------

/// The keys of dictionary entries, in entry order.
pub open spec fn entry_keys(s: Seq<(Seq<u8>, SpecValue)>) -> Seq<Seq<u8>> {
    s.map_values(|e: (Seq<u8>, SpecValue)| e.0)
}

/// Where a stable insertion sort puts entry `k` into `order`, which lists
/// the entries before `k` already sorted: after the last entry whose key is
/// not greater than the key of `k`. The scan starts at position `p` and
/// moves towards the front.
pub open spec fn insert_pos(keys: Seq<Seq<u8>>, order: Seq<int>, k: int, p: int) -> int
    decreases p,
{
    if p <= 0 {
        0
    } else if lex_lt(keys[k], keys[order[p - 1]]) {
        insert_pos(keys, order, k, p - 1)
    } else {
        p
    }
}

proof fn lemma_insert_pos_bound(keys: Seq<Seq<u8>>, order: Seq<int>, k: int, p: int)
    requires
        0 <= p,
    ensures
        0 <= insert_pos(keys, order, k, p) <= p,
    decreases p,
{
    if p > 0 {
        lemma_insert_pos_bound(keys, order, k, p - 1);
    }
}

/// The order in which a stable sort by key lists the first `n` keys.
pub open spec fn stable_order(keys: Seq<Seq<u8>>, n: nat) -> Seq<int>
    decreases n,
{
    if n == 0 {
        seq![]
    } else {
        let o = stable_order(keys, (n - 1) as nat);
        o.insert(insert_pos(keys, o, n - 1, o.len() as int), n - 1)
    }
}

/// The order in which the encoder writes the entries of a dictionary:
/// sorted by key, entries with equal keys in the order they came.
pub open spec fn dict_order(s: Seq<(Seq<u8>, SpecValue)>) -> Seq<int> {
    stable_order(entry_keys(s), s.len())
}

/// The canonical bencode text of a value.
pub open spec fn spec_encode(v: SpecValue) -> Seq<u8>
    decreases v, 0nat,
{
    match v {
        SpecValue::Int(n) => seq![105u8] + decimal_int(n) + seq![101u8],
        SpecValue::Bytes(b) => decimal(b.len()) + seq![58u8] + b,
        SpecValue::List(items) => seq![108u8] + encode_seq(items) + seq![101u8],
        SpecValue::Dict(entries) => seq![100u8] + encode_entries(entries, dict_order(entries))
            + seq![101u8],
    }
}

/// The values of a list, encoded one after the other.
pub open spec fn encode_seq(s: Seq<SpecValue>) -> Seq<u8>
    decreases s, 0nat,
{
    if s.len() == 0 {
        seq![]
    } else {
        encode_seq(s.subrange(0, s.len() - 1)) + spec_encode(s[s.len() - 1])
    }
}

/// The entries of a dictionary, each key followed by its value, in the
/// given order.
pub open spec fn encode_entries(s: Seq<(Seq<u8>, SpecValue)>, order: Seq<int>) -> Seq<u8>
    decreases s, order.len(),
{
    if order.len() == 0 {
        seq![]
    } else {
        let j = order[order.len() - 1];
        let rest = encode_entries(s, order.subrange(0, order.len() - 1));
        if 0 <= j < s.len() {
            rest + decimal(s[j].0.len()) + seq![58u8] + s[j].0 + spec_encode(s[j].1)
        } else {
            rest
        }
    }
}

proof fn lemma_encode_seq_push(s: Seq<SpecValue>, v: SpecValue)
    ensures
        encode_seq(s.push(v)) == encode_seq(s) + spec_encode(v),
{
    assert(s.push(v).subrange(0, s.len() as int) =~= s);
}

pub proof fn lemma_encode_entries_push(s: Seq<(Seq<u8>, SpecValue)>, order: Seq<int>, j: int)
    requires
        0 <= j < s.len(),
    ensures
        encode_entries(s, order.push(j)) == encode_entries(s, order) + decimal(s[j].0.len())
            + seq![58u8] + s[j].0 + spec_encode(s[j].1),
{
    assert(order.push(j).subrange(0, order.len() as int) =~= order);
}

/// Appends the decimal text of `n`.
pub fn push_decimal(n: u64, out: &mut Vec<u8>)
    ensures
        final(out)@ == old(out)@ + decimal(n as nat),
    decreases n,
{
    if n >= 10 {
        push_decimal(n / 10, out);
    }
    out.push((48 + n % 10) as u8);
    proof {
        if n < 10 {
            assert(n % 10 == n);
        }
        assert(final(out)@ =~= old(out)@ + decimal(n as nat));
    }
}

/// Appends the decimal text of a signed integer.
pub fn push_decimal_i64(n: i64, out: &mut Vec<u8>)
    ensures
        final(out)@ == old(out)@ + decimal_int(n as int),
{
    if n < 0 {
        out.push(45u8);
        let m: i128 = -(n as i128);
        push_decimal(m as u64, out);
        assert(final(out)@ =~= old(out)@ + decimal_int(n as int));
    } else {
        push_decimal(n as u64, out);
    }
}

/// Appends the given bytes.
pub fn push_bytes(src: &[u8], out: &mut Vec<u8>)
    ensures
        final(out)@ == old(out)@ + src@,
{
    let ghost start = out@;
    let mut i: usize = 0;
    while i < src.len()
        invariant
            i <= src.len(),
            out@ == start + src@.subrange(0, i as int),
        decreases src.len() - i,
    {
        out.push(src[i]);
        i = i + 1;
        assert(out@ =~= start + src@.subrange(0, i as int));
    }
    assert(src@.subrange(0, src@.len() as int) =~= src@);
}

/// The position at which a stable insertion sort inserts entry `k` into
/// the sorted `order` of the entries before it.
fn find_insert_pos(items: &Vec<(Vec<u8>, Value)>, order: &Vec<usize>, k: usize) -> (r: usize)
    requires
        k < items.len(),
        forall|i: int| 0 <= i < order.len() ==> order@[i] < items.len(),
    ensures
        r <= order.len(),
        r as int == insert_pos(
            entry_keys(entries_view(items@)),
            order@.map_values(|x: usize| x as int),
            k as int,
            order@.len() as int,
        ),
{
    let ghost keys = entry_keys(entries_view(items@));
    let ghost o = order@.map_values(|x: usize| x as int);
    proof {
        lemma_entries_view_index(items@);
    }
    let mut p = order.len();
    proof {
        lemma_insert_pos_bound(keys, o, k as int, order@.len() as int);
    }
    while p > 0
        invariant
            p <= order.len(),
            k < items.len(),
            keys == entry_keys(entries_view(items@)),
            o == order@.map_values(|x: usize| x as int),
            entries_view(items@).len() == items@.len(),
            forall|i: int| 0 <= i < items@.len() ==> #[trigger] entries_view(items@)[i] == (items@[i].0@, value_view(items@[i].1)),
            forall|i: int| 0 <= i < order.len() ==> order@[i] < items.len(),
            insert_pos(keys, o, k as int, order@.len() as int) == insert_pos(keys, o, k as int, p as int),
            insert_pos(keys, o, k as int, order@.len() as int) <= order@.len(),
        decreases p,
    {
        let q = order[p - 1];
        let lt = bytes_lt(items[k].0.as_slice(), items[q].0.as_slice());
        proof {
            assert(keys[k as int] == items@[k as int].0@);
            assert(keys[o[p - 1]] == items@[q as int].0@);
        }
        if !lt {
            return p;
        }
        p = p - 1;
    }
    p
}

/// Appends the canonical bencode text of `value` to `out`. Dictionary
/// entries are written in key order; entries with equal keys keep their
/// relative order.
#[verifier::loop_isolation(false)]
#[verifier::spinoff_prover]
#[verifier::rlimit(40)]
pub fn encode_into(value: &Value, out: &mut Vec<u8>)
    ensures
        final(out)@ == old(out)@ + spec_encode(value@),
    decreases value,
{
    let ghost start = out@;
    match value {
        Value::Int(num) => {
            out.push(105u8);
            push_decimal_i64(*num, out);
            out.push(101u8);
            assert(out@ =~= start + spec_encode(value@));
        },
        Value::Bytes(bytes) => {
            push_decimal(bytes.len() as u64, out);
            out.push(58u8);
            push_bytes(bytes.as_slice(), out);
            assert(out@ =~= start + spec_encode(value@));
        },
        Value::List(items) => {
            out.push(108u8);
            let mut k: usize = 0;
            while k < items.len()
                invariant
                    k <= items.len(),
                    out@ == start + seq![108u8] + encode_seq(list_view(items@.subrange(0, k as int))),
                decreases items.len() - k,
            {
                proof {
                    assert(decreases_to!(*items => items@));
                    assert(decreases_to!(items@ => items@[k as int]));
                }
                encode_into(&items[k], out);
                proof {
                    lemma_list_view_push(items@.subrange(0, k as int), items@[k as int]);
                    assert(items@.subrange(0, k as int).push(items@[k as int]) =~= items@.subrange(0, k + 1));
                    lemma_encode_seq_push(list_view(items@.subrange(0, k as int)), value_view(items@[k as int]));
                }
                k = k + 1;
                assert(out@ =~= start + seq![108u8] + encode_seq(list_view(items@.subrange(0, k as int))));
            }
            out.push(101u8);
            assert(items@.subrange(0, items@.len() as int) =~= items@);
            assert(out@ =~= start + spec_encode(value@));
        },
        Value::Dict(items) => {
            out.push(100u8);
            let ghost es = entries_view(items@);
            let ghost keys = entry_keys(es);
            proof {
                lemma_entries_view_index(items@);
            }
            // A stable insertion sort of the entry positions by key.
            let mut order: Vec<usize> = Vec::new();
            let mut n: usize = 0;
            while n < items.len()
                invariant
                    n <= items.len(),
                    es == entries_view(items@),
                    keys == entry_keys(es),
                    es.len() == items@.len(),
                    order@.map_values(|x: usize| x as int) == stable_order(keys, n as nat),
                    forall|i: int| 0 <= i < order.len() ==> order@[i] < n,
                    order.len() == n,
                decreases items.len() - n,
            {
                let p = find_insert_pos(items, &order, n);
                let ghost o = order@;
                order.insert(p, n);
                proof {
                    assert(order@.map_values(|x: usize| x as int) =~= o.map_values(|x: usize| x as int).insert(p as int, n as int));
                    assert(entry_keys(entries_view(items@)) == keys);
                    assert(stable_order(keys, (n + 1) as nat) == o.map_values(|x: usize| x as int).insert(p as int, n as int));
                    assert forall|i: int| 0 <= i < order.len() implies order@[i] < n + 1 by {
                        if i < p {
                            assert(order@[i] == o[i]);
                        } else if i > p {
                            assert(order@[i] == o[i - 1]);
                        }
                    }
                }
                n = n + 1;
            }
            let mut k: usize = 0;
            while k < order.len()
                invariant
                    k <= order.len(),
                    order.len() == items.len(),
                    es == entries_view(items@),
                    es.len() == items@.len(),
                    forall|i: int| 0 <= i < items@.len() ==> #[trigger] es[i] == (items@[i].0@, value_view(items@[i].1)),
                    forall|i: int| 0 <= i < order.len() ==> order@[i] < items.len(),
                    out@ == start + seq![100u8] + encode_entries(es, order@.map_values(|x: usize| x as int).subrange(0, k as int)),
                decreases order.len() - k,
            {
                let j = order[k];
                let entry = &items[j];
                push_decimal(entry.0.len() as u64, out);
                out.push(58u8);
                push_bytes(entry.0.as_slice(), out);
                proof {
                    assert(decreases_to!(*items => items@));
                    assert(decreases_to!(items@ => items@[j as int]));
                    assert(decreases_to!(items@[j as int] => items@[j as int].1));
                }
                encode_into(&entry.1, out);
                proof {
                    let om = order@.map_values(|x: usize| x as int);
                    assert(om.subrange(0, k as int).push(j as int) =~= om.subrange(0, k + 1));
                    lemma_encode_entries_push(es, om.subrange(0, k as int), j as int);
                }
                k = k + 1;
                assert(out@ =~= start + seq![100u8] + encode_entries(es, order@.map_values(|x: usize| x as int).subrange(0, k as int)));
            }
            out.push(101u8);
            proof {
                let om = order@.map_values(|x: usize| x as int);
                assert(om.subrange(0, om.len() as int) =~= om);
                assert(dict_order(es) == om);
            }
            assert(out@ =~= start + spec_encode(value@));
        },
    }
}

/// The canonical bencode text of a value.
pub fn encode(value: &Value) -> (r: Vec<u8>)
    ensures
        r@ == spec_encode(value@),
{
    let mut out: Vec<u8> = Vec::new();
    encode_into(value, &mut out);
    assert(out@ =~= spec_encode(value@));
    out
}

// ---------------------------------------------------------------------
// Decoding
// ---------------------------------------------------------------------

/// The first position at or after `start` that holds byte `b`, or the
/// length of `data` when there is none.
pub open spec fn find_byte(data: Seq<u8>, start: int, b: u8) -> int
    decreases data.len() - start,
{
    if start >= data.len() {
        data.len() as int
    } else if data[start] == b {
        start
    } else {
        find_byte(data, start + 1, b)
    }
}

/// The first position at or after `start` that does not hold a digit, or
/// the length of `data` when there is none.
pub open spec fn digit_run_end(data: Seq<u8>, start: int) -> int
    decreases data.len() - start,
{
    if start >= data.len() {
        data.len() as int
    } else if !is_digit_byte(data[start]) {
        start
    } else {
        digit_run_end(data, start + 1)
    }
}

/// The integer texts bencode accepts: `0`, or digits without a leading zero,
/// optionally after a minus sign (so `-0` is refused).
pub open spec fn valid_int_text(t: Seq<u8>) -> bool {
    ||| t == seq![48u8]
    ||| (t.len() >= 1 && 49 <= t[0] <= 57 && all_digits(t))
    ||| (t.len() >= 2 && t[0] == 45 && 49 <= t[1] <= 57 && all_digits(t.drop_first()))
}

/// The number an accepted integer text denotes.
pub open spec fn int_text_value(t: Seq<u8>) -> int {
    if t.len() > 0 && t[0] == 45 {
        -(digits_value(t.drop_first()) as int)
    } else {
        digits_value(t) as int
    }
}

/// Decodes the integer whose `i` stands at `pos`; on success gives the
/// number and the position after its closing `e`.
pub open spec fn spec_parse_int(data: Seq<u8>, pos: int) -> Result<(int, int), Error> {
    let e = find_byte(data, pos + 1, 101u8);
    if e >= data.len() {
        Err(Error::UnexpectedEof)
    } else {
        let t = data.subrange(pos + 1, e);
        if !valid_int_text(t) {
            Err(Error::InvalidInt)
        } else {
            let v = int_text_value(t);
            if i64::MIN <= v <= i64::MAX {
                Ok((v, e + 1))
            } else {
                Err(Error::InvalidInt)
            }
        }
    }
}

/// Decodes the byte string whose length starts at `pos`; on success gives
/// the bytes and the position after them.
pub open spec fn spec_parse_bytes(data: Seq<u8>, pos: int) -> Result<(Seq<u8>, int), Error> {
    let i = digit_run_end(data, pos);
    if i == pos || i >= data.len() || data[i] != 58 {
        Err(Error::InvalidLen)
    } else {
        let t = data.subrange(pos, i);
        if t.len() > 1 && t[0] == 48 {
            Err(Error::InvalidLen)
        } else {
            let len = digits_value(t);
            if len > usize::MAX {
                Err(Error::InvalidLen)
            } else if i + 1 + len > usize::MAX {
                Err(Error::InvalidLen)
            } else if i + 1 + len > data.len() {
                Err(Error::UnexpectedEof)
            } else {
                Ok((data.subrange(i + 1, i + 1 + len), i + 1 + len))
            }
        }
    }
}

/// Decodes one value at `pos`, nested `depth` levels deep, with `rem`
/// values left in the budget. On success gives the value, the position
/// after it and the budget left.
pub open spec fn spec_parse_value(data: Seq<u8>, pos: int, depth: int, rem: int) -> Result<
    (SpecValue, int, int),
    Error,
>
    decreases rem, 0int,
{
    if depth > MAX_DEPTH {
        Err(Error::DepthLimitExceeded)
    } else if rem <= 0 {
        Err(Error::ValueLimitExceeded)
    } else if pos < 0 || pos >= data.len() {
        Err(Error::UnexpectedEof)
    } else {
        let c = data[pos];
        if c == 105 {
            match spec_parse_int(data, pos) {
                Ok((n, next)) => Ok((SpecValue::Int(n), next, rem - 1)),
                Err(e) => Err(e),
            }
        } else if c == 108 {
            spec_parse_list(data, pos + 1, depth, rem - 1, seq![])
        } else if c == 100 {
            spec_parse_dict(data, pos + 1, depth, rem - 1, seq![], None)
        } else if is_digit_byte(c) {
            match spec_parse_bytes(data, pos) {
                Ok((b, next)) => Ok((SpecValue::Bytes(b), next, rem - 1)),
                Err(e) => Err(e),
            }
        } else {
            Err(Error::InvalidPrefix(c))
        }
    }
}

/// Decodes the rest of a list whose items so far are `acc`, from `i` up to
/// and including its closing `e`.
pub open spec fn spec_parse_list(
    data: Seq<u8>,
    i: int,
    depth: int,
    rem: int,
    acc: Seq<SpecValue>,
) -> Result<(SpecValue, int, int), Error>
    decreases rem, 1int,
{
    if i < 0 || i >= data.len() {
        Err(Error::UnexpectedEof)
    } else if data[i] == 101 {
        Ok((SpecValue::List(acc), i + 1, rem))
    } else {
        match spec_parse_value(data, i, depth + 1, rem) {
            Err(e) => Err(e),
            Ok((v, next, rem2)) => {
                if 0 <= rem2 < rem {
                    spec_parse_list(data, next, depth, rem2, acc.push(v))
                } else {
                    Err(Error::ValueLimitExceeded)
                }
            },
        }
    }
}

/// Decodes the rest of a dictionary whose entries so far are `acc` and
/// whose last key is `prev`, from `i` up to and including its closing `e`.
/// Keys must be byte strings in strictly increasing order.
pub open spec fn spec_parse_dict(
    data: Seq<u8>,
    i: int,
    depth: int,
    rem: int,
    acc: Seq<(Seq<u8>, SpecValue)>,
    prev: Option<Seq<u8>>,
) -> Result<(SpecValue, int, int), Error>
    decreases rem, 1int,
{
    if i < 0 || i >= data.len() {
        Err(Error::UnexpectedEof)
    } else if data[i] == 101 {
        Ok((SpecValue::Dict(acc), i + 1, rem))
    } else {
        match spec_parse_value(data, i, depth + 1, rem) {
            Err(e) => Err(e),
            Ok((kv, next, rem2)) => match kv {
                SpecValue::Bytes(key) => {
                    if prev is Some && !lex_lt(prev->0, key) {
                        Err(Error::InvalidDictOrder)
                    } else if 0 <= rem2 < rem {
                        match spec_parse_value(data, next, depth + 1, rem2) {
                            Err(e) => Err(e),
                            Ok((v, next2, rem3)) => {
                                if 0 <= rem3 < rem2 {
                                    spec_parse_dict(
                                        data,
                                        next2,
                                        depth,
                                        rem3,
                                        acc.push((key, v)),
                                        Some(key),
                                    )
                                } else {
                                    Err(Error::ValueLimitExceeded)
                                }
                            },
                        }
                    } else {
                        Err(Error::ValueLimitExceeded)
                    }
                },
                _ => Err(Error::InvalidDictKey),
            },
        }
    }
}

/// Decodes a whole input that must hold exactly one value.
pub open spec fn spec_parse(data: Seq<u8>) -> Result<SpecValue, Error> {
    match spec_parse_value(data, 0, 0, MAX_VALUES as int) {
        Err(e) => Err(e),
        Ok((v, next, _)) => if next != data.len() {
            Err(Error::TrailingData)
        } else {
            Ok(v)
        },
    }
}

/// Every successful step consumes input and budget.
pub proof fn lemma_parse_value_progress(data: Seq<u8>, pos: int, depth: int, rem: int)
    ensures
        spec_parse_value(data, pos, depth, rem) matches Ok((v, next, rem2)) ==> pos < next
            <= data.len() && 0 <= rem2 < rem,
    decreases rem, 0int,
{
    if depth <= MAX_DEPTH && rem > 0 && 0 <= pos < data.len() {
        let c = data[pos];
        if c == 105 {
            lemma_find_byte_bounds(data, pos + 1, 101u8);
        } else if c == 108 {
            lemma_parse_list_progress(data, pos + 1, depth, rem - 1, seq![]);
        } else if c == 100 {
            lemma_parse_dict_progress(data, pos + 1, depth, rem - 1, seq![], None);
        } else if is_digit_byte(c) {
            lemma_digit_run_end_bounds(data, pos);
        }
    }
}

pub proof fn lemma_parse_list_progress(
    data: Seq<u8>,
    i: int,
    depth: int,
    rem: int,
    acc: Seq<SpecValue>,
)
    requires
        0 <= rem,
    ensures
        spec_parse_list(data, i, depth, rem, acc) matches Ok((v, next, rem2)) ==> i < next
            <= data.len() && 0 <= rem2 <= rem,
    decreases rem, 1int,
{
    if 0 <= i < data.len() && data[i] != 101 {
        lemma_parse_value_progress(data, i, depth + 1, rem);
        if let Ok((v, next, rem2)) = spec_parse_value(data, i, depth + 1, rem) {
            if 0 <= rem2 < rem {
                lemma_parse_list_progress(data, next, depth, rem2, acc.push(v));
            }
        }
    }
}

pub proof fn lemma_parse_dict_progress(
    data: Seq<u8>,
    i: int,
    depth: int,
    rem: int,
    acc: Seq<(Seq<u8>, SpecValue)>,
    prev: Option<Seq<u8>>,
)
    requires
        0 <= rem,
    ensures
        spec_parse_dict(data, i, depth, rem, acc, prev) matches Ok((v, next, rem2)) ==> i < next
            <= data.len() && 0 <= rem2 <= rem,
    decreases rem, 1int,
{
    if 0 <= i < data.len() && data[i] != 101 {
        lemma_parse_value_progress(data, i, depth + 1, rem);
        if let Ok((kv, next, rem2)) = spec_parse_value(data, i, depth + 1, rem) {
            if let SpecValue::Bytes(key) = kv {
                if 0 <= rem2 < rem {
                    lemma_parse_value_progress(data, next, depth + 1, rem2);
                    if let Ok((v, next2, rem3)) = spec_parse_value(data, next, depth + 1, rem2) {
                        if 0 <= rem3 < rem2 {
                            lemma_parse_dict_progress(
                                data,
                                next2,
                                depth,
                                rem3,
                                acc.push((key, v)),
                                Some(key),
                            );
                        }
                    }
                }
            }
        }
    }
}

pub proof fn lemma_find_byte_bounds(data: Seq<u8>, start: int, b: u8)
    requires
        0 <= start,
    ensures
        start <= find_byte(data, start, b) <= data.len() || (start > data.len() && find_byte(data, start, b) == data.len()),
        find_byte(data, start, b) < data.len() ==> data[find_byte(data, start, b)] == b,
        forall|j: int| start <= j < find_byte(data, start, b) ==> data[j] != b,
    decreases data.len() - start,
{
    if start < data.len() && data[start] != b {
        lemma_find_byte_bounds(data, start + 1, b);
    }
}

pub proof fn lemma_digit_run_end_bounds(data: Seq<u8>, start: int)
    requires
        0 <= start <= data.len(),
    ensures
        start <= digit_run_end(data, start) <= data.len(),
        digit_run_end(data, start) < data.len() ==> !is_digit_byte(data[digit_run_end(data, start)]),
        forall|j: int| start <= j < digit_run_end(data, start) ==> is_digit_byte(data[j]),
    decreases data.len() - start,
{
    if start < data.len() && is_digit_byte(data[start]) {
        lemma_digit_run_end_bounds(data, start + 1);
    }
}

proof fn lemma_digits_value_prefix_le(s: Seq<u8>, i: int)
    requires
        0 <= i <= s.len(),
    ensures
        digits_value(s.subrange(0, i)) <= digits_value(s),
    decreases s.len(),
{
    if i < s.len() {
        lemma_digits_value_prefix_le(s.drop_last(), i);
        assert(s.drop_last().subrange(0, i) =~= s.subrange(0, i));
    } else {
        assert(s.subrange(0, i) =~= s);
    }
}

proof fn lemma_digits_value_step(s: Seq<u8>, i: int)
    requires
        0 <= i < s.len(),
    ensures
        digits_value(s.subrange(0, i + 1)) == digits_value(s.subrange(0, i)) * 10 + (s[i] - 48) as nat,
{
    assert(s.subrange(0, i + 1).drop_last() =~= s.subrange(0, i));
}

/// Whether every byte is a decimal digit.
pub fn all_digits_exec(s: &[u8]) -> (r: bool)
    ensures
        r == all_digits(s@),
{
    let mut i: usize = 0;
    while i < s.len()
        invariant
            i <= s.len(),
            forall|j: int| 0 <= j < i ==> is_digit_byte(#[trigger] s@[j]),
        decreases s.len() - i,
    {
        if !is_digit(s[i]) {
            return false;
        }
        i = i + 1;
    }
    true
}

/// The number a digit string denotes, when it is at most `limit`.
pub fn digits_bounded(s: &[u8], limit: u64) -> (r: Option<u64>)
    requires
        all_digits(s@),
    ensures
        r matches Some(v) ==> v == digits_value(s@) && v <= limit,
        r is None ==> digits_value(s@) > limit,
{
    let mut acc: u128 = 0;
    let mut i: usize = 0;
    while i < s.len()
        invariant
            i <= s.len(),
            all_digits(s@),
            acc == digits_value(s@.subrange(0, i as int)),
            acc <= limit,
        decreases s.len() - i,
    {
        let d = s[i] - 48;
        proof {
            assert(is_digit_byte(s@[i as int]));
            lemma_digits_value_step(s@, i as int);
        }
        let next: u128 = acc * 10 + d as u128;
        if next > limit as u128 {
            proof {
                lemma_digits_value_prefix_le(s@, i + 1);
            }
            return None;
        }
        acc = next;
        i = i + 1;
    }
    assert(s@.subrange(0, s@.len() as int) =~= s@);
    Some(acc as u64)
}

/// Whether the text is an accepted integer text.
fn int_text_ok(t: &[u8]) -> (r: bool)
    ensures
        r == valid_int_text(t@),
{
    if t.len() == 1 && t[0] == 48 {
        assert(t@ =~= seq![48u8]);
        true
    } else if t.len() >= 1 && 49 <= t[0] && t[0] <= 57 {
        assert(t@ != seq![48u8]);
        all_digits_exec(t)
    } else if t.len() >= 2 && t[0] == 45 && 49 <= t[1] && t[1] <= 57 {
        assert(t@ != seq![48u8]);
        let rest = &t[1..t.len()];
        assert(rest@ =~= t@.drop_first());
        all_digits_exec(rest)
    } else {
        assert(t@ != seq![48u8]);
        false
    }
}

/// Decodes the integer whose `i` stands at `pos`.
pub fn parse_int(data: &[u8], pos: usize) -> (r: Result<(i64, usize), Error>)
    requires
        pos < data.len(),
    ensures
        match spec_parse_int(data@, pos as int) {
            Ok((n, next)) => r matches Ok((v, q)) && v as int == n && q as int == next,
            Err(e) => r == Err::<(i64, usize), Error>(e),
        },
{
    let mut i = pos + 1;
    proof {
        lemma_find_byte_bounds(data@, pos + 1, 101u8);
    }
    while i < data.len() && data[i] != 101
        invariant
            pos + 1 <= i <= data.len(),
            find_byte(data@, pos + 1, 101u8) == find_byte(data@, i as int, 101u8),
        decreases data.len() - i,
    {
        i = i + 1;
    }
    if i >= data.len() {
        return Err(Error::UnexpectedEof);
    }
    let t = &data[pos + 1..i];
    assert(t@ == data@.subrange(pos + 1, i as int));
    if !int_text_ok(t) {
        return Err(Error::InvalidInt);
    }
    if t[0] == 45 {
        let rest = &t[1..t.len()];
        assert(rest@ =~= t@.drop_first());
        match digits_bounded(rest, 9223372036854775808u64) {
            None => Err(Error::InvalidInt),
            Some(m) => {
                let v: i64 = if m == 9223372036854775808u64 {
                    i64::MIN
                } else {
                    -(m as i64)
                };
                Ok((v, i + 1))
            },
        }
    } else {
        match digits_bounded(t, 9223372036854775807u64) {
            None => Err(Error::InvalidInt),
            Some(m) => Ok((m as i64, i + 1)),
        }
    }
}

/// Decodes the byte string whose length starts at `pos`.
pub fn parse_bytes(data: &[u8], pos: usize) -> (r: Result<(Vec<u8>, usize), Error>)
    requires
        pos < data.len(),
    ensures
        match spec_parse_bytes(data@, pos as int) {
            Ok((b, next)) => r matches Ok((v, q)) && v@ == b && q as int == next,
            Err(e) => r == Err::<(Vec<u8>, usize), Error>(e),
        },
{
    let mut i = pos;
    proof {
        lemma_digit_run_end_bounds(data@, pos as int);
    }
    while i < data.len() && is_digit(data[i])
        invariant
            pos <= i <= data.len(),
            digit_run_end(data@, pos as int) == digit_run_end(data@, i as int),
            forall|j: int| pos <= j < i ==> is_digit_byte(data@[j]),
        decreases data.len() - i,
    {
        i = i + 1;
    }
    if i == pos || i >= data.len() || data[i] != 58 {
        return Err(Error::InvalidLen);
    }
    let t = &data[pos..i];
    assert(t@ == data@.subrange(pos as int, i as int));
    if t.len() > 1 && t[0] == 48 {
        return Err(Error::InvalidLen);
    }
    assert(all_digits(t@));
    let len = match digits_bounded(t, usize::MAX as u64) {
        None => {
            return Err(Error::InvalidLen);
        },
        Some(v) => v as usize,
    };
    let start = i + 1;
    if len > usize::MAX - start {
        return Err(Error::InvalidLen);
    }
    let end = start + len;
    if end > data.len() {
        return Err(Error::UnexpectedEof);
    }
    let b = copy_bytes(&data[start..end]);
    Ok((b, end))
}

/// Decodes one value at `pos` with the full budget.
pub fn parse_value(data: &[u8], pos: usize) -> (r: Result<(Value, usize), Error>)
    ensures
        match spec_parse_value(data@, pos as int, 0, MAX_VALUES as int) {
            Ok((v, next, _)) => r matches Ok((val, q)) && val@ == v && q as int == next,
            Err(e) => r == Err::<(Value, usize), Error>(e),
        },
{
    let mut remaining = MAX_VALUES;
    parse_value_with_depth(data, pos, 0, &mut remaining)
}

/// Decodes a whole input that must hold exactly one value.
pub fn parse(data: &[u8]) -> (r: Result<Value, Error>)
    ensures
        match spec_parse(data@) {
            Ok(v) => r matches Ok(val) && val@ == v,
            Err(e) => r == Err::<Value, Error>(e),
        },
{
    let (value, pos) = parse_value(data, 0)?;
    if pos != data.len() {
        return Err(Error::TrailingData);
    }
    Ok(value)
}

pub open spec fn opt_bytes_view(o: Option<Vec<u8>>) -> Option<Seq<u8>> {
    match o {
        Some(k) => Some(k@),
        None => None,
    }
}

/// Decodes one value at `pos`, `depth` levels deep, charging every value
/// (dictionary keys included) to `remaining`.
#[verifier::loop_isolation(false)]
pub fn parse_value_with_depth(
    data: &[u8],
    pos: usize,
    depth: usize,
    remaining: &mut usize,
) -> (r: Result<(Value, usize), Error>)
    ensures
        match spec_parse_value(data@, pos as int, depth as int, *old(remaining) as int) {
            Ok((v, next, rem)) => r matches Ok((val, q)) && val@ == v && q as int == next
                && *final(remaining) as int == rem,
            Err(e) => r == Err::<(Value, usize), Error>(e),
        },
    decreases *old(remaining),
{
    if depth > MAX_DEPTH {
        return Err(Error::DepthLimitExceeded);
    }
    if *remaining == 0 {
        return Err(Error::ValueLimitExceeded);
    }
    *remaining = *remaining - 1;
    if pos >= data.len() {
        return Err(Error::UnexpectedEof);
    }
    let c = data[pos];
    if c == 105 {
        let (value, next) = parse_int(data, pos)?;
        Ok((Value::Int(value), next))
    } else if c == 108 {
        let ghost rem0 = *remaining as int;
        let mut items: Vec<Value> = Vec::new();
        let mut i = pos + 1;
        while i < data.len() && data[i] != 101
            invariant
                pos < i <= data.len(),
                depth <= MAX_DEPTH,
                *remaining <= rem0,
                spec_parse_list(data@, pos + 1, depth as int, rem0, seq![]) == spec_parse_list(
                    data@,
                    i as int,
                    depth as int,
                    *remaining as int,
                    list_view(items@),
                ),
            decreases *remaining,
        {
            proof {
                lemma_parse_value_progress(data@, i as int, depth + 1, *remaining as int);
            }
            let ghost items_before = items@;
            let (value, next) = parse_value_with_depth(data, i, depth + 1, remaining)?;
            proof {
                lemma_list_view_push(items_before, value);
            }
            items.push(value);
            i = next;
        }
        if i >= data.len() {
            return Err(Error::UnexpectedEof);
        }
        Ok((Value::List(items), i + 1))
    } else if c == 100 {
        let ghost rem0 = *remaining as int;
        let mut items: Vec<(Vec<u8>, Value)> = Vec::new();
        let mut i = pos + 1;
        let mut previous_key: Option<Vec<u8>> = None;
        while i < data.len() && data[i] != 101
            invariant
                pos < i <= data.len(),
                depth <= MAX_DEPTH,
                *remaining <= rem0,
                spec_parse_dict(data@, pos + 1, depth as int, rem0, seq![], None)
                    == spec_parse_dict(
                    data@,
                    i as int,
                    depth as int,
                    *remaining as int,
                    entries_view(items@),
                    opt_bytes_view(previous_key),
                ),
            decreases *remaining,
        {
            proof {
                lemma_parse_value_progress(data@, i as int, depth + 1, *remaining as int);
            }
            let (key_value, next) = parse_value_with_depth(data, i, depth + 1, remaining)?;
            let key = match key_value {
                Value::Bytes(bytes) => bytes,
                _ => {
                    return Err(Error::InvalidDictKey);
                },
            };
            match &previous_key {
                Some(previous) => {
                    if !bytes_lt(previous.as_slice(), key.as_slice()) {
                        return Err(Error::InvalidDictOrder);
                    }
                },
                None => {},
            }
            proof {
                lemma_parse_value_progress(data@, next as int, depth + 1, *remaining as int);
            }
            let (value, next2) = parse_value_with_depth(data, next, depth + 1, remaining)?;
            let ghost items_before = items@;
            let key_copy = copy_bytes(key.as_slice());
            previous_key = Some(key_copy);
            proof {
                lemma_entries_view_push(items_before, (key, value));
            }
            items.push((key, value));
            i = next2;
        }
        if i >= data.len() {
            return Err(Error::UnexpectedEof);
        }
        Ok((Value::Dict(items), i + 1))
    } else if is_digit(c) {
        let (bytes, next) = parse_bytes(data, pos)?;
        Ok((Value::Bytes(bytes), next))
    } else {
        Err(Error::InvalidPrefix(c))
    }
}

// ---------------------------------------------------------------------
// Structure budgets of in-memory values
// ---------------------------------------------------------------------

/// Charges one value at `depth` to a budget of `rem` values.
pub open spec fn spec_slot(depth: int, rem: int) -> Result<int, Error> {
    if depth > MAX_DEPTH {
        Err(Error::DepthLimitExceeded)
    } else if rem <= 0 {
        Err(Error::ValueLimitExceeded)
    } else {
        Ok(rem - 1)
    }
}

/// Charges a value and, in pre-order, everything inside it, exactly as
/// the decoder does; gives the budget left.
pub open spec fn spec_validate(v: SpecValue, depth: int, rem: int) -> Result<int, Error>
    decreases v, 0nat,
{
    match spec_slot(depth, rem) {
        Err(e) => Err(e),
        Ok(r) => match v {
            SpecValue::Int(_) => Ok(r),
            SpecValue::Bytes(_) => Ok(r),
            SpecValue::List(items) => validate_seq(items, depth + 1, r),
            SpecValue::Dict(entries) => validate_entries(entries, depth + 1, r),
        },
    }
}

pub open spec fn validate_seq(s: Seq<SpecValue>, depth: int, rem: int) -> Result<int, Error>
    decreases s, 0nat,
{
    if s.len() == 0 {
        Ok(rem)
    } else {
        match validate_seq(s.subrange(0, s.len() - 1), depth, rem) {
            Err(e) => Err(e),
            Ok(r) => spec_validate(s[s.len() - 1], depth, r),
        }
    }
}

pub open spec fn validate_entries(s: Seq<(Seq<u8>, SpecValue)>, depth: int, rem: int) -> Result<
    int,
    Error,
>
    decreases s, 0nat,
{
    if s.len() == 0 {
        Ok(rem)
    } else {
        match validate_entries(s.subrange(0, s.len() - 1), depth, rem) {
            Err(e) => Err(e),
            Ok(r) => match spec_slot(depth, r) {
                Err(e) => Err(e),
                Ok(r2) => spec_validate(s[s.len() - 1].1, depth, r2),
            },
        }
    }
}

proof fn lemma_validate_seq_prefix_err(s: Seq<SpecValue>, k: int, depth: int, rem: int)
    requires
        0 <= k <= s.len(),
        validate_seq(s.subrange(0, k), depth, rem) is Err,
    ensures
        validate_seq(s, depth, rem) == validate_seq(s.subrange(0, k), depth, rem),
    decreases s.len(),
{
    if k == s.len() {
        assert(s.subrange(0, k) =~= s);
    } else {
        let t = s.subrange(0, s.len() - 1);
        assert(t.subrange(0, k) =~= s.subrange(0, k));
        lemma_validate_seq_prefix_err(t, k, depth, rem);
    }
}

proof fn lemma_validate_entries_prefix_err(
    s: Seq<(Seq<u8>, SpecValue)>,
    k: int,
    depth: int,
    rem: int,
)
    requires
        0 <= k <= s.len(),
        validate_entries(s.subrange(0, k), depth, rem) is Err,
    ensures
        validate_entries(s, depth, rem) == validate_entries(s.subrange(0, k), depth, rem),
    decreases s.len(),
{
    if k == s.len() {
        assert(s.subrange(0, k) =~= s);
    } else {
        let t = s.subrange(0, s.len() - 1);
        assert(t.subrange(0, k) =~= s.subrange(0, k));
        lemma_validate_entries_prefix_err(t, k, depth, rem);
    }
}

/// Charges one value at `depth` to the budget.
pub fn consume_structure_slot(depth: usize, remaining: &mut usize) -> (r: Result<(), Error>)
    ensures
        match spec_slot(depth as int, *old(remaining) as int) {
            Ok(rem) => r is Ok && *final(remaining) as int == rem,
            Err(e) => r == Err::<(), Error>(e),
        },
{
    if depth > MAX_DEPTH {
        return Err(Error::DepthLimitExceeded);
    }
    if *remaining == 0 {
        return Err(Error::ValueLimitExceeded);
    }
    *remaining = *remaining - 1;
    Ok(())
}

/// Checks a value against the decoder's budgets from `depth` on, charging
/// `remaining`.
#[verifier::loop_isolation(false)]
pub fn validate_structure_with_depth(
    value: &Value,
    depth: usize,
    remaining: &mut usize,
) -> (r: Result<(), Error>)
    ensures
        match spec_validate(value@, depth as int, *old(remaining) as int) {
            Ok(rem) => r is Ok && *final(remaining) as int == rem,
            Err(e) => r == Err::<(), Error>(e),
        },
    decreases value,
{
    consume_structure_slot(depth, remaining)?;
    match value {
        Value::Int(_) => Ok(()),
        Value::Bytes(_) => Ok(()),
        Value::List(items) => {
            let ghost r0 = *remaining as int;
            let mut k: usize = 0;
            while k < items.len()
                invariant
                    k <= items.len(),
                    depth <= MAX_DEPTH,
                    validate_seq(list_view(items@.subrange(0, k as int)), depth + 1, r0) == Ok::<
                        int,
                        Error,
                    >(*remaining as int),
                decreases items.len() - k,
            {
                proof {
                    assert(decreases_to!(*items => items@));
                    assert(decreases_to!(items@ => items@[k as int]));
                    lemma_list_view_push(items@.subrange(0, k as int), items@[k as int]);
                    assert(items@.subrange(0, k as int).push(items@[k as int]) =~= items@.subrange(0, k + 1));
                    let s = list_view(items@.subrange(0, k + 1));
                    assert(s.subrange(0, s.len() - 1) =~= list_view(items@.subrange(0, k as int)));
                }
                match validate_structure_with_depth(&items[k], depth + 1, remaining) {
                    Err(e) => {
                        proof {
                            lemma_list_view_index(items@);
                            assert(list_view(items@.subrange(0, k + 1)) =~= list_view(items@).subrange(0, k + 1)) by {
                                lemma_list_view_index(items@.subrange(0, k + 1));
                            }
                            assert(items@.subrange(0, items@.len() as int) =~= items@);
                            lemma_validate_seq_prefix_err(list_view(items@), k + 1, depth + 1, r0);
                        }
                        return Err(e);
                    },
                    Ok(()) => {},
                }
                k = k + 1;
            }
            assert(items@.subrange(0, items@.len() as int) =~= items@);
            Ok(())
        },
        Value::Dict(items) => {
            let ghost r0 = *remaining as int;
            let mut k: usize = 0;
            while k < items.len()
                invariant
                    k <= items.len(),
                    depth <= MAX_DEPTH,
                    validate_entries(entries_view(items@.subrange(0, k as int)), depth + 1, r0)
                        == Ok::<int, Error>(*remaining as int),
                decreases items.len() - k,
            {
                proof {
                    assert(decreases_to!(*items => items@));
                    assert(decreases_to!(items@ => items@[k as int]));
                    assert(decreases_to!(items@[k as int] => items@[k as int].1));
                    lemma_entries_view_push(items@.subrange(0, k as int), items@[k as int]);
                    assert(items@.subrange(0, k as int).push(items@[k as int]) =~= items@.subrange(0, k + 1));
                    let s = entries_view(items@.subrange(0, k + 1));
                    assert(s.subrange(0, s.len() - 1) =~= entries_view(items@.subrange(0, k as int)));
                }
                proof {
                    lemma_entries_view_index(items@);
                    assert(entries_view(items@.subrange(0, k + 1)) =~= entries_view(items@).subrange(0, k + 1)) by {
                        lemma_entries_view_index(items@.subrange(0, k + 1));
                    }
                }
                match consume_structure_slot(depth + 1, remaining) {
                    Err(e) => {
                        proof {
                            lemma_validate_entries_prefix_err(entries_view(items@), k + 1, depth + 1, r0);
                        }
                        return Err(e);
                    },
                    Ok(()) => {},
                }
                match validate_structure_with_depth(&items[k].1, depth + 1, remaining) {
                    Err(e) => {
                        proof {
                            lemma_validate_entries_prefix_err(entries_view(items@), k + 1, depth + 1, r0);
                        }
                        return Err(e);
                    },
                    Ok(()) => {},
                }
                k = k + 1;
            }
            assert(items@.subrange(0, items@.len() as int) =~= items@);
            Ok(())
        },
    }
}

/// Verifies that an in-memory value fits the same depth and value-count
/// budgets enforced by the decoder. Dictionary keys count as byte-string
/// values because the decoder accounts for them independently.
pub fn validate_structure(value: &Value) -> (r: Result<(), Error>)
    ensures
        match spec_validate(value@, 0, MAX_VALUES as int) {
            Ok(_) => r is Ok,
            Err(e) => r == Err::<(), Error>(e),
        },
{
    let mut remaining = MAX_VALUES;
    validate_structure_with_depth(value, 0, &mut remaining)
}

// ---------------------------------------------------------------------
// Canonical form: what the decoder accepts, the encoder writes back
// ---------------------------------------------------------------------

/// The positions 0, 1, ..., n - 1 in order.
pub open spec fn iota(n: int) -> Seq<int> {
    Seq::new(n as nat, |i: int| i)
}

/// Dictionary keys strictly increase from entry to entry.
pub open spec fn keys_increasing(s: Seq<(Seq<u8>, SpecValue)>) -> bool {
    forall|j: int| 0 <= j && j + 1 < s.len() ==> lex_lt(#[trigger] s[j].0, s[j + 1].0)
}

proof fn lemma_digits_value_pos(t: Seq<u8>)
    requires
        t.len() > 0,
        all_digits(t),
        t[0] != 48,
    ensures
        digits_value(t) > 0,
    decreases t.len(),
{
    if t.len() > 1 {
        assert(t.drop_last()[0] == t[0]);
        lemma_digits_value_pos(t.drop_last());
    } else {
        assert(is_digit_byte(t[0]));
    }
}

proof fn lemma_decimal_of_canonical(t: Seq<u8>)
    requires
        canonical_digits(t),
    ensures
        decimal(digits_value(t)) == t,
    decreases t.len(),
{
    assert(is_digit_byte(t[t.len() - 1]));
    let d = (t.last() - 48) as nat;
    if t.len() == 1 {
        assert(t.drop_last() =~= seq![]);
        assert(digits_value(t.drop_last()) == 0);
        assert(digits_value(t) == d);
        assert(decimal(d) =~= t);
    } else {
        let u = t.drop_last();
        assert(u[0] == t[0]);
        assert(canonical_digits(u));
        lemma_decimal_of_canonical(u);
        lemma_digits_value_pos(u);
        let x = digits_value(u);
        assert(digits_value(t) == x * 10 + d);
        assert((x * 10 + d) / 10 == x && (x * 10 + d) % 10 == d && x * 10 + d >= 10) by (nonlinear_arith)
            requires
                x > 0,
                d < 10,
        ;
        assert(decimal(digits_value(t)) == decimal(x).push((48 + d) as u8));
        assert(t =~= u.push(t.last()));
    }
}

proof fn lemma_int_text_canonical(t: Seq<u8>)
    requires
        valid_int_text(t),
    ensures
        decimal_int(int_text_value(t)) == t,
{
    if t == seq![48u8] {
        assert(digits_value(t.drop_last()) == 0) by {
            assert(t.drop_last() =~= seq![]);
        }
        assert(decimal(0) =~= t);
    } else if t.len() >= 1 && 49 <= t[0] <= 57 && all_digits(t) {
        lemma_decimal_of_canonical(t);
        assert(int_text_value(t) == digits_value(t) as int);
    } else {
        let u = t.drop_first();
        assert(u[0] == t[1]);
        lemma_decimal_of_canonical(u);
        lemma_digits_value_pos(u);
        assert(t =~= seq![45u8] + u);
    }
}

proof fn lemma_encode_entries_extend(
    s: Seq<(Seq<u8>, SpecValue)>,
    x: (Seq<u8>, SpecValue),
    order: Seq<int>,
)
    requires
        forall|i: int| 0 <= i < order.len() ==> 0 <= #[trigger] order[i] < s.len(),
    ensures
        encode_entries(s.push(x), order) == encode_entries(s, order),
    decreases order.len(),
{
    if order.len() > 0 {
        lemma_encode_entries_extend(s, x, order.subrange(0, order.len() - 1));
    }
}

proof fn lemma_encode_entries_iota_push(s: Seq<(Seq<u8>, SpecValue)>, x: (Seq<u8>, SpecValue))
    ensures
        encode_entries(s.push(x), iota(s.len() + 1 as int)) == encode_entries(s, iota(s.len() as int))
            + decimal(x.0.len()) + seq![58u8] + x.0 + spec_encode(x.1),
{
    let n = s.len() as int;
    assert(iota(n + 1).subrange(0, n) =~= iota(n));
    lemma_encode_entries_extend(s, x, iota(n));
}

proof fn lemma_stable_order_increasing(keys: Seq<Seq<u8>>, n: nat)
    requires
        n <= keys.len(),
        forall|j: int| 0 <= j && j + 1 < n ==> lex_lt(#[trigger] keys[j], keys[j + 1]),
    ensures
        stable_order(keys, n) == iota(n as int),
    decreases n,
{
    if n > 0 {
        lemma_stable_order_increasing(keys, (n - 1) as nat);
        let o = iota(n - 1);
        if n >= 2 {
            lemma_lex_trichotomy(keys[n - 2], keys[n - 1]);
            assert(o[n - 2] == n - 2);
            assert(!lex_lt(keys[n - 1], keys[o[n - 2]]));
        }
        assert(insert_pos(keys, o, n - 1, o.len() as int) == n - 1);
        assert(o.insert(n - 1, n - 1) =~= iota(n as int));
    }
}

pub proof fn lemma_dict_order_increasing(s: Seq<(Seq<u8>, SpecValue)>)
    requires
        keys_increasing(s),
    ensures
        dict_order(s) == iota(s.len() as int),
{
    let keys = entry_keys(s);
    assert forall|j: int| 0 <= j && j + 1 < s.len() implies lex_lt(#[trigger] keys[j], keys[j + 1]) by {
        assert(lex_lt(s[j].0, s[j + 1].0));
    }
    lemma_stable_order_increasing(keys, s.len());
}

/// What the decoder accepts is in canonical form: encoding the decoded
/// value gives back exactly the bytes it was decoded from.
pub proof fn lemma_parse_value_canonical(data: Seq<u8>, pos: int, depth: int, rem: int)
    ensures
        spec_parse_value(data, pos, depth, rem) matches Ok((v, next, _)) ==> spec_encode(v)
            == data.subrange(pos, next),
    decreases rem, 0int,
{
    if depth <= MAX_DEPTH && rem > 0 && 0 <= pos < data.len() {
        let c = data[pos];
        if c == 105 {
            lemma_find_byte_bounds(data, pos + 1, 101u8);
            if let Ok((n, next)) = spec_parse_int(data, pos) {
                let e = find_byte(data, pos + 1, 101u8);
                let t = data.subrange(pos + 1, e);
                lemma_int_text_canonical(t);
                assert(spec_encode(SpecValue::Int(n)) =~= data.subrange(pos, next));
            }
        } else if c == 108 {
            lemma_parse_list_canonical(data, pos + 1, depth, rem - 1, seq![]);
            if let Ok((v, next, _)) = spec_parse_list(data, pos + 1, depth, rem - 1, seq![]) {
                assert(encode_seq(seq![]) =~= seq![]);
                assert(spec_encode(v) =~= data.subrange(pos, next));
            }
        } else if c == 100 {
            lemma_parse_dict_canonical(data, pos + 1, depth, rem - 1, seq![], None);
            if let Ok((v, next, _)) = spec_parse_dict(data, pos + 1, depth, rem - 1, seq![], None) {
                let res = v->Dict_0;
                lemma_dict_order_increasing(res);
                assert(encode_entries(seq![], iota(0)) =~= seq![]);
                assert(spec_encode(v) =~= data.subrange(pos, next));
            }
        } else if is_digit_byte(c) {
            lemma_digit_run_end_bounds(data, pos);
            if let Ok((b, next)) = spec_parse_bytes(data, pos) {
                let i = digit_run_end(data, pos);
                let t = data.subrange(pos, i);
                assert(canonical_digits(t));
                lemma_decimal_of_canonical(t);
                assert(spec_encode(SpecValue::Bytes(b)) =~= data.subrange(pos, next));
            }
        }
    }
}

pub proof fn lemma_parse_list_canonical(
    data: Seq<u8>,
    i: int,
    depth: int,
    rem: int,
    acc: Seq<SpecValue>,
)
    requires
        0 <= rem,
    ensures
        spec_parse_list(data, i, depth, rem, acc) matches Ok((v, next, _)) ==> {
            &&& v is List
            &&& 0 <= i < next <= data.len()
            &&& data[next - 1] == 101
            &&& encode_seq(v->List_0) == encode_seq(acc) + data.subrange(i, next - 1)
        },
    decreases rem, 1int,
{
    if 0 <= i < data.len() && data[i] != 101 {
        lemma_parse_value_progress(data, i, depth + 1, rem);
        lemma_parse_value_canonical(data, i, depth + 1, rem);
        if let Ok((v, next1, rem2)) = spec_parse_value(data, i, depth + 1, rem) {
            if 0 <= rem2 < rem {
                lemma_parse_list_canonical(data, next1, depth, rem2, acc.push(v));
                lemma_encode_seq_push(acc, v);
                if let Ok((w, next, _)) = spec_parse_list(data, next1, depth, rem2, acc.push(v)) {
                    assert(data.subrange(i, next1) + data.subrange(next1, next - 1) =~= data.subrange(i, next - 1));
                }
            }
        }
    } else if 0 <= i < data.len() {
        assert(data.subrange(i, i) =~= seq![]);
    }
}

pub proof fn lemma_parse_dict_canonical(
    data: Seq<u8>,
    i: int,
    depth: int,
    rem: int,
    acc: Seq<(Seq<u8>, SpecValue)>,
    prev: Option<Seq<u8>>,
)
    requires
        0 <= rem,
        keys_increasing(acc),
        (acc.len() == 0 && prev is None) || (acc.len() > 0 && prev == Some(acc[acc.len() - 1].0)),
    ensures
        spec_parse_dict(data, i, depth, rem, acc, prev) matches Ok((v, next, _)) ==> {
            &&& v is Dict
            &&& keys_increasing(v->Dict_0)
            &&& 0 <= i < next <= data.len()
            &&& data[next - 1] == 101
            &&& encode_entries(v->Dict_0, iota(v->Dict_0.len() as int)) == encode_entries(
                acc,
                iota(acc.len() as int),
            ) + data.subrange(i, next - 1)
        },
    decreases rem, 1int,
{
    if 0 <= i < data.len() && data[i] != 101 {
        lemma_parse_value_progress(data, i, depth + 1, rem);
        lemma_parse_value_canonical(data, i, depth + 1, rem);
        if let Ok((kv, next1, rem2)) = spec_parse_value(data, i, depth + 1, rem) {
            if let SpecValue::Bytes(key) = kv {
                if !(prev is Some && !lex_lt(prev->0, key)) && 0 <= rem2 < rem {
                    lemma_parse_value_progress(data, next1, depth + 1, rem2);
                    lemma_parse_value_canonical(data, next1, depth + 1, rem2);
                    if let Ok((v, next2, rem3)) = spec_parse_value(data, next1, depth + 1, rem2) {
                        if 0 <= rem3 < rem2 {
                            let acc2 = acc.push((key, v));
                            assert(keys_increasing(acc2)) by {
                                assert forall|j: int| 0 <= j && j + 1 < acc2.len() implies lex_lt(
                                    #[trigger] acc2[j].0,
                                    acc2[j + 1].0,
                                ) by {
                                    if j + 1 < acc.len() {
                                        assert(lex_lt(acc[j].0, acc[j + 1].0));
                                    }
                                }
                            }
                            lemma_parse_dict_canonical(data, next2, depth, rem3, acc2, Some(key));
                            lemma_encode_entries_iota_push(acc, (key, v));
                            if let Ok((w, next, _)) = spec_parse_dict(data, next2, depth, rem3, acc2, Some(key)) {
                                assert(spec_encode(kv) == decimal(key.len()) + seq![58u8] + key);
                                assert(data.subrange(i, next1) + data.subrange(next1, next2) + data.subrange(next2, next - 1) =~= data.subrange(i, next - 1));
                                assert(decimal(key.len()) + seq![58u8] + key + spec_encode(v) + data.subrange(next2, next - 1) =~= data.subrange(i, next - 1));
                            }
                        }
                    }
                }
            }
        }
    } else if 0 <= i < data.len() {
        assert(data.subrange(i, i) =~= seq![]);
    }
}

/// A whole input the decoder accepts is exactly the encoding of the value
/// it decodes to, so encoding and decoding again gives the same value.
pub proof fn lemma_parse_encode_roundtrip(data: Seq<u8>)
    requires
        spec_parse(data) is Ok,
    ensures
        spec_encode(spec_parse(data)->Ok_0) == data,
        spec_parse(spec_encode(spec_parse(data)->Ok_0)) == spec_parse(data),
{
    lemma_parse_value_canonical(data, 0, 0, MAX_VALUES as int);
    assert(data.subrange(0, data.len() as int) =~= data);
}

} // verus!

verus! {

/// A lower-case hexadecimal digit.
pub open spec fn hex_digit_char(d: int) -> char {
    if d < 10 {
        (48 + d) as char
    } else {
        (87 + d) as char
    }
}

/// The text that describes each error.
pub open spec fn error_text(e: Error) -> Seq<char> {
    match e {
        Error::UnexpectedEof => "unexpected end of input"@,
        Error::InvalidPrefix(b) => "invalid prefix byte: 0x"@ + seq![
            hex_digit_char((b / 16) as int),
            hex_digit_char((b % 16) as int),
        ],
        Error::InvalidInt => "invalid integer"@,
        Error::InvalidLen => "invalid byte string length"@,
        Error::TrailingData => "trailing data"@,
        Error::InvalidDictKey => "invalid dict key"@,
        Error::InvalidDictOrder => "dictionary keys are not in strictly increasing order"@,
        Error::DepthLimitExceeded => "bencode nesting limit exceeded"@,
        Error::ValueLimitExceeded => "bencode value count limit exceeded"@,
    }
}

impl Error {
    /// The text that describes the error (see `error_text`).
    pub fn message(&self) -> (r: String)
        ensures
            r@ == error_text(*self),
    {
        match self {
            Error::UnexpectedEof => "unexpected end of input".to_string(),
            Error::InvalidPrefix(b) => {
                let hi = *b / 16;
                let lo = *b % 16;
                let prefix: [u8; 23] = [
                    105, 110, 118, 97, 108, 105, 100, 32, 112, 114, 101, 102, 105, 120, 32, 98, 121, 116,
                    101, 58, 32, 48, 120,
                ];
                let mut v: Vec<u8> = Vec::new();
                crate::http::push_all(&mut v, prefix.as_slice());
                v.push(if hi < 10 {
                    48 + hi
                } else {
                    87 + hi
                });
                v.push(if lo < 10 {
                    48 + lo
                } else {
                    87 + lo
                });
                proof {
                    reveal_strlit("invalid prefix byte: 0x");
                    let target = "invalid prefix byte: 0x"@ + seq![
                        hex_digit_char((*b / 16) as int),
                        hex_digit_char((*b % 16) as int),
                    ];
                    assert forall|i: int| 0 <= i < target.len() implies (#[trigger] target[i]) as u32
                        <= 127 by {}
                    crate::http::lemma_ascii_encode(target);
                    assert(encode_utf8(target) =~= v@);
                    encode_utf8_valid_utf8(target);
                    encode_utf8_decode_utf8(target);
                }
                let r = crate::text::string_of(v.as_slice());
                proof {
                    encode_utf8_decode_utf8(r@);
                }
                r
            },
            Error::InvalidInt => "invalid integer".to_string(),
            Error::InvalidLen => "invalid byte string length".to_string(),
            Error::TrailingData => "trailing data".to_string(),
            Error::InvalidDictKey => "invalid dict key".to_string(),
            Error::InvalidDictOrder => "dictionary keys are not in strictly increasing order".to_string(),
            Error::DepthLimitExceeded => "bencode nesting limit exceeded".to_string(),
            Error::ValueLimitExceeded => "bencode value count limit exceeded".to_string(),
        }
    }
}

} // verus!

verus! {

// ---------------------------------------------------------------------
// Decoding what the encoder wrote
// ---------------------------------------------------------------------

/// A value the encoder writes and the decoder reads back unchanged: every
/// integer fits an `i64` and every dictionary lists its keys in strictly
/// increasing order.
pub open spec fn canonical_value(v: SpecValue) -> bool
    decreases v, 0nat,
{
    match v {
        SpecValue::Int(n) => i64::MIN <= n <= i64::MAX,
        SpecValue::Bytes(_) => true,
        SpecValue::List(items) => canonical_seq(items),
        SpecValue::Dict(entries) => keys_increasing(entries) && canonical_entries(entries),
    }
}

pub open spec fn canonical_seq(s: Seq<SpecValue>) -> bool
    decreases s, 0nat,
{
    if s.len() == 0 {
        true
    } else {
        canonical_seq(s.subrange(0, s.len() - 1)) && canonical_value(s[s.len() - 1])
    }
}

pub open spec fn canonical_entries(s: Seq<(Seq<u8>, SpecValue)>) -> bool
    decreases s, 0nat,
{
    if s.len() == 0 {
        true
    } else {
        canonical_entries(s.subrange(0, s.len() - 1)) && canonical_value(s[s.len() - 1].1)
    }
}

proof fn lemma_canonical_seq_index(s: Seq<SpecValue>, k: int)
    requires
        canonical_seq(s),
        0 <= k < s.len(),
    ensures
        canonical_value(s[k]),
    decreases s.len(),
{
    if k < s.len() - 1 {
        let t = s.subrange(0, s.len() - 1);
        lemma_canonical_seq_index(t, k);
        assert(t[k] == s[k]);
    }
}

proof fn lemma_canonical_entries_index(s: Seq<(Seq<u8>, SpecValue)>, k: int)
    requires
        canonical_entries(s),
        0 <= k < s.len(),
    ensures
        canonical_value(s[k].1),
    decreases s.len(),
{
    if k < s.len() - 1 {
        let t = s.subrange(0, s.len() - 1);
        lemma_canonical_entries_index(t, k);
        assert(t[k] == s[k]);
    }
}

proof fn lemma_decimal_text(n: nat)
    ensures
        canonical_digits(decimal(n)),
        digits_value(decimal(n)) == n,
        n > 0 ==> decimal(n)[0] != 48,
    decreases n,
{
    if n >= 10 {
        let m = n / 10;
        lemma_decimal_text(m);
        let d = decimal(m);
        let t = decimal(n);
        assert(t == d.push((48 + n % 10) as u8));
        assert(t.drop_last() =~= d);
        assert(t[0] == d[0]);
        assert(m > 0);
        assert(t.last() == (48 + n % 10) as u8);
        assert(digits_value(t) == digits_value(d) * 10 + (n % 10));
        assert(m * 10 + n % 10 == n);
    } else {
        let t = decimal(n);
        assert(t.drop_last() =~= seq![]);
        assert(t.last() == (48 + n) as u8);
        assert(digits_value(t) == digits_value(t.drop_last()) * 10 + n);
    }
}

proof fn lemma_decimal_int_text(n: int)
    ensures
        valid_int_text(decimal_int(n)),
        int_text_value(decimal_int(n)) == n,
        forall|j: int| 0 <= j < decimal_int(n).len() ==> #[trigger] decimal_int(n)[j] != 101u8,
{
    if n < 0 {
        let m = (-n) as nat;
        lemma_decimal_text(m);
        let t = decimal_int(n);
        assert(t.drop_first() =~= decimal(m));
        assert(t[1] == decimal(m)[0]);
        assert(is_digit_byte(decimal(m)[0]));
        assert forall|j: int| 0 <= j < t.len() implies #[trigger] t[j] != 101u8 by {
            if j > 0 {
                assert(t[j] == decimal(m)[j - 1]);
                assert(is_digit_byte(decimal(m)[j - 1]));
            }
        }
    } else {
        lemma_decimal_text(n as nat);
        let t = decimal(n as nat);
        assert(is_digit_byte(t[0]));
        assert forall|j: int| 0 <= j < t.len() implies #[trigger] t[j] != 101u8 by {
            assert(is_digit_byte(t[j]));
        }
    }
}

proof fn lemma_find_byte_at(data: Seq<u8>, start: int, end: int, b: u8)
    requires
        0 <= start <= end < data.len(),
        data[end] == b,
        forall|j: int| start <= j < end ==> data[j] != b,
    ensures
        find_byte(data, start, b) == end,
    decreases end - start,
{
    if start < end {
        lemma_find_byte_at(data, start + 1, end, b);
    }
}

proof fn lemma_digit_run_end_at(data: Seq<u8>, start: int, end: int)
    requires
        0 <= start <= end < data.len(),
        !is_digit_byte(data[end]),
        forall|j: int| start <= j < end ==> is_digit_byte(data[j]),
    ensures
        digit_run_end(data, start) == end,
    decreases end - start,
{
    if start < end {
        lemma_digit_run_end_at(data, start + 1, end);
    }
}

/// The encoding of a value is never empty and never starts with the byte
/// that closes a list or a dictionary.
proof fn lemma_encode_first_byte(v: SpecValue)
    ensures
        spec_encode(v).len() > 0,
        spec_encode(v)[0] != 101u8,
{
    match v {
        SpecValue::Bytes(b) => {
            lemma_decimal_text(b.len());
            assert(is_digit_byte(decimal(b.len())[0]));
            assert(spec_encode(v)[0] == decimal(b.len())[0]);
        },
        _ => {},
    }
}

/// The budget a value charges is at least one and never more than given.
proof fn lemma_validate_budget(v: SpecValue, depth: int, rem: int)
    ensures
        spec_validate(v, depth, rem) matches Ok(r) ==> 0 <= r < rem,
    decreases v, 0nat,
{
    if let Ok(r1) = spec_slot(depth, rem) {
        match v {
            SpecValue::List(items) => lemma_validate_seq_budget(items, depth + 1, r1),
            SpecValue::Dict(entries) => lemma_validate_entries_budget(entries, depth + 1, r1),
            _ => {},
        }
    }
}

proof fn lemma_validate_seq_budget(s: Seq<SpecValue>, depth: int, rem: int)
    requires
        rem >= 0,
    ensures
        validate_seq(s, depth, rem) matches Ok(r) ==> 0 <= r <= rem,
    decreases s, 0nat,
{
    if s.len() > 0 {
        let t = s.subrange(0, s.len() - 1);
        lemma_validate_seq_budget(t, depth, rem);
        if let Ok(r) = validate_seq(t, depth, rem) {
            lemma_validate_budget(s[s.len() - 1], depth, r);
        }
    }
}

proof fn lemma_validate_entries_budget(s: Seq<(Seq<u8>, SpecValue)>, depth: int, rem: int)
    requires
        rem >= 0,
    ensures
        validate_entries(s, depth, rem) matches Ok(r) ==> 0 <= r <= rem,
    decreases s, 0nat,
{
    if s.len() > 0 {
        let t = s.subrange(0, s.len() - 1);
        lemma_validate_entries_budget(t, depth, rem);
        if let Ok(r) = validate_entries(t, depth, rem) {
            if let Ok(r2) = spec_slot(depth, r) {
                lemma_validate_budget(s[s.len() - 1].1, depth, r2);
            }
        }
    }
}


proof fn lemma_encode_seq_prefix(s: Seq<SpecValue>, k: int)
    requires
        0 <= k <= s.len(),
    ensures
        encode_seq(s.subrange(0, k)).len() <= encode_seq(s).len(),
        encode_seq(s).subrange(0, encode_seq(s.subrange(0, k)).len() as int) == encode_seq(s.subrange(0, k)),
    decreases s.len(),
{
    if k == s.len() {
        assert(s.subrange(0, k) =~= s);
        assert(encode_seq(s).subrange(0, encode_seq(s).len() as int) =~= encode_seq(s));
    } else {
        let t = s.subrange(0, s.len() - 1);
        lemma_encode_seq_prefix(t, k);
        assert(t.subrange(0, k) =~= s.subrange(0, k));
        let x = encode_seq(s.subrange(0, k)).len() as int;
        assert(encode_seq(s) == encode_seq(t) + spec_encode(s[s.len() - 1]));
        assert(encode_seq(s).subrange(0, x) =~= encode_seq(t).subrange(0, x));
    }
}

/// One dictionary entry as the encoder writes it.
pub open spec fn entry_text(s: Seq<(Seq<u8>, SpecValue)>, j: int) -> Seq<u8> {
    decimal(s[j].0.len()) + seq![58u8] + s[j].0 + spec_encode(s[j].1)
}

proof fn lemma_encode_entries_iota_step(s: Seq<(Seq<u8>, SpecValue)>, k: int)
    requires
        0 <= k < s.len(),
    ensures
        encode_entries(s, iota(k + 1)) == encode_entries(s, iota(k)) + entry_text(s, k),
{
    assert(iota(k).push(k) =~= iota(k + 1));
    lemma_encode_entries_push(s, iota(k), k);
}

proof fn lemma_encode_entries_prefix(s: Seq<(Seq<u8>, SpecValue)>, k: int, n: int)
    requires
        0 <= k <= n <= s.len(),
    ensures
        encode_entries(s, iota(k)).len() <= encode_entries(s, iota(n)).len(),
        encode_entries(s, iota(n)).subrange(0, encode_entries(s, iota(k)).len() as int) == encode_entries(s, iota(k)),
    decreases n,
{
    if k == n {
        assert(encode_entries(s, iota(n)).subrange(0, encode_entries(s, iota(n)).len() as int)
            =~= encode_entries(s, iota(n)));
    } else {
        lemma_encode_entries_prefix(s, k, n - 1);
        lemma_encode_entries_iota_step(s, n - 1);
        let x = encode_entries(s, iota(k)).len() as int;
        assert(encode_entries(s, iota(n)).subrange(0, x) =~= encode_entries(s, iota(n - 1)).subrange(0, x));
    }
}

proof fn lemma_parse_encoded_int(n: int, data: Seq<u8>, pos: int, depth: int, rem: int)
    requires
        i64::MIN <= n <= i64::MAX,
        spec_slot(depth, rem) is Ok,
        0 <= pos,
        pos + spec_encode(SpecValue::Int(n)).len() <= data.len(),
        data.subrange(pos, pos + spec_encode(SpecValue::Int(n)).len()) == spec_encode(SpecValue::Int(n)),
    ensures
        spec_parse_value(data, pos, depth, rem) == Ok::<(SpecValue, int, int), Error>(
            (SpecValue::Int(n), pos + spec_encode(SpecValue::Int(n)).len(), rem - 1),
        ),
{
    let t = decimal_int(n);
    let enc = spec_encode(SpecValue::Int(n));
    let sub = data.subrange(pos, pos + enc.len());
    lemma_decimal_int_text(n);
    assert(enc.len() == t.len() + 2);
    assert(sub[0] == data[pos]);
    let e = pos + 1 + t.len();
    assert forall|j: int| pos + 1 <= j < e implies data[j] != 101u8 by {
        assert(sub[j - pos] == data[j]);
        assert(enc[j - pos] == t[j - pos - 1]);
    }
    assert(sub[t.len() + 1int] == data[e]);
    lemma_find_byte_at(data, pos + 1, e, 101u8);
    assert forall|j: int| 0 <= j < t.len() implies data.subrange(pos + 1, e)[j] == t[j] by {
        assert(sub[j + 1] == data[pos + 1 + j]);
    }
    assert(data.subrange(pos + 1, e) =~= t);
}

proof fn lemma_parse_encoded_bytes(b: Seq<u8>, data: Seq<u8>, pos: int, depth: int, rem: int)
    requires
        spec_slot(depth, rem) is Ok,
        0 <= pos,
        data.len() <= usize::MAX,
        pos + spec_encode(SpecValue::Bytes(b)).len() <= data.len(),
        data.subrange(pos, pos + spec_encode(SpecValue::Bytes(b)).len()) == spec_encode(SpecValue::Bytes(b)),
    ensures
        spec_parse_value(data, pos, depth, rem) == Ok::<(SpecValue, int, int), Error>(
            (SpecValue::Bytes(b), pos + spec_encode(SpecValue::Bytes(b)).len(), rem - 1),
        ),
{
    let t = decimal(b.len());
    let enc = spec_encode(SpecValue::Bytes(b));
    let sub = data.subrange(pos, pos + enc.len());
    lemma_decimal_text(b.len());
    let i = pos + t.len();
    assert forall|j: int| pos <= j < i implies is_digit_byte(data[j]) by {
        assert(sub[j - pos] == data[j]);
        assert(enc[j - pos] == t[j - pos]);
    }
    assert(sub[t.len() as int] == data[i]);
    assert(data[i] == 58u8);
    lemma_digit_run_end_at(data, pos, i);
    assert forall|j: int| 0 <= j < t.len() implies data.subrange(pos, i)[j] == t[j] by {
        assert(sub[j] == data[pos + j]);
    }
    assert(data.subrange(pos, i) =~= t);
    assert forall|j: int| 0 <= j < b.len() implies data.subrange(i + 1, i + 1 + b.len())[j] == b[j] by {
        assert(sub[t.len() + 1 + j] == data[i + 1 + j]);
    }
    assert(data.subrange(i + 1, i + 1 + b.len()) =~= b);
    assert(sub[0] == data[pos]);
    assert(is_digit_byte(t[0]));
}


/// Decoding reads back a canonical value from its encoding wherever it
/// stands, charging the budget exactly as `spec_validate` does.
proof fn lemma_parse_encoded_value(v: SpecValue, data: Seq<u8>, pos: int, depth: int, rem: int)
    requires
        canonical_value(v),
        spec_validate(v, depth, rem) is Ok,
        0 <= pos,
        data.len() <= usize::MAX,
        pos + spec_encode(v).len() <= data.len(),
        data.subrange(pos, pos + spec_encode(v).len()) == spec_encode(v),
    ensures
        spec_parse_value(data, pos, depth, rem) == Ok::<(SpecValue, int, int), Error>(
            (v, pos + spec_encode(v).len(), spec_validate(v, depth, rem)->Ok_0),
        ),
    decreases v, 0int,
{
    let enc = spec_encode(v);
    let sub = data.subrange(pos, pos + enc.len());
    match v {
        SpecValue::Int(n) => lemma_parse_encoded_int(n, data, pos, depth, rem),
        SpecValue::Bytes(b) => lemma_parse_encoded_bytes(b, data, pos, depth, rem),
        SpecValue::List(items) => {
            let body = encode_seq(items);
            assert(enc == seq![108u8] + body + seq![101u8]);
            assert(sub[0] == data[pos]);
            assert forall|j: int| 0 <= j < body.len() implies data.subrange(pos + 1, pos + 1 + body.len())[j]
                == body[j] by {
                assert(sub[j + 1] == data[pos + 1 + j]);
            }
            assert(data.subrange(pos + 1, pos + 1 + body.len()) =~= body);
            assert(sub[body.len() + 1int] == data[pos + 1 + body.len()]);
            assert(items.subrange(0, 0) =~= seq![]);
            assert(encode_seq(seq![]) =~= seq![]);
            lemma_parse_encoded_list(items, 0, data, pos + 1, depth, rem - 1);
        },
        SpecValue::Dict(entries) => {
            lemma_dict_order_increasing(entries);
            let n = entries.len() as int;
            let body = encode_entries(entries, iota(n));
            assert(enc == seq![100u8] + body + seq![101u8]);
            assert(sub[0] == data[pos]);
            assert forall|j: int| 0 <= j < body.len() implies data.subrange(pos + 1, pos + 1 + body.len())[j]
                == body[j] by {
                assert(sub[j + 1] == data[pos + 1 + j]);
            }
            assert(data.subrange(pos + 1, pos + 1 + body.len()) =~= body);
            assert(sub[body.len() + 1int] == data[pos + 1 + body.len()]);
            assert(entries.subrange(0, 0) =~= seq![]);
            assert(iota(0) =~= seq![]);
            lemma_parse_encoded_dict(entries, 0, data, pos + 1, depth, rem - 1);
        },
    }
}

proof fn lemma_parse_encoded_list(
    items: Seq<SpecValue>,
    k: int,
    data: Seq<u8>,
    start: int,
    depth: int,
    rem: int,
)
    requires
        0 <= k <= items.len(),
        canonical_seq(items),
        validate_seq(items, depth + 1, rem) is Ok,
        0 <= start,
        data.len() <= usize::MAX,
        start + encode_seq(items).len() < data.len(),
        data.subrange(start, start + encode_seq(items).len()) == encode_seq(items),
        data[start + encode_seq(items).len()] == 101u8,
    ensures
        validate_seq(items.subrange(0, k), depth + 1, rem) is Ok,
        spec_parse_list(
            data,
            start + encode_seq(items.subrange(0, k)).len(),
            depth,
            validate_seq(items.subrange(0, k), depth + 1, rem)->Ok_0,
            items.subrange(0, k),
        ) == Ok::<(SpecValue, int, int), Error>(
            (
                SpecValue::List(items),
                start + encode_seq(items).len() + 1,
                validate_seq(items, depth + 1, rem)->Ok_0,
            ),
        ),
    decreases items, items.len() - k,
{
    let pre = items.subrange(0, k);
    let body = encode_seq(items);
    if validate_seq(pre, depth + 1, rem) is Err {
        lemma_validate_seq_prefix_err(items, k, depth + 1, rem);
    }
    lemma_encode_seq_prefix(items, k);
    if k == items.len() {
        assert(pre =~= items);
    } else {
        let x = items[k];
        let pre1 = items.subrange(0, k + 1);
        assert(pre.push(x) =~= pre1);
        assert(pre1.subrange(0, k) =~= pre);
        lemma_encode_seq_push(pre, x);
        lemma_encode_seq_prefix(items, k + 1);
        if validate_seq(pre1, depth + 1, rem) is Err {
            lemma_validate_seq_prefix_err(items, k + 1, depth + 1, rem);
        }
        let rk = validate_seq(pre, depth + 1, rem)->Ok_0;
        assert(validate_seq(pre1, depth + 1, rem) == spec_validate(x, depth + 1, rk));
        lemma_canonical_seq_index(items, k);
        lemma_validate_budget(x, depth + 1, rk);
        let lk = encode_seq(pre).len() as int;
        let p = start + lk;
        let ex = spec_encode(x);
        let bsub = data.subrange(start, start + body.len());
        assert forall|j: int| 0 <= j < ex.len() implies data.subrange(p, p + ex.len())[j] == ex[j] by {
            assert(bsub[lk + j] == data[p + j]);
            assert(body.subrange(0, encode_seq(pre1).len() as int)[lk + j] == body[lk + j]);
            assert(encode_seq(pre1)[lk + j] == ex[j]);
        }
        assert(data.subrange(p, p + ex.len()) =~= ex);
        lemma_parse_encoded_value(x, data, p, depth + 1, rk);
        lemma_encode_first_byte(x);
        assert(bsub[lk] == data[p]);
        assert(body.subrange(0, encode_seq(pre1).len() as int)[lk] == body[lk]);
        assert(encode_seq(pre1)[lk] == ex[0]);
        lemma_parse_encoded_list(items, k + 1, data, start, depth, rem);
    }
}

proof fn lemma_parse_encoded_dict(
    e: Seq<(Seq<u8>, SpecValue)>,
    k: int,
    data: Seq<u8>,
    start: int,
    depth: int,
    rem: int,
)
    requires
        0 <= k <= e.len(),
        keys_increasing(e),
        canonical_entries(e),
        validate_entries(e, depth + 1, rem) is Ok,
        0 <= start,
        data.len() <= usize::MAX,
        start + encode_entries(e, iota(e.len() as int)).len() < data.len(),
        data.subrange(start, start + encode_entries(e, iota(e.len() as int)).len()) == encode_entries(
            e,
            iota(e.len() as int),
        ),
        data[start + encode_entries(e, iota(e.len() as int)).len()] == 101u8,
    ensures
        validate_entries(e.subrange(0, k), depth + 1, rem) is Ok,
        spec_parse_dict(
            data,
            start + encode_entries(e, iota(k)).len(),
            depth,
            validate_entries(e.subrange(0, k), depth + 1, rem)->Ok_0,
            e.subrange(0, k),
            if k == 0 {
                None
            } else {
                Some(e[k - 1].0)
            },
        ) == Ok::<(SpecValue, int, int), Error>(
            (
                SpecValue::Dict(e),
                start + encode_entries(e, iota(e.len() as int)).len() + 1,
                validate_entries(e, depth + 1, rem)->Ok_0,
            ),
        ),
    decreases e, e.len() - k,
{
    let n = e.len() as int;
    let pre = e.subrange(0, k);
    let body = encode_entries(e, iota(n));
    if validate_entries(pre, depth + 1, rem) is Err {
        lemma_validate_entries_prefix_err(e, k, depth + 1, rem);
    }
    lemma_encode_entries_prefix(e, k, n);
    if k == n {
        assert(pre =~= e);
    } else {
        let key = e[k].0;
        let val = e[k].1;
        let pre1 = e.subrange(0, k + 1);
        assert(pre.push((key, val)) =~= pre1);
        assert(pre1.subrange(0, k) =~= pre);
        lemma_encode_entries_iota_step(e, k);
        lemma_encode_entries_prefix(e, k + 1, n);
        if validate_entries(pre1, depth + 1, rem) is Err {
            lemma_validate_entries_prefix_err(e, k + 1, depth + 1, rem);
        }
        let rk = validate_entries(pre, depth + 1, rem)->Ok_0;
        assert(pre1[k].1 == val);
        assert(spec_slot(depth + 1, rk) is Ok);
        assert(validate_entries(pre1, depth + 1, rem) == spec_validate(val, depth + 1, rk - 1));
        lemma_canonical_entries_index(e, k);
        lemma_validate_budget(val, depth + 1, rk - 1);
        let lk = encode_entries(e, iota(k)).len() as int;
        let p = start + lk;
        let kb = spec_encode(SpecValue::Bytes(key));
        let ev = spec_encode(val);
        let whole = encode_entries(e, iota(k + 1));
        assert(entry_text(e, k) =~= kb + ev);
        let bsub = data.subrange(start, start + body.len());
        assert forall|j: int| 0 <= j < kb.len() + ev.len() implies data[p + j] == (kb + ev)[j] by {
            assert(bsub[lk + j] == data[p + j]);
            assert(body.subrange(0, whole.len() as int)[lk + j] == body[lk + j]);
            assert(whole[lk + j] == (kb + ev)[j]);
        }
        assert forall|j: int| 0 <= j < kb.len() implies data.subrange(p, p + kb.len())[j] == kb[j] by {
            assert(data[p + j] == (kb + ev)[j]);
        }
        assert(data.subrange(p, p + kb.len()) =~= kb);
        assert forall|j: int| 0 <= j < ev.len() implies data.subrange(p + kb.len(), p + kb.len() + ev.len())[j]
            == ev[j] by {
            assert(data[p + kb.len() + j] == (kb + ev)[kb.len() + j]);
        }
        assert(data.subrange(p + kb.len(), p + kb.len() + ev.len()) =~= ev);
        lemma_parse_encoded_bytes(key, data, p, depth + 1, rk);
        lemma_parse_encoded_value(val, data, p + kb.len(), depth + 1, rk - 1);
        lemma_encode_first_byte(SpecValue::Bytes(key));
        assert(data[p] == (kb + ev)[0]);
        if k > 0 {
            assert(lex_lt(e[k - 1].0, e[k].0));
        }
        lemma_parse_encoded_dict(e, k + 1, data, start, depth, rem);
    }
}

proof fn lemma_parse_encoded_value_err(v: SpecValue, data: Seq<u8>, pos: int, depth: int, rem: int)
    requires
        canonical_value(v),
        spec_validate(v, depth, rem) is Err,
        0 <= pos,
        data.len() <= usize::MAX,
        pos + spec_encode(v).len() <= data.len(),
        data.subrange(pos, pos + spec_encode(v).len()) == spec_encode(v),
    ensures
        spec_parse_value(data, pos, depth, rem) == Err::<(SpecValue, int, int), Error>(
            spec_validate(v, depth, rem)->Err_0,
        ),
    decreases v, 0int,
{
    if spec_slot(depth, rem) is Ok {
        let enc = spec_encode(v);
        let sub = data.subrange(pos, pos + enc.len());
        match v {
            SpecValue::List(items) => {
                let body = encode_seq(items);
                assert(enc == seq![108u8] + body + seq![101u8]);
                assert(sub[0] == data[pos]);
                assert forall|j: int| 0 <= j < body.len() implies data.subrange(pos + 1, pos + 1 + body.len())[j]
                    == body[j] by {
                    assert(sub[j + 1] == data[pos + 1 + j]);
                }
                assert(data.subrange(pos + 1, pos + 1 + body.len()) =~= body);
                assert(sub[body.len() + 1int] == data[pos + 1 + body.len()]);
                assert(items.subrange(0, 0) =~= seq![]);
                assert(encode_seq(seq![]) =~= seq![]);
                lemma_parse_encoded_list_err(items, 0, data, pos + 1, depth, rem - 1);
            },
            SpecValue::Dict(entries) => {
                lemma_dict_order_increasing(entries);
                let n = entries.len() as int;
                let body = encode_entries(entries, iota(n));
                assert(enc == seq![100u8] + body + seq![101u8]);
                assert(sub[0] == data[pos]);
                assert forall|j: int| 0 <= j < body.len() implies data.subrange(pos + 1, pos + 1 + body.len())[j]
                    == body[j] by {
                    assert(sub[j + 1] == data[pos + 1 + j]);
                }
                assert(data.subrange(pos + 1, pos + 1 + body.len()) =~= body);
                assert(sub[body.len() + 1int] == data[pos + 1 + body.len()]);
                assert(entries.subrange(0, 0) =~= seq![]);
                assert(iota(0) =~= seq![]);
                lemma_parse_encoded_dict_err(entries, 0, data, pos + 1, depth, rem - 1);
            },
            _ => {},
        }
    }
}

proof fn lemma_parse_encoded_list_err(
    items: Seq<SpecValue>,
    k: int,
    data: Seq<u8>,
    start: int,
    depth: int,
    rem: int,
)
    requires
        0 <= k <= items.len(),
        canonical_seq(items),
        validate_seq(items.subrange(0, k), depth + 1, rem) is Ok,
        validate_seq(items, depth + 1, rem) is Err,
        0 <= start,
        data.len() <= usize::MAX,
        start + encode_seq(items).len() < data.len(),
        data.subrange(start, start + encode_seq(items).len()) == encode_seq(items),
        data[start + encode_seq(items).len()] == 101u8,
    ensures
        spec_parse_list(
            data,
            start + encode_seq(items.subrange(0, k)).len(),
            depth,
            validate_seq(items.subrange(0, k), depth + 1, rem)->Ok_0,
            items.subrange(0, k),
        ) == Err::<(SpecValue, int, int), Error>(validate_seq(items, depth + 1, rem)->Err_0),
    decreases items, items.len() - k,
{
    let pre = items.subrange(0, k);
    let body = encode_seq(items);
    lemma_encode_seq_prefix(items, k);
    if k == items.len() {
        assert(pre =~= items);
    } else {
        let x = items[k];
        let pre1 = items.subrange(0, k + 1);
        assert(pre.push(x) =~= pre1);
        assert(pre1.subrange(0, k) =~= pre);
        lemma_encode_seq_push(pre, x);
        lemma_encode_seq_prefix(items, k + 1);
        let rk = validate_seq(pre, depth + 1, rem)->Ok_0;
        assert(validate_seq(pre1, depth + 1, rem) == spec_validate(x, depth + 1, rk));
        lemma_canonical_seq_index(items, k);
        let lk = encode_seq(pre).len() as int;
        let p = start + lk;
        let ex = spec_encode(x);
        let bsub = data.subrange(start, start + body.len());
        assert forall|j: int| 0 <= j < ex.len() implies data.subrange(p, p + ex.len())[j] == ex[j] by {
            assert(bsub[lk + j] == data[p + j]);
            assert(body.subrange(0, encode_seq(pre1).len() as int)[lk + j] == body[lk + j]);
            assert(encode_seq(pre1)[lk + j] == ex[j]);
        }
        assert(data.subrange(p, p + ex.len()) =~= ex);
        lemma_encode_first_byte(x);
        assert(bsub[lk] == data[p]);
        assert(body.subrange(0, encode_seq(pre1).len() as int)[lk] == body[lk]);
        assert(encode_seq(pre1)[lk] == ex[0]);
        if validate_seq(pre1, depth + 1, rem) is Err {
            lemma_validate_seq_prefix_err(items, k + 1, depth + 1, rem);
            lemma_parse_encoded_value_err(x, data, p, depth + 1, rk);
        } else {
            lemma_validate_budget(x, depth + 1, rk);
            lemma_parse_encoded_value(x, data, p, depth + 1, rk);
            lemma_parse_encoded_list_err(items, k + 1, data, start, depth, rem);
        }
    }
}

proof fn lemma_parse_encoded_dict_err(
    e: Seq<(Seq<u8>, SpecValue)>,
    k: int,
    data: Seq<u8>,
    start: int,
    depth: int,
    rem: int,
)
    requires
        0 <= k <= e.len(),
        keys_increasing(e),
        canonical_entries(e),
        validate_entries(e.subrange(0, k), depth + 1, rem) is Ok,
        validate_entries(e, depth + 1, rem) is Err,
        0 <= start,
        data.len() <= usize::MAX,
        start + encode_entries(e, iota(e.len() as int)).len() < data.len(),
        data.subrange(start, start + encode_entries(e, iota(e.len() as int)).len()) == encode_entries(
            e,
            iota(e.len() as int),
        ),
        data[start + encode_entries(e, iota(e.len() as int)).len()] == 101u8,
    ensures
        spec_parse_dict(
            data,
            start + encode_entries(e, iota(k)).len(),
            depth,
            validate_entries(e.subrange(0, k), depth + 1, rem)->Ok_0,
            e.subrange(0, k),
            if k == 0 {
                None
            } else {
                Some(e[k - 1].0)
            },
        ) == Err::<(SpecValue, int, int), Error>(validate_entries(e, depth + 1, rem)->Err_0),
    decreases e, e.len() - k,
{
    let n = e.len() as int;
    let pre = e.subrange(0, k);
    let body = encode_entries(e, iota(n));
    lemma_encode_entries_prefix(e, k, n);
    if k == n {
        assert(pre =~= e);
    } else {
        let key = e[k].0;
        let val = e[k].1;
        let pre1 = e.subrange(0, k + 1);
        assert(pre.push((key, val)) =~= pre1);
        assert(pre1.subrange(0, k) =~= pre);
        lemma_encode_entries_iota_step(e, k);
        lemma_encode_entries_prefix(e, k + 1, n);
        let rk = validate_entries(pre, depth + 1, rem)->Ok_0;
        assert(pre1[k].1 == val);
        lemma_canonical_entries_index(e, k);
        let lk = encode_entries(e, iota(k)).len() as int;
        let p = start + lk;
        let kb = spec_encode(SpecValue::Bytes(key));
        let ev = spec_encode(val);
        let whole = encode_entries(e, iota(k + 1));
        assert(entry_text(e, k) =~= kb + ev);
        let bsub = data.subrange(start, start + body.len());
        assert forall|j: int| 0 <= j < kb.len() + ev.len() implies data[p + j] == (kb + ev)[j] by {
            assert(bsub[lk + j] == data[p + j]);
            assert(body.subrange(0, whole.len() as int)[lk + j] == body[lk + j]);
            assert(whole[lk + j] == (kb + ev)[j]);
        }
        assert forall|j: int| 0 <= j < kb.len() implies data.subrange(p, p + kb.len())[j] == kb[j] by {
            assert(data[p + j] == (kb + ev)[j]);
        }
        assert(data.subrange(p, p + kb.len()) =~= kb);
        assert forall|j: int| 0 <= j < ev.len() implies data.subrange(p + kb.len(), p + kb.len() + ev.len())[j]
            == ev[j] by {
            assert(data[p + kb.len() + j] == (kb + ev)[kb.len() + j]);
        }
        assert(data.subrange(p + kb.len(), p + kb.len() + ev.len()) =~= ev);
        lemma_encode_first_byte(SpecValue::Bytes(key));
        assert(data[p] == (kb + ev)[0]);
        if k > 0 {
            assert(lex_lt(e[k - 1].0, e[k].0));
        }
        if spec_slot(depth + 1, rk) is Err {
            assert(validate_entries(pre1, depth + 1, rem) is Err);
            lemma_validate_entries_prefix_err(e, k + 1, depth + 1, rem);
        } else {
            assert(validate_entries(pre1, depth + 1, rem) == spec_validate(val, depth + 1, rk - 1));
            lemma_parse_encoded_bytes(key, data, p, depth + 1, rk);
            if spec_validate(val, depth + 1, rk - 1) is Err {
                lemma_validate_entries_prefix_err(e, k + 1, depth + 1, rem);
                lemma_parse_encoded_value_err(val, data, p + kb.len(), depth + 1, rk - 1);
            } else {
                lemma_validate_budget(val, depth + 1, rk - 1);
                lemma_parse_encoded_value(val, data, p + kb.len(), depth + 1, rk - 1);
                lemma_parse_encoded_dict_err(e, k + 1, data, start, depth, rem);
            }
        }
    }
}

/// Checking a value's budgets gives the decoder's verdict on its encoding:
/// for a value whose dictionaries list their keys in increasing order,
/// `validate_structure` accepts it exactly when decoding its encoding
/// succeeds (and then gives the value back), and refuses it with the very
/// error that decoding its encoding gives.
pub proof fn lemma_validate_agrees_with_decoder(v: SpecValue)
    requires
        canonical_value(v),
        spec_encode(v).len() <= usize::MAX,
    ensures
        match spec_validate(v, 0, MAX_VALUES as int) {
            Ok(_) => spec_parse(spec_encode(v)) == Ok::<SpecValue, Error>(v),
            Err(e) => spec_parse(spec_encode(v)) == Err::<SpecValue, Error>(e),
        },
{
    if spec_validate(v, 0, MAX_VALUES as int) is Ok {
        lemma_encode_parse_roundtrip(v);
    } else {
        let data = spec_encode(v);
        assert(data.subrange(0, data.len() as int) =~= data);
        lemma_parse_encoded_value_err(v, data, 0, 0, MAX_VALUES as int);
    }
}

/// Decoding the encoding of a canonical value gives the value back, as
/// long as the value fits the decoder's budgets.
pub proof fn lemma_encode_parse_roundtrip(v: SpecValue)
    requires
        canonical_value(v),
        spec_validate(v, 0, MAX_VALUES as int) is Ok,
        spec_encode(v).len() <= usize::MAX,
    ensures
        spec_parse(spec_encode(v)) == Ok::<SpecValue, Error>(v),
{
    let data = spec_encode(v);
    assert(data.subrange(0, data.len() as int) =~= data);
    lemma_parse_encoded_value(v, data, 0, 0, MAX_VALUES as int);
}


pub proof fn lemma_canonical_seq_all(s: Seq<SpecValue>)
    requires
        forall|i: int| 0 <= i < s.len() ==> canonical_value(#[trigger] s[i]),
    ensures
        canonical_seq(s),
    decreases s.len(),
{
    if s.len() > 0 {
        let t = s.subrange(0, s.len() - 1);
        assert forall|i: int| 0 <= i < t.len() implies canonical_value(#[trigger] t[i]) by {
            assert(t[i] == s[i]);
        }
        lemma_canonical_seq_all(t);
    }
}

pub proof fn lemma_canonical_entries_all(s: Seq<(Seq<u8>, SpecValue)>)
    requires
        forall|i: int| 0 <= i < s.len() ==> canonical_value(#[trigger] s[i].1),
    ensures
        canonical_entries(s),
    decreases s.len(),
{
    if s.len() > 0 {
        let t = s.subrange(0, s.len() - 1);
        assert forall|i: int| 0 <= i < t.len() implies canonical_value(#[trigger] t[i].1) by {
            assert(t[i] == s[i]);
        }
        lemma_canonical_entries_all(t);
    }
}

/// Lists whose items encode alike encode alike.
pub proof fn lemma_encode_seq_congruent(a: Seq<SpecValue>, b: Seq<SpecValue>)
    requires
        a.len() == b.len(),
        forall|i: int| 0 <= i < a.len() ==> spec_encode(#[trigger] a[i]) == spec_encode(b[i]),
    ensures
        encode_seq(a) == encode_seq(b),
    decreases a.len(),
{
    if a.len() > 0 {
        let ta = a.subrange(0, a.len() - 1);
        let tb = b.subrange(0, b.len() - 1);
        assert forall|i: int| 0 <= i < ta.len() implies spec_encode(#[trigger] ta[i]) == spec_encode(tb[i]) by {
            assert(ta[i] == a[i]);
            assert(tb[i] == b[i]);
        }
        lemma_encode_seq_congruent(ta, tb);
        assert(spec_encode(a[a.len() - 1]) == spec_encode(b[b.len() - 1]));
    }
}

/// Dictionaries with the same keys whose values encode alike encode alike.
pub proof fn lemma_encode_entries_congruent(
    a: Seq<(Seq<u8>, SpecValue)>,
    b: Seq<(Seq<u8>, SpecValue)>,
    order: Seq<int>,
)
    requires
        a.len() == b.len(),
        forall|i: int| 0 <= i < a.len() ==> (#[trigger] a[i]).0 == b[i].0 && spec_encode(a[i].1) == spec_encode(b[i].1),
    ensures
        encode_entries(a, order) == encode_entries(b, order),
        entry_keys(a) == entry_keys(b),
    decreases order.len(),
{
    assert(entry_keys(a) =~= entry_keys(b));
    if order.len() > 0 {
        lemma_encode_entries_congruent(a, b, order.subrange(0, order.len() - 1));
        let j = order[order.len() - 1];
        if 0 <= j < a.len() {
            assert(a[j].0 == b[j].0 && spec_encode(a[j].1) == spec_encode(b[j].1));
        }
    }
}

/// Values with the same budget charge at every depth and budget.
pub open spec fn same_charge(a: SpecValue, b: SpecValue) -> bool {
    forall|d: int, r: int| #[trigger] spec_validate(a, d, r) == spec_validate(b, d, r)
}

pub proof fn lemma_validate_seq_congruent(a: Seq<SpecValue>, b: Seq<SpecValue>, depth: int, rem: int)
    requires
        a.len() == b.len(),
        forall|i: int| 0 <= i < a.len() ==> same_charge(#[trigger] a[i], b[i]),
    ensures
        validate_seq(a, depth, rem) == validate_seq(b, depth, rem),
    decreases a.len(),
{
    if a.len() > 0 {
        let ta = a.subrange(0, a.len() - 1);
        let tb = b.subrange(0, b.len() - 1);
        assert forall|i: int| 0 <= i < ta.len() implies same_charge(#[trigger] ta[i], tb[i]) by {
            assert(ta[i] == a[i]);
            assert(tb[i] == b[i]);
        }
        lemma_validate_seq_congruent(ta, tb, depth, rem);
        assert(same_charge(a[a.len() - 1], b[b.len() - 1]));
        if let Ok(r) = validate_seq(ta, depth, rem) {
            assert(spec_validate(a[a.len() - 1], depth, r) == spec_validate(b[b.len() - 1], depth, r));
        }
    }
}

pub proof fn lemma_validate_entries_congruent(
    a: Seq<(Seq<u8>, SpecValue)>,
    b: Seq<(Seq<u8>, SpecValue)>,
    depth: int,
    rem: int,
)
    requires
        a.len() == b.len(),
        forall|i: int| 0 <= i < a.len() ==> same_charge(#[trigger] a[i].1, b[i].1),
    ensures
        validate_entries(a, depth, rem) == validate_entries(b, depth, rem),
    decreases a.len(),
{
    if a.len() > 0 {
        let ta = a.subrange(0, a.len() - 1);
        let tb = b.subrange(0, b.len() - 1);
        assert forall|i: int| 0 <= i < ta.len() implies same_charge(#[trigger] ta[i].1, tb[i].1) by {
            assert(ta[i] == a[i]);
            assert(tb[i] == b[i]);
        }
        lemma_validate_entries_congruent(ta, tb, depth, rem);
        assert(same_charge(a[a.len() - 1].1, b[b.len() - 1].1));
        if let Ok(r) = validate_entries(ta, depth, rem) {
            if let Ok(r2) = spec_slot(depth, r) {
                assert(spec_validate(a[a.len() - 1].1, depth, r2) == spec_validate(b[b.len() - 1].1, depth, r2));
            }
        }
    }
}

} // verus!
