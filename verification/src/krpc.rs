use vstd::prelude::*;

use crate::bencode::{encode, entries_view, spec_encode, SpecValue, Value};
use crate::dht::{
    has_endpoint, spec_node_id_matches, spec_queue_deferred, spec_replace_questionable, spec_table_insert, TableNode, Node,
    queue_deferred_replacement, decode_nodes, decode_nodes6, is_normalized_v6, port_at, ip_octets,
    compact_v4, compact_v6, dht_address_scope_allowed, encode_peer, make_token, normalize_dht_addr, spec_closest,
    spec_encode_peer, spec_make_token, spec_normalize_ip, spec_refresh, spec_scope_allowed, verify_token, DhtAddr,
    DhtIp, NodeFilter, RoutingTable, TableModel,
};
use crate::dht_store::{find_swarm, peer_fresh, spec_admit, PeerStore, StoredPeer, SwarmModel};
use crate::http::bytes_equal;
use crate::rss::sdict_get_from;
use crate::text::bytes_to_vec;

verus! {

// ---------------------------------------------------------------------
// KRPC messages of the DHT
// ---------------------------------------------------------------------

/// Longest transaction id answered.
pub const MAX_TRANSACTION_ID_LEN: usize = 16;

pub open spec fn key_a() -> Seq<u8> {
    seq![97u8]
}

pub open spec fn key_q() -> Seq<u8> {
    seq![113u8]
}

pub open spec fn key_r() -> Seq<u8> {
    seq![114u8]
}

pub open spec fn key_t() -> Seq<u8> {
    seq![116u8]
}

pub open spec fn key_y() -> Seq<u8> {
    seq![121u8]
}

pub open spec fn key_id() -> Seq<u8> {
    seq![105u8, 100]
}

pub open spec fn key_ip() -> Seq<u8> {
    seq![105u8, 112]
}

pub open spec fn key_info_hash() -> Seq<u8> {
    seq![105u8, 110, 102, 111, 95, 104, 97, 115, 104]
}

pub open spec fn key_target() -> Seq<u8> {
    seq![116u8, 97, 114, 103, 101, 116]
}

pub open spec fn key_port() -> Seq<u8> {
    seq![112u8, 111, 114, 116]
}

pub open spec fn key_token() -> Seq<u8> {
    seq![116u8, 111, 107, 101, 110]
}

pub open spec fn key_nodes() -> Seq<u8> {
    seq![110u8, 111, 100, 101, 115]
}

pub open spec fn key_nodes6() -> Seq<u8> {
    seq![110u8, 111, 100, 101, 115, 54]
}

pub open spec fn key_values() -> Seq<u8> {
    seq![118u8, 97, 108, 117, 101, 115]
}

pub open spec fn key_want() -> Seq<u8> {
    seq![119u8, 97, 110, 116]
}

pub open spec fn key_implied_port() -> Seq<u8> {
    seq![105u8, 109, 112, 108, 105, 101, 100, 95, 112, 111, 114, 116]
}

pub open spec fn tag_n4() -> Seq<u8> {
    seq![110u8, 52]
}

pub open spec fn tag_n6() -> Seq<u8> {
    seq![110u8, 54]
}

pub open spec fn word_ping() -> Seq<u8> {
    seq![112u8, 105, 110, 103]
}

pub open spec fn word_find_node() -> Seq<u8> {
    seq![102u8, 105, 110, 100, 95, 110, 111, 100, 101]
}

pub open spec fn word_get_peers() -> Seq<u8> {
    seq![103u8, 101, 116, 95, 112, 101, 101, 114, 115]
}

pub open spec fn word_announce_peer() -> Seq<u8> {
    seq![97u8, 110, 110, 111, 117, 110, 99, 101, 95, 112, 101, 101, 114]
}

/// The value under `key`, the first entry that has it.
pub fn dict_get<'a>(dict: &'a [(Vec<u8>, Value)], key: &[u8]) -> (r: Option<&'a Value>)
    ensures
        match sdict_get_from(entries_view(dict@), key@, 0) {
            Some(v) => r matches Some(x) && x@ == v,
            None => r is None,
        },
{
    proof {
        crate::bencode::lemma_entries_view_index(dict@);
    }
    let ghost ev = entries_view(dict@);
    let mut i: usize = 0;
    while i < dict.len()
        invariant
            i <= dict@.len(),
            ev == entries_view(dict@),
            ev.len() == dict@.len(),
            forall|j: int| 0 <= j < dict@.len() ==> #[trigger] ev[j] == (dict@[j].0@, dict@[j].1@),
            sdict_get_from(ev, key@, 0) == sdict_get_from(ev, key@, i as int),
        decreases dict@.len() - i,
    {
        if bytes_equal(dict[i].0.as_slice(), key) {
            return Some(&dict[i].1);
        }
        i = i + 1;
    }
    None
}

fn push_entry(entries: &mut Vec<(Vec<u8>, Value)>, key: &[u8], v: Value)
    ensures
        entries_view(final(entries)@) == entries_view(old(entries)@).push((key@, v@)),
{
    let e = (bytes_to_vec(key), v);
    proof {
        crate::bencode::lemma_entries_view_push(entries@, e);
    }
    entries.push(e);
}

fn bytes_value(b: &[u8]) -> (r: Value)
    ensures
        r@ == SpecValue::Bytes(b@),
{
    Value::Bytes(bytes_to_vec(b))
}

// ---------------------------------------------------------------------
// Which node families a requester wants (BEP 32)
// ---------------------------------------------------------------------

/// Whether a `want` list names a family.
pub open spec fn wants(list: Seq<SpecValue>, tag: Seq<u8>) -> bool {
    exists|i: int| 0 <= i < list.len() && list[i] == SpecValue::Bytes(tag)
}

/// The families asked for: those a `want` list names, or else the
/// requester's own family.
pub open spec fn spec_families(args: Seq<(Seq<u8>, SpecValue)>, requester: DhtAddr) -> (bool, bool) {
    match sdict_get_from(args, key_want(), 0) {
        Some(SpecValue::List(w)) if wants(w, tag_n4()) || wants(w, tag_n6()) => (
            wants(w, tag_n4()),
            wants(w, tag_n6()),
        ),
        _ => (spec_normalize_ip(requester.ip) is V4, spec_normalize_ip(requester.ip) is V6),
    }
}

fn list_wants(list: &[Value], tag: &[u8]) -> (r: bool)
    ensures
        r == wants(crate::bencode::list_view(list@), tag@),
{
    proof {
        crate::bencode::lemma_list_view_index(list@);
    }
    let ghost lv = crate::bencode::list_view(list@);
    let mut i: usize = 0;
    while i < list.len()
        invariant
            i <= list@.len(),
            lv == crate::bencode::list_view(list@),
            lv.len() == list@.len(),
            forall|j: int| 0 <= j < list@.len() ==> #[trigger] lv[j] == list@[j]@,
            forall|j: int| 0 <= j < i ==> lv[j] != SpecValue::Bytes(tag@),
        decreases list@.len() - i,
    {
        match &list[i] {
            Value::Bytes(b) => {
                if bytes_equal(b.as_slice(), tag) {
                    assert(lv[i as int] == SpecValue::Bytes(tag@));
                    return true;
                }
            },
            _ => {},
        }
        i = i + 1;
    }
    false
}

/// The node families a requester asks for: IPv4 and IPv6 (see
/// `spec_families`).
pub fn requested_node_families(args: &[(Vec<u8>, Value)], requester: DhtAddr) -> (r: (bool, bool))
    ensures
        r == spec_families(entries_view(args@), requester),
{
    let kw: [u8; 4] = [119, 97, 110, 116];
    let n4: [u8; 2] = [110, 52];
    let n6: [u8; 2] = [110, 54];
    assert(kw@ =~= key_want());
    assert(n4@ =~= tag_n4());
    assert(n6@ =~= tag_n6());
    if let Some(Value::List(want)) = dict_get(args, kw.as_slice()) {
        let wants_v4 = list_wants(want.as_slice(), n4.as_slice());
        let wants_v6 = list_wants(want.as_slice(), n6.as_slice());
        if wants_v4 || wants_v6 {
            return (wants_v4, wants_v6);
        }
    }
    let requester = normalize_dht_addr(requester);
    match requester.ip {
        DhtIp::V4(_) => (true, false),
        DhtIp::V6(_) => (false, true),
    }
}

/// The compact nodes answer for one family.
pub open spec fn nodes_answer(t: TableModel, target: Seq<u8>, requester: DhtAddr, v6: bool) -> Seq<u8> {
    let near = spec_closest(t.1, target, 8, NodeFilter::Scoped { requester, ipv6: v6 });
    if v6 {
        compact_v6(near)
    } else {
        compact_v4(near)
    }
}

/// The `nodes` and `nodes6` fields of an answer, for the families asked
/// for.
pub open spec fn spec_node_fields(
    t: TableModel,
    target: Seq<u8>,
    requester: DhtAddr,
    args: Seq<(Seq<u8>, SpecValue)>,
) -> Seq<(Seq<u8>, SpecValue)> {
    let (v4, v6) = spec_families(args, requester);
    (if v4 {
        seq![(key_nodes(), SpecValue::Bytes(nodes_answer(t, target, requester, false)))]
    } else {
        Seq::empty()
    }) + (if v6 {
        seq![(key_nodes6(), SpecValue::Bytes(nodes_answer(t, target, requester, true)))]
    } else {
        Seq::empty()
    })
}

/// The closest nodes to `target` the requester may be told about, in the
/// families it asks for (see `spec_node_fields`).
pub fn closest_node_fields(rt: &RoutingTable, target: &[u8; 20], requester: DhtAddr, args: &[(Vec<u8>, Value)]) -> (r:
    Vec<(Vec<u8>, Value)>)
    ensures
        entries_view(r@) == spec_node_fields(rt.model(), target@, requester, entries_view(args@)),
{
    let (wants_v4, wants_v6) = requested_node_families(args, requester);
    let mut fields: Vec<(Vec<u8>, Value)> = Vec::new();
    let kn: [u8; 5] = [110, 111, 100, 101, 115];
    let kn6: [u8; 6] = [110, 111, 100, 101, 115, 54];
    assert(kn@ =~= key_nodes());
    assert(kn6@ =~= key_nodes6());
    assert(entries_view(fields@) =~= Seq::<(Seq<u8>, SpecValue)>::empty());
    if wants_v4 {
        let b = rt.encode_closest_nodes(target, requester);
        push_entry(&mut fields, kn.as_slice(), Value::Bytes(b));
    }
    let ghost mid = entries_view(fields@);
    if wants_v6 {
        let b = rt.encode_closest_nodes6(target, requester);
        push_entry(&mut fields, kn6.as_slice(), Value::Bytes(b));
    }
    assert(entries_view(fields@) =~= spec_node_fields(rt.model(), target@, requester, entries_view(args@)));
    fields
}

} // verus!

verus! {

// ---------------------------------------------------------------------
// Messages this node sends
// ---------------------------------------------------------------------

/// An answer: our observed view of the requester's endpoint, the
/// transaction id, and our id followed by the answer's fields.
pub open spec fn spec_response(
    node_id: Seq<u8>,
    tx: Seq<u8>,
    extra: Seq<(Seq<u8>, SpecValue)>,
    observed: DhtAddr,
) -> SpecValue {
    SpecValue::Dict(
        seq![
            (key_ip(), SpecValue::Bytes(spec_encode_peer(observed))),
            (key_t(), SpecValue::Bytes(tx)),
            (key_y(), SpecValue::Bytes(key_r())),
            (key_r(), SpecValue::Dict(seq![(key_id(), SpecValue::Bytes(node_id))] + extra)),
        ],
    )
}

/// A query named `word` with arguments `a`.
pub open spec fn spec_query(tx: Seq<u8>, word: Seq<u8>, a: Seq<(Seq<u8>, SpecValue)>) -> SpecValue {
    SpecValue::Dict(
        seq![
            (key_t(), SpecValue::Bytes(tx)),
            (key_y(), SpecValue::Bytes(key_q())),
            (key_q(), SpecValue::Bytes(word)),
            (key_a(), SpecValue::Dict(a)),
        ],
    )
}

/// A `ping` query.
pub open spec fn spec_ping_query(node_id: Seq<u8>, tx: Seq<u8>) -> SpecValue {
    SpecValue::Dict(
        seq![
            (key_a(), SpecValue::Dict(seq![(key_id(), SpecValue::Bytes(node_id))])),
            (key_q(), SpecValue::Bytes(word_ping())),
            (key_t(), SpecValue::Bytes(tx)),
            (key_y(), SpecValue::Bytes(key_q())),
        ],
    )
}

fn entries_append(r: &mut Vec<(Vec<u8>, Value)>, extra: Vec<(Vec<u8>, Value)>)
    ensures
        entries_view(final(r)@) == entries_view(old(r)@) + entries_view(extra@),
{
    let mut extra = extra;
    let ghost a = r@;
    let ghost b = extra@;
    r.append(&mut extra);
    proof {
        crate::bencode::lemma_entries_view_index(a);
        crate::bencode::lemma_entries_view_index(b);
        crate::bencode::lemma_entries_view_index(r@);
        assert(r@ =~= a + b);
        assert(entries_view(r@) =~= entries_view(a) + entries_view(b));
    }
}

/// Encodes an answer (see `spec_response`).
pub fn build_response(node_id: &[u8; 20], tx: &[u8], extra: Vec<(Vec<u8>, Value)>, observed_addr: DhtAddr) -> (r:
    Vec<u8>)
    ensures
        r@ == spec_encode(spec_response(node_id@, tx@, entries_view(extra@), observed_addr)),
{
    let kid: [u8; 2] = [105, 100];
    let kip: [u8; 2] = [105, 112];
    let kt: [u8; 1] = [116];
    let ky: [u8; 1] = [121];
    let kr: [u8; 1] = [114];
    assert(kid@ =~= key_id());
    assert(kip@ =~= key_ip());
    assert(kt@ =~= key_t());
    assert(ky@ =~= key_y());
    assert(kr@ =~= key_r());
    let mut r: Vec<(Vec<u8>, Value)> = Vec::new();
    assert(entries_view(r@) =~= Seq::<(Seq<u8>, SpecValue)>::empty());
    push_entry(&mut r, kid.as_slice(), bytes_value(node_id.as_slice()));
    entries_append(&mut r, extra);
    let mut d: Vec<(Vec<u8>, Value)> = Vec::new();
    push_entry(&mut d, kip.as_slice(), Value::Bytes(encode_peer(normalize_dht_addr(observed_addr))));
    push_entry(&mut d, kt.as_slice(), bytes_value(tx));
    push_entry(&mut d, ky.as_slice(), bytes_value(kr.as_slice()));
    push_entry(&mut d, kr.as_slice(), Value::Dict(r));
    let v = Value::Dict(d);
    proof {
        assert(spec_encode_peer(DhtAddr { ip: spec_normalize_ip(observed_addr.ip), port: observed_addr.port })
            == spec_encode_peer(observed_addr)) by {
            crate::dht::lemma_normalize_ip_idempotent(observed_addr.ip);
        }
        assert(entries_view(r@) =~= seq![(key_id(), SpecValue::Bytes(node_id@))] + entries_view(extra@));
        assert(entries_view(d@) =~= spec_response(node_id@, tx@, entries_view(extra@), observed_addr)->Dict_0);
    }
    encode(&v)
}

/// Encodes a `ping` query (see `spec_ping_query`).
pub fn build_ping_query(node_id: &[u8; 20], tx: &[u8]) -> (r: Vec<u8>)
    ensures
        r@ == spec_encode(spec_ping_query(node_id@, tx@)),
{
    let kid: [u8; 2] = [105, 100];
    let ka: [u8; 1] = [97];
    let kq: [u8; 1] = [113];
    let kt: [u8; 1] = [116];
    let ky: [u8; 1] = [121];
    let ping: [u8; 4] = [112, 105, 110, 103];
    assert(kid@ =~= key_id());
    assert(ka@ =~= key_a());
    assert(kq@ =~= key_q());
    assert(kt@ =~= key_t());
    assert(ky@ =~= key_y());
    assert(ping@ =~= word_ping());
    let mut a: Vec<(Vec<u8>, Value)> = Vec::new();
    assert(entries_view(a@) =~= Seq::<(Seq<u8>, SpecValue)>::empty());
    push_entry(&mut a, kid.as_slice(), bytes_value(node_id.as_slice()));
    let mut d: Vec<(Vec<u8>, Value)> = Vec::new();
    assert(entries_view(d@) =~= Seq::<(Seq<u8>, SpecValue)>::empty());
    push_entry(&mut d, ka.as_slice(), Value::Dict(a));
    push_entry(&mut d, kq.as_slice(), bytes_value(ping.as_slice()));
    push_entry(&mut d, kt.as_slice(), bytes_value(tx));
    push_entry(&mut d, ky.as_slice(), bytes_value(kq.as_slice()));
    let v = Value::Dict(d);
    assert(entries_view(a@) =~= seq![(key_id(), SpecValue::Bytes(node_id@))]);
    assert(entries_view(d@) =~= spec_ping_query(node_id@, tx@)->Dict_0);
    encode(&v)
}

fn query_value(tx: &[u8], word: &[u8], a: Vec<(Vec<u8>, Value)>) -> (r: Value)
    ensures
        r@ == spec_query(tx@, word@, entries_view(a@)),
{
    let ka: [u8; 1] = [97];
    let kq: [u8; 1] = [113];
    let kt: [u8; 1] = [116];
    let ky: [u8; 1] = [121];
    assert(ka@ =~= key_a());
    assert(kq@ =~= key_q());
    assert(kt@ =~= key_t());
    assert(ky@ =~= key_y());
    let mut d: Vec<(Vec<u8>, Value)> = Vec::new();
    assert(entries_view(d@) =~= Seq::<(Seq<u8>, SpecValue)>::empty());
    push_entry(&mut d, kt.as_slice(), bytes_value(tx));
    push_entry(&mut d, ky.as_slice(), bytes_value(kq.as_slice()));
    push_entry(&mut d, kq.as_slice(), bytes_value(word));
    push_entry(&mut d, ka.as_slice(), Value::Dict(a));
    let v = Value::Dict(d);
    assert(entries_view(d@) =~= spec_query(tx@, word@, entries_view(a@))->Dict_0);
    v
}

/// Encodes a `get_peers` query for a torrent.
pub fn build_get_peers_query(node_id: &[u8; 20], info_hash: [u8; 20], tx: &[u8]) -> (r: Vec<u8>)
    ensures
        r@ == spec_encode(
            spec_query(
                tx@,
                word_get_peers(),
                seq![(key_id(), SpecValue::Bytes(node_id@)), (key_info_hash(), SpecValue::Bytes(info_hash@))],
            ),
        ),
{
    let kid: [u8; 2] = [105, 100];
    let kih: [u8; 9] = [105, 110, 102, 111, 95, 104, 97, 115, 104];
    let word: [u8; 9] = [103, 101, 116, 95, 112, 101, 101, 114, 115];
    assert(kid@ =~= key_id());
    assert(kih@ =~= key_info_hash());
    assert(word@ =~= word_get_peers());
    let mut a: Vec<(Vec<u8>, Value)> = Vec::new();
    assert(entries_view(a@) =~= Seq::<(Seq<u8>, SpecValue)>::empty());
    push_entry(&mut a, kid.as_slice(), bytes_value(node_id.as_slice()));
    push_entry(&mut a, kih.as_slice(), bytes_value(info_hash.as_slice()));
    assert(entries_view(a@) =~= seq![(key_id(), SpecValue::Bytes(node_id@)), (key_info_hash(), SpecValue::Bytes(info_hash@))]);
    let v = query_value(tx, word.as_slice(), a);
    encode(&v)
}

/// Encodes an `announce_peer` query: our port and the token the node
/// handed us.
pub fn build_announce_peer_query(node_id: &[u8; 20], info_hash: [u8; 20], port: u16, token: &[u8], tx: &[u8]) -> (r:
    Vec<u8>)
    ensures
        r@ == spec_encode(
            spec_query(
                tx@,
                word_announce_peer(),
                seq![
                    (key_id(), SpecValue::Bytes(node_id@)),
                    (key_info_hash(), SpecValue::Bytes(info_hash@)),
                    (key_port(), SpecValue::Int(port as int)),
                    (key_token(), SpecValue::Bytes(token@)),
                ],
            ),
        ),
{
    let kid: [u8; 2] = [105, 100];
    let kih: [u8; 9] = [105, 110, 102, 111, 95, 104, 97, 115, 104];
    let kp: [u8; 4] = [112, 111, 114, 116];
    let ktk: [u8; 5] = [116, 111, 107, 101, 110];
    let word: [u8; 13] = [97, 110, 110, 111, 117, 110, 99, 101, 95, 112, 101, 101, 114];
    assert(kid@ =~= key_id());
    assert(kih@ =~= key_info_hash());
    assert(kp@ =~= key_port());
    assert(ktk@ =~= key_token());
    assert(word@ =~= word_announce_peer());
    let mut a: Vec<(Vec<u8>, Value)> = Vec::new();
    assert(entries_view(a@) =~= Seq::<(Seq<u8>, SpecValue)>::empty());
    push_entry(&mut a, kid.as_slice(), bytes_value(node_id.as_slice()));
    push_entry(&mut a, kih.as_slice(), bytes_value(info_hash.as_slice()));
    push_entry(&mut a, kp.as_slice(), Value::Int(port as i64));
    push_entry(&mut a, ktk.as_slice(), bytes_value(token));
    assert(entries_view(a@) =~= seq![
        (key_id(), SpecValue::Bytes(node_id@)),
        (key_info_hash(), SpecValue::Bytes(info_hash@)),
        (key_port(), SpecValue::Int(port as int)),
        (key_token(), SpecValue::Bytes(token@)),
    ]);
    let v = query_value(tx, word.as_slice(), a);
    encode(&v)
}

/// Encodes a `find_node` query for `target`.
pub fn build_find_node_query(node_id: &[u8; 20], target: &[u8; 20], tx: &[u8]) -> (r: Vec<u8>)
    ensures
        r@ == spec_encode(
            spec_query(
                tx@,
                word_find_node(),
                seq![(key_id(), SpecValue::Bytes(node_id@)), (key_target(), SpecValue::Bytes(target@))],
            ),
        ),
{
    let kid: [u8; 2] = [105, 100];
    let ktg: [u8; 6] = [116, 97, 114, 103, 101, 116];
    let word: [u8; 9] = [102, 105, 110, 100, 95, 110, 111, 100, 101];
    assert(kid@ =~= key_id());
    assert(ktg@ =~= key_target());
    assert(word@ =~= word_find_node());
    let mut a: Vec<(Vec<u8>, Value)> = Vec::new();
    assert(entries_view(a@) =~= Seq::<(Seq<u8>, SpecValue)>::empty());
    push_entry(&mut a, kid.as_slice(), bytes_value(node_id.as_slice()));
    push_entry(&mut a, ktg.as_slice(), bytes_value(target.as_slice()));
    assert(entries_view(a@) =~= seq![(key_id(), SpecValue::Bytes(node_id@)), (key_target(), SpecValue::Bytes(target@))]);
    let v = query_value(tx, word.as_slice(), a);
    encode(&v)
}

} // verus!

verus! {

// ---------------------------------------------------------------------
// Announce tokens that rotate
// ---------------------------------------------------------------------

/// How often the token secret changes, in milliseconds.
pub const TOKEN_ROTATION_INTERVAL_MS: u64 = 300_000;

/// The secret tokens are made with now, the one before it, and when it
/// last changed (in milliseconds).
pub struct TokenSecrets {
    pub current: [u8; 20],
    pub previous: Option<[u8; 20]>,
    pub rotated_at: u64,
}

/// Twenty bytes from the operating system's random source
/// (`getrandom::fill`), or nothing when it fails. The bytes are chance, so
/// nothing is stated of them.
#[verifier::external_body]
pub(crate) fn secure_random_id() -> (r: Option<[u8; 20]>) {
    let mut out = [0u8; 20];
    getrandom::fill(&mut out).ok()?;
    Some(out)
}

/// Whether the secret is due to change at `now`.
pub open spec fn rotation_due(rotated_at: u64, now: u64) -> bool {
    now >= rotated_at && now - rotated_at >= TOKEN_ROTATION_INTERVAL_MS
}

/// A token we handed out with the current or the previous secret.
pub open spec fn spec_token_ok(current: Seq<u8>, previous: Option<[u8; 20]>, addr: DhtAddr, token: Seq<u8>) -> bool {
    ||| token == spec_make_token(current, addr)
    ||| (previous matches Some(p) && token == spec_make_token(p@, addr))
}

impl TokenSecrets {
    /// Fresh secrets made at `now`, or nothing when the random source
    /// fails.
    pub fn new(now: u64) -> (r: Option<Self>)
        ensures
            r matches Some(s) ==> s.previous is None && s.rotated_at == now,
    {
        match secure_random_id() {
            Some(current) => Some(TokenSecrets { current, previous: None, rotated_at: now }),
            None => None,
        }
    }

    /// Changes the secret to `next` when due at `now`, keeping the current
    /// one as the previous; without a new secret the current one stays.
    /// The time of the change is recorded either way.
    pub fn rotate_with(&mut self, next: Option<[u8; 20]>, now: u64)
        ensures
            !rotation_due(old(self).rotated_at, now) ==> *final(self) == *old(self),
            rotation_due(old(self).rotated_at, now) ==> final(self).rotated_at == now && match next {
                Some(n) => final(self).current == n && final(self).previous == Some(old(self).current),
                None => final(self).current == old(self).current && final(self).previous == old(self).previous,
            },
    {
        if now < self.rotated_at || now - self.rotated_at < TOKEN_ROTATION_INTERVAL_MS {
            return;
        }
        if let Some(n) = next {
            self.previous = Some(self.current);
            self.current = n;
        }
        self.rotated_at = now;
    }

    /// Changes the secret to a random one when due at `now` (see
    /// `rotate_with`).
    pub fn rotate_if_due(&mut self, now: u64)
        ensures
            !rotation_due(old(self).rotated_at, now) ==> *final(self) == *old(self),
            rotation_due(old(self).rotated_at, now) ==> final(self).rotated_at == now,
            rotation_due(old(self).rotated_at, now) ==> (final(self).current == old(self).current
                && final(self).previous == old(self).previous) || final(self).previous == Some(old(self).current),
    {
        if now < self.rotated_at || now - self.rotated_at < TOKEN_ROTATION_INTERVAL_MS {
            return;
        }
        let next = secure_random_id();
        self.rotate_with(next, now);
    }

    /// The token for `addr` under the current secret.
    pub fn make(&self, addr: &DhtAddr) -> (r: [u8; 4])
        ensures
            r@ == spec_make_token(self.current@, *addr),
    {
        make_token(&self.current, addr)
    }

    /// Whether `token` was made for `addr` with the current or the previous
    /// secret.
    pub fn verify(&self, addr: &DhtAddr, token: &[u8]) -> (r: bool)
        ensures
            r == spec_token_ok(self.current@, self.previous, *addr, token@),
    {
        if verify_token(&self.current, addr, token) {
            return true;
        }
        match &self.previous {
            Some(p) => verify_token(p, addr, token),
            None => false,
        }
    }
}

} // verus!

verus! {

// ---------------------------------------------------------------------
// Answering queries
// ---------------------------------------------------------------------

/// What a query leads to: the encoded answer to send back, if any, and a
/// peer newly announced for a torrent, to hand to that torrent.
pub struct QueryReply {
    pub response: Option<Vec<u8>>,
    pub announced: Option<([u8; 20], DhtAddr)>,
}

/// The parts of a query: a transaction id of 1 to `MAX_TRANSACTION_ID_LEN`
/// bytes, the query's name, its arguments and the sender's 20-byte id.
pub open spec fn query_header(d: Seq<(Seq<u8>, SpecValue)>) -> Option<
    (Seq<u8>, Seq<u8>, Seq<(Seq<u8>, SpecValue)>, Seq<u8>),
> {
    match sdict_get_from(d, key_t(), 0) {
        Some(SpecValue::Bytes(tx)) if 0 < tx.len() <= MAX_TRANSACTION_ID_LEN => match sdict_get_from(d, key_q(), 0) {
            Some(SpecValue::Bytes(q)) => match sdict_get_from(d, key_a(), 0) {
                Some(SpecValue::Dict(args)) => match sdict_get_from(args, key_id(), 0) {
                    Some(SpecValue::Bytes(id)) if id.len() == 20 => Some((tx, q, args, id)),
                    _ => None,
                },
                _ => None,
            },
            _ => None,
        },
        _ => None,
    }
}

/// A stored peer handed to a requester: still fresh, of the requester's
/// family, and in a scope the requester may learn of.
pub open spec fn peer_value_ok(p: StoredPeer, requester: DhtAddr, now: u64) -> bool {
    &&& peer_fresh(p, now)
    &&& (p.addr.ip is V4) == (requester.ip is V4)
    &&& spec_scope_allowed(requester, p.addr)
}

pub open spec fn passing_values(ps: Seq<StoredPeer>, requester: DhtAddr, now: u64) -> Seq<SpecValue>
    decreases ps.len(),
{
    if ps.len() == 0 {
        Seq::empty()
    } else {
        let r = passing_values(ps.drop_last(), requester, now);
        if peer_value_ok(ps.last(), requester, now) {
            r.push(SpecValue::Bytes(spec_encode_peer(ps.last().addr)))
        } else {
            r
        }
    }
}

/// The first fifty.
pub open spec fn first50(s: Seq<SpecValue>) -> Seq<SpecValue> {
    if s.len() > 50 {
        s.subrange(0, 50)
    } else {
        s
    }
}

/// The `values` of a `get_peers` answer: the first fifty stored peers
/// handed to the requester, in compact form.
pub open spec fn peer_values(ps: Seq<StoredPeer>, requester: DhtAddr, now: u64) -> Seq<SpecValue> {
    first50(passing_values(ps, requester, now))
}

/// The fields of a `get_peers` answer after the token: the torrent's
/// peers, or the closest nodes when there are none to hand out.
pub open spec fn get_peers_fields(
    t: TableModel,
    hash: Seq<u8>,
    requester: DhtAddr,
    args: Seq<(Seq<u8>, SpecValue)>,
    m: Seq<SwarmModel>,
    now: u64,
) -> Seq<(Seq<u8>, SpecValue)> {
    match find_swarm(m, hash, 0) {
        Some(i) => {
            let vals = peer_values(m[i].1, requester, now);
            if vals.len() == 0 {
                spec_node_fields(t, hash, requester, args)
            } else {
                seq![(key_values(), SpecValue::List(vals))]
            }
        },
        None => spec_node_fields(t, hash, requester, args),
    }
}

/// The 20 bytes under `key`.
pub open spec fn bytes20(args: Seq<(Seq<u8>, SpecValue)>, key: Seq<u8>) -> Option<Seq<u8>> {
    match sdict_get_from(args, key, 0) {
        Some(SpecValue::Bytes(b)) if b.len() == 20 => Some(b),
        _ => None,
    }
}

/// The port an announce gives: the sender's own when `implied_port` is a
/// non-zero integer, else the announced one.
pub open spec fn announce_port(args: Seq<(Seq<u8>, SpecValue)>, p: int, sender: DhtAddr) -> u16 {
    match sdict_get_from(args, key_implied_port(), 0) {
        Some(SpecValue::Int(v)) if v != 0 => sender.port,
        _ => p as u16,
    }
}

/// What a query `q` with `args` and transaction `tx` from the normalized
/// endpoint `a` leads to, given the routing table `t` (after the sender
/// was refreshed) and the peer store `m`: the answer, the store after it,
/// and a newly announced peer. `ping` is answered with our id;
/// `find_node` with the closest nodes to its 20-byte target; `get_peers`
/// with a token and the torrent's peers or the closest nodes; an
/// `announce_peer` with a valid token and a port from 1 to 65535 admits the
/// peer and is answered with our id. Anything else gets no answer.
pub open spec fn spec_query_outcome(
    q: Seq<u8>,
    args: Seq<(Seq<u8>, SpecValue)>,
    tx: Seq<u8>,
    a: DhtAddr,
    node_id: Seq<u8>,
    current: Seq<u8>,
    previous: Option<[u8; 20]>,
    t: TableModel,
    m: Seq<SwarmModel>,
    now: u64,
) -> (Option<SpecValue>, Seq<SwarmModel>, Option<(Seq<u8>, DhtAddr)>) {
    if q == word_ping() {
        (Some(spec_response(node_id, tx, Seq::empty(), a)), m, None)
    } else if q == word_find_node() {
        match bytes20(args, key_target()) {
            Some(target) => (Some(spec_response(node_id, tx, spec_node_fields(t, target, a, args), a)), m, None),
            None => (None, m, None),
        }
    } else if q == word_get_peers() {
        match bytes20(args, key_info_hash()) {
            Some(h) => (
                Some(
                    spec_response(
                        node_id,
                        tx,
                        seq![(key_token(), SpecValue::Bytes(spec_make_token(current, a)))] + get_peers_fields(
                            t,
                            h,
                            a,
                            args,
                            m,
                            now,
                        ),
                        a,
                    ),
                ),
                m,
                None,
            ),
            None => (None, m, None),
        }
    } else if q == word_announce_peer() {
        match (
            sdict_get_from(args, key_info_hash(), 0),
            sdict_get_from(args, key_token(), 0),
            sdict_get_from(args, key_port(), 0),
        ) {
            (Some(SpecValue::Bytes(h)), Some(SpecValue::Bytes(tok)), Some(SpecValue::Int(p))) => {
                if spec_token_ok(current, previous, a, tok) && 0 < p <= 65535 && h.len() == 20 {
                    let peer = DhtAddr { ip: a.ip, port: announce_port(args, p, a) };
                    let (m2, added) = spec_admit(m, h, peer, now);
                    (
                        Some(spec_response(node_id, tx, Seq::empty(), a)),
                        m2,
                        if added {
                            Some((h, peer))
                        } else {
                            None
                        },
                    )
                } else {
                    (None, m, None)
                }
            },
            _ => (None, m, None),
        }
    } else {
        (None, m, None)
    }
}

/// An announced peer is the sender's address with the announced port: the
/// `port` argument, unless `implied_port` is a non-zero integer, in which
/// case the port the query came from.
pub proof fn lemma_announced_peer_port(
    args: Seq<(Seq<u8>, SpecValue)>,
    tx: Seq<u8>,
    a: DhtAddr,
    node_id: Seq<u8>,
    current: Seq<u8>,
    previous: Option<[u8; 20]>,
    t: TableModel,
    m: Seq<SwarmModel>,
    now: u64,
)
    ensures
        ({
            let out = spec_query_outcome(word_announce_peer(), args, tx, a, node_id, current, previous, t, m, now);
            let implied = sdict_get_from(args, key_implied_port(), 0);
            let nonzero = implied matches Some(SpecValue::Int(v)) && v != 0;
            out.2 matches Some((h, peer)) ==> {
                &&& peer.ip == a.ip
                &&& sdict_get_from(args, key_info_hash(), 0) == Some(SpecValue::Bytes(h))
                &&& sdict_get_from(args, key_port(), 0) matches Some(SpecValue::Int(p)) && (!nonzero ==> peer.port
                    == p)
                &&& nonzero ==> peer.port == a.port
            }
        }),
{
    assert(word_announce_peer() != word_ping());
    assert(word_announce_peer() != word_find_node());
    assert(word_announce_peer() != word_get_peers());
}

fn peer_values_exec(ps: &[StoredPeer], requester: DhtAddr, now: u64) -> (r: Vec<Value>)
    ensures
        crate::bencode::list_view(r@) == peer_values(ps@, requester, now),
{
    let mut out: Vec<Value> = Vec::new();
    let mut k: usize = 0;
    assert(ps@.subrange(0, 0) =~= Seq::<StoredPeer>::empty());
    assert(crate::bencode::list_view(out@) =~= Seq::<SpecValue>::empty());
    while k < ps.len()
        invariant
            k <= ps@.len(),
            crate::bencode::list_view(out@) == first50(passing_values(ps@.subrange(0, k as int), requester, now)),
        decreases ps@.len() - k,
    {
        let ghost pre = passing_values(ps@.subrange(0, k as int), requester, now);
        assert(ps@.subrange(0, k + 1).drop_last() =~= ps@.subrange(0, k as int));
        let p = ps[k];
        let fresh = now <= p.last_seen || now - p.last_seen <= crate::dht_store::PEER_STORE_TTL_MS;
        let same_family = match (p.addr.ip, requester.ip) {
            (DhtIp::V4(_), DhtIp::V4(_)) => true,
            (DhtIp::V6(_), DhtIp::V6(_)) => true,
            _ => false,
        };
        if fresh && same_family && dht_address_scope_allowed(requester, p.addr) {
            let ghost x = SpecValue::Bytes(spec_encode_peer(p.addr));
            proof {
                crate::bencode::lemma_list_view_index(out@);
            }
            if out.len() < 50 {
                let v = Value::Bytes(encode_peer(p.addr));
                proof {
                    crate::bencode::lemma_list_view_push(out@, v);
                    assert(first50(pre.push(x)) =~= first50(pre).push(x));
                }
                out.push(v);
            } else {
                proof {
                    assert(first50(pre.push(x)) =~= first50(pre));
                }
            }
        }
        k = k + 1;
    }
    assert(ps@.subrange(0, k as int) =~= ps@);
    out
}

fn get_bytes20(args: &[(Vec<u8>, Value)], key: &[u8]) -> (r: Option<[u8; 20]>)
    ensures
        match bytes20(entries_view(args@), key@) {
            Some(b) => r matches Some(x) && x@ == b,
            None => r is None,
        },
{
    match dict_get(args, key) {
        Some(Value::Bytes(b)) => {
            if b.len() == 20 {
                let mut x = [0u8; 20];
                let mut i: usize = 0;
                while i < 20
                    invariant
                        i <= 20,
                        b@.len() == 20,
                        forall|j: int| 0 <= j < i ==> x@[j] == b@[j],
                    decreases 20 - i,
                {
                    x.set(i, b[i]);
                    i = i + 1;
                }
                assert(x@ =~= b@);
                Some(x)
            } else {
                None
            }
        },
        _ => None,
    }
}

} // verus!

verus! {

/// Answers a query from `addr` (see `spec_query_outcome`). A query whose
/// transaction id, name, arguments or sender id is missing or malformed
/// is dropped unanswered and changes nothing; otherwise the sender is
/// first refreshed in the routing table when the table knows it there.
pub fn handle_query(
    dict: &[(Vec<u8>, Value)],
    addr: DhtAddr,
    node_id: &[u8; 20],
    token_secrets: &TokenSecrets,
    rt: &mut RoutingTable,
    peer_store: &mut PeerStore,
    now: u64,
) -> (r: QueryReply)
    requires
        old(rt).wf(),
        old(peer_store).wf(),
    ensures
        final(rt).wf(),
        final(peer_store).wf(),
        match query_header(entries_view(dict@)) {
            None => r.response is None && r.announced is None && final(rt).model() == old(rt).model()
                && final(peer_store).model() == old(peer_store).model(),
            Some(hd) => {
                let a = DhtAddr { ip: spec_normalize_ip(addr.ip), port: addr.port };
                let t = spec_refresh(old(rt).model(), hd.3, a, now).0;
                let out = spec_query_outcome(
                    hd.1,
                    hd.2,
                    hd.0,
                    a,
                    node_id@,
                    token_secrets.current@,
                    token_secrets.previous,
                    t,
                    old(peer_store).model(),
                    now,
                );
                &&& final(rt).model() == t
                &&& final(peer_store).model() == out.1
                &&& match out.0 {
                    Some(v) => r.response matches Some(b) && b@ == spec_encode(v),
                    None => r.response is None,
                }
                &&& match out.2 {
                    Some(hp) => r.announced matches Some(x) && x.0@ == hp.0 && x.1 == hp.1,
                    None => r.announced is None,
                }
            },
        },
{
    let kt: [u8; 1] = [116];
    let kq: [u8; 1] = [113];
    let ka: [u8; 1] = [97];
    let kid: [u8; 2] = [105, 100];
    let ktarget: [u8; 6] = [116, 97, 114, 103, 101, 116];
    let kih: [u8; 9] = [105, 110, 102, 111, 95, 104, 97, 115, 104];
    let ktoken: [u8; 5] = [116, 111, 107, 101, 110];
    let kport: [u8; 4] = [112, 111, 114, 116];
    let kimplied: [u8; 12] = [105, 109, 112, 108, 105, 101, 100, 95, 112, 111, 114, 116];
    let kvalues: [u8; 6] = [118, 97, 108, 117, 101, 115];
    let ping: [u8; 4] = [112, 105, 110, 103];
    let find_node: [u8; 9] = [102, 105, 110, 100, 95, 110, 111, 100, 101];
    let get_peers: [u8; 9] = [103, 101, 116, 95, 112, 101, 101, 114, 115];
    let announce: [u8; 13] = [97, 110, 110, 111, 117, 110, 99, 101, 95, 112, 101, 101, 114];
    assert(kt@ =~= key_t());
    assert(kq@ =~= key_q());
    assert(ka@ =~= key_a());
    assert(kid@ =~= key_id());
    assert(ktarget@ =~= key_target());
    assert(kih@ =~= key_info_hash());
    assert(ktoken@ =~= key_token());
    assert(kport@ =~= key_port());
    assert(kimplied@ =~= key_implied_port());
    assert(kvalues@ =~= key_values());
    assert(ping@ =~= word_ping());
    assert(find_node@ =~= word_find_node());
    assert(get_peers@ =~= word_get_peers());
    assert(announce@ =~= word_announce_peer());
    let a = normalize_dht_addr(addr);
    let tx = match dict_get(dict, kt.as_slice()) {
        Some(Value::Bytes(tx)) => {
            if tx.len() == 0 || tx.len() > MAX_TRANSACTION_ID_LEN {
                return QueryReply { response: None, announced: None };
            }
            tx
        },
        _ => {
            return QueryReply { response: None, announced: None };
        },
    };
    let query = match dict_get(dict, kq.as_slice()) {
        Some(Value::Bytes(q)) => q,
        _ => {
            return QueryReply { response: None, announced: None };
        },
    };
    let args = match dict_get(dict, ka.as_slice()) {
        Some(Value::Dict(args)) => args,
        _ => {
            return QueryReply { response: None, announced: None };
        },
    };
    let sender = match get_bytes20(args.as_slice(), kid.as_slice()) {
        Some(x) => x,
        None => {
            return QueryReply { response: None, announced: None };
        },
    };
    let _ = rt.refresh_verified(&sender, a, now);
    proof {
        crate::dht::lemma_normalize_ip_idempotent(addr.ip);
    }
    if bytes_equal(query.as_slice(), ping.as_slice()) {
        let empty: Vec<(Vec<u8>, Value)> = Vec::new();
        assert(entries_view(empty@) =~= Seq::<(Seq<u8>, SpecValue)>::empty());
        let resp = build_response(node_id, tx.as_slice(), empty, a);
        return QueryReply { response: Some(resp), announced: None };
    }
    if bytes_equal(query.as_slice(), find_node.as_slice()) {
        let target = match get_bytes20(args.as_slice(), ktarget.as_slice()) {
            Some(x) => x,
            None => {
                return QueryReply { response: None, announced: None };
            },
        };
        let fields = closest_node_fields(rt, &target, a, args.as_slice());
        let resp = build_response(node_id, tx.as_slice(), fields, a);
        return QueryReply { response: Some(resp), announced: None };
    }
    if bytes_equal(query.as_slice(), get_peers.as_slice()) {
        let h = match get_bytes20(args.as_slice(), kih.as_slice()) {
            Some(x) => x,
            None => {
                return QueryReply { response: None, announced: None };
            },
        };
        let token = token_secrets.make(&a);
        let mut r: Vec<(Vec<u8>, Value)> = Vec::new();
        assert(entries_view(r@) =~= Seq::<(Seq<u8>, SpecValue)>::empty());
        push_entry(&mut r, ktoken.as_slice(), bytes_value(token.as_slice()));
        let ghost head = entries_view(r@);
        match peer_store.get(&h) {
            Some(peers) => {
                let vals = peer_values_exec(peers, a, now);
                if vals.len() == 0 {
                    proof {
                        crate::bencode::lemma_list_view_index(vals@);
                    }
                    let fields = closest_node_fields(rt, &h, a, args.as_slice());
                    entries_append(&mut r, fields);
                } else {
                    proof {
                        crate::bencode::lemma_list_view_index(vals@);
                    }
                    push_entry(&mut r, kvalues.as_slice(), Value::List(vals));
                    assert(entries_view(r@) =~= head + seq![
                        (key_values(), SpecValue::List(peer_values(peer_store.model()[find_swarm(peer_store.model(), h@, 0)->0].1, a, now))),
                    ]);
                }
            },
            None => {
                let fields = closest_node_fields(rt, &h, a, args.as_slice());
                entries_append(&mut r, fields);
            },
        }
        let resp = build_response(node_id, tx.as_slice(), r, a);
        return QueryReply { response: Some(resp), announced: None };
    }
    if bytes_equal(query.as_slice(), announce.as_slice()) {
        let info_hash = match dict_get(args.as_slice(), kih.as_slice()) {
            Some(Value::Bytes(b)) => b,
            _ => {
                return QueryReply { response: None, announced: None };
            },
        };
        let token = match dict_get(args.as_slice(), ktoken.as_slice()) {
            Some(Value::Bytes(b)) => b,
            _ => {
                return QueryReply { response: None, announced: None };
            },
        };
        if !token_secrets.verify(&a, token.as_slice()) {
            return QueryReply { response: None, announced: None };
        }
        let announced_port: u16 = match dict_get(args.as_slice(), kport.as_slice()) {
            Some(Value::Int(p)) => {
                if *p > 0 && *p <= 65535 {
                    *p as u16
                } else {
                    return QueryReply { response: None, announced: None };
                }
            },
            _ => {
                return QueryReply { response: None, announced: None };
            },
        };
        let port: u16 = match dict_get(args.as_slice(), kimplied.as_slice()) {
            Some(Value::Int(v)) => {
                if *v != 0 {
                    a.port
                } else {
                    announced_port
                }
            },
            _ => announced_port,
        };
        let h = match get_bytes20(args.as_slice(), kih.as_slice()) {
            Some(x) => x,
            None => {
                return QueryReply { response: None, announced: None };
            },
        };
        let peer_addr = DhtAddr { ip: a.ip, port };
        let added = crate::dht_store::admit_announced_peer(peer_store, h, peer_addr, now);
        let empty: Vec<(Vec<u8>, Value)> = Vec::new();
        assert(entries_view(empty@) =~= Seq::<(Seq<u8>, SpecValue)>::empty());
        let resp = build_response(node_id, tx.as_slice(), empty, a);
        return QueryReply { response: Some(resp), announced: if added {
            Some((h, peer_addr))
        } else {
            None
        } };
    }
    QueryReply { response: None, announced: None }
}

} // verus!

verus! {

// ---------------------------------------------------------------------
// Matching responses to the queries sent
// ---------------------------------------------------------------------

/// A query sent and not yet answered: its transaction id, the endpoint it
/// went to, and the node id the answer must carry, when one is expected.
#[derive(Clone, Debug)]
pub struct PendingQuery {
    pub tx: Vec<u8>,
    pub addr: DhtAddr,
    pub expected_id: Option<[u8; 20]>,
    pub kind: PendingKind,
    /// When it was sent, in milliseconds.
    pub sent_at: u64,
}

/// Why a query was sent.
#[derive(Clone, Copy, Debug)]
pub enum PendingKind {
    /// A lookup of a torrent's peers.
    GetPeers([u8; 20]),
    /// A lookup of nodes.
    FindNode,
    /// A ping of a node before it enters the table.
    VerifyNode,
    /// Probe number `attempt` of a questionable node that `candidate` may
    /// replace, the first sent at `probe_started_at`.
    ReplaceNode { candidate: crate::dht::TableNode, attempt: u8, probe_started_at: u64 },
    /// A query of a bucket refresh lookup.
    RefreshBucket(u64),
}

/// What a response is taken as.
#[derive(Clone, Copy, Debug, PartialEq, Eq)]
pub enum ResponseMatch {
    /// Not an answer to any pending query: dropped.
    Ignore,
    /// The answer to pending query `k` from the wrong node: the query fails.
    Reject(usize),
    /// The answer to pending query `k` from the responder with this id.
    Accept(usize, [u8; 20]),
}

/// The first pending query with transaction id `tx`.
pub open spec fn pending_with_tx(p: Seq<PendingQuery>, tx: Seq<u8>, i: int) -> Option<int>
    decreases p.len() - i,
{
    if i < 0 || i >= p.len() {
        None
    } else if p[i].tx@ == tx {
        Some(i)
    } else {
        pending_with_tx(p, tx, i + 1)
    }
}

/// The transaction id (1 to `MAX_TRANSACTION_ID_LEN` bytes) and the
/// responder's 20-byte id of a response, when it has both and a `r`
/// dictionary.
pub open spec fn response_header(d: Seq<(Seq<u8>, SpecValue)>) -> Option<(Seq<u8>, Seq<u8>)> {
    match sdict_get_from(d, key_t(), 0) {
        Some(SpecValue::Bytes(tx)) if 0 < tx.len() <= MAX_TRANSACTION_ID_LEN => match sdict_get_from(d, key_r(), 0) {
            Some(SpecValue::Dict(r)) => match bytes20(r, key_id()) {
                Some(id) => Some((tx, id)),
                None => None,
            },
            _ => None,
        },
        _ => None,
    }
}

/// How a response from `addr` is taken: it must name a pending query sent
/// to that endpoint; the query fails when the responder's id is not the
/// one expected or not valid for its address.
pub open spec fn spec_match_response(d: Seq<(Seq<u8>, SpecValue)>, addr: DhtAddr, p: Seq<PendingQuery>) -> MatchModel {
    let a = DhtAddr { ip: spec_normalize_ip(addr.ip), port: addr.port };
    match response_header(d) {
        None => MatchModel::Ignore,
        Some((tx, id)) => match pending_with_tx(p, tx, 0) {
            None => MatchModel::Ignore,
            Some(k) => if p[k].addr != a {
                MatchModel::Ignore
            } else if (p[k].expected_id matches Some(e) && e@ != id) || !crate::dht::spec_node_id_matches(id, a) {
                MatchModel::Reject(k)
            } else {
                MatchModel::Accept(k, id)
            },
        },
    }
}

/// `ResponseMatch` with the index and id as plain values.
pub enum MatchModel {
    Ignore,
    Reject(int),
    Accept(int, Seq<u8>),
}

/// Takes a response from `addr` (see `spec_match_response`).
pub fn match_response(dict: &[(Vec<u8>, Value)], addr: DhtAddr, pending: &[PendingQuery]) -> (r: ResponseMatch)
    ensures
        match spec_match_response(entries_view(dict@), addr, pending@) {
            MatchModel::Ignore => r is Ignore,
            MatchModel::Reject(k) => r matches ResponseMatch::Reject(x) && x == k,
            MatchModel::Accept(k, id) => r matches ResponseMatch::Accept(x, y) && x == k && y@ == id,
        },
{
    let kt: [u8; 1] = [116];
    let kr: [u8; 1] = [114];
    let kid: [u8; 2] = [105, 100];
    assert(kt@ =~= key_t());
    assert(kr@ =~= key_r());
    assert(kid@ =~= key_id());
    let a = normalize_dht_addr(addr);
    let tx = match dict_get(dict, kt.as_slice()) {
        Some(Value::Bytes(tx)) => {
            if tx.len() == 0 || tx.len() > MAX_TRANSACTION_ID_LEN {
                return ResponseMatch::Ignore;
            }
            tx
        },
        _ => {
            return ResponseMatch::Ignore;
        },
    };
    let r = match dict_get(dict, kr.as_slice()) {
        Some(Value::Dict(r)) => r,
        _ => {
            return ResponseMatch::Ignore;
        },
    };
    let id = match get_bytes20(r.as_slice(), kid.as_slice()) {
        Some(x) => x,
        None => {
            return ResponseMatch::Ignore;
        },
    };
    let mut k: usize = 0;
    while k < pending.len()
        invariant
            k <= pending@.len(),
            pending_with_tx(pending@, tx@, 0) == pending_with_tx(pending@, tx@, k as int),
        ensures
            k <= pending@.len(),
            pending_with_tx(pending@, tx@, 0) == pending_with_tx(pending@, tx@, k as int),
            k < pending@.len() ==> pending@[k as int].tx@ == tx@,
        decreases pending@.len() - k,
    {
        if bytes_equal(pending[k].tx.as_slice(), tx.as_slice()) {
            break;
        }
        k = k + 1;
    }
    if k == pending.len() {
        return ResponseMatch::Ignore;
    }
    if !crate::dht::addr_eq(pending[k].addr, a) {
        return ResponseMatch::Ignore;
    }
    let wrong_id = match pending[k].expected_id {
        Some(e) => !bytes_equal(e.as_slice(), id.as_slice()),
        None => false,
    };
    if wrong_id || !crate::dht::node_id_matches_address(&id, a) {
        return ResponseMatch::Reject(k);
    }
    ResponseMatch::Accept(k, id)
}

} // verus!

verus! {

// ---------------------------------------------------------------------
// Peers a get_peers answer hands out
// ---------------------------------------------------------------------

/// Most peers taken from one answer.
pub const MAX_PEERS_PER_TORRENT: usize = 256;

/// The family of an address: IPv4 before IPv6.
pub open spec fn family_rank(ip: DhtIp) -> int {
    match ip {
        DhtIp::V4(_) => 0,
        DhtIp::V6(_) => 1,
    }
}

/// Socket address order: IPv4 before IPv6, then by address, then by port.
pub open spec fn addr_lt(a: DhtAddr, b: DhtAddr) -> bool {
    family_rank(a.ip) < family_rank(b.ip) || (family_rank(a.ip) == family_rank(b.ip) && (crate::bencode::lex_lt(
        crate::dht::ip_octets(a.ip),
        crate::dht::ip_octets(b.ip),
    ) || (crate::dht::ip_octets(a.ip) == crate::dht::ip_octets(b.ip) && a.port < b.port)))
}

proof fn lemma_addr_order(a: DhtAddr, b: DhtAddr, c: DhtAddr)
    ensures
        !addr_lt(a, a),
        addr_lt(a, b) ==> !addr_lt(b, a),
        addr_lt(a, b) || addr_lt(b, a) || a == b,
        addr_lt(a, b) && addr_lt(b, c) ==> addr_lt(a, c),
{
    let (oa, ob, oc) = (crate::dht::ip_octets(a.ip), crate::dht::ip_octets(b.ip), crate::dht::ip_octets(c.ip));
    crate::bencode::lemma_lex_lt_irreflexive(oa);
    crate::bencode::lemma_lex_trichotomy(oa, ob);
    crate::bencode::lemma_lex_trichotomy(ob, oc);
    crate::bencode::lemma_lex_trichotomy(oa, oc);
    if crate::bencode::lex_lt(oa, ob) && crate::bencode::lex_lt(ob, oc) {
        crate::bencode::lemma_lex_lt_transitive(oa, ob, oc);
    }
    if oa == ob && family_rank(a.ip) == family_rank(b.ip) {
        match (a.ip, b.ip) {
            (DhtIp::V4(x), DhtIp::V4(y)) => {
                assert(x =~= y);
            },
            (DhtIp::V6(x), DhtIp::V6(y)) => {
                assert(x =~= y);
            },
            _ => {},
        }
    }
}

/// Whether `b` is the compact form of the peer `a` (see
/// `decode_peer_value`).
pub open spec fn peer_bytes(b: Seq<u8>, a: DhtAddr) -> bool {
    ||| (b.len() == 6 && crate::dht::port_at(b, 4) != 0 && a.ip is V4 && crate::dht::ip_octets(a.ip) == b.subrange(0, 4)
        && a.port == crate::dht::port_at(b, 4))
    ||| (b.len() == 18 && crate::dht::port_at(b, 16) != 0 && crate::dht::is_normalized_v6(a.ip, b.subrange(0, 16))
        && a.port == crate::dht::port_at(b, 16))
}

/// A peer that the first `n` entries of a `values` list give and that the
/// responder may point at.
pub open spec fn offered_peer(vals: Seq<SpecValue>, n: int, responder: DhtAddr, a: DhtAddr) -> bool {
    exists|k: int|
        0 <= k < n && (#[trigger] vals[k] matches SpecValue::Bytes(b) && peer_bytes(b, a)
            && spec_scope_allowed(responder, a))
}

/// Strictly ascending in socket address order.
pub open spec fn addrs_ascending(s: Seq<DhtAddr>) -> bool {
    forall|i: int, j: int| 0 <= i < j < s.len() ==> addr_lt(#[trigger] s[i], #[trigger] s[j])
}

/// `out` is the least `MAX_PEERS_PER_TORRENT` peers the first `n` values
/// offer, ascending and without repeats.
pub open spec fn least_offered(out: Seq<DhtAddr>, vals: Seq<SpecValue>, n: int, responder: DhtAddr) -> bool {
    &&& out.len() <= MAX_PEERS_PER_TORRENT
    &&& addrs_ascending(out)
    &&& forall|i: int| 0 <= i < out.len() ==> offered_peer(vals, n, responder, #[trigger] out[i])
    &&& forall|a: DhtAddr|
        #[trigger] offered_peer(vals, n, responder, a) ==> out.contains(a) || (out.len()
            == MAX_PEERS_PER_TORRENT && addr_lt(out.last(), a))
}

fn addr_less(a: DhtAddr, b: DhtAddr) -> (r: bool)
    ensures
        r == addr_lt(a, b),
{
    let (fa, oa): (u8, &[u8]) = match &a.ip {
        DhtIp::V4(o) => (0, o.as_slice()),
        DhtIp::V6(o) => (1, o.as_slice()),
    };
    let (fb, ob): (u8, &[u8]) = match &b.ip {
        DhtIp::V4(o) => (0, o.as_slice()),
        DhtIp::V6(o) => (1, o.as_slice()),
    };
    if fa != fb {
        return fa < fb;
    }
    if crate::bencode::bytes_lt(oa, ob) {
        return true;
    }
    bytes_equal(oa, ob) && a.port < b.port
}

/// Adds a peer to the least peers kept so far.
fn keep_least(out: &mut Vec<DhtAddr>, p: DhtAddr)
    requires
        old(out)@.len() <= MAX_PEERS_PER_TORRENT,
        addrs_ascending(old(out)@),
    ensures
        final(out)@.len() <= MAX_PEERS_PER_TORRENT,
        addrs_ascending(final(out)@),
        forall|x: DhtAddr| #[trigger] final(out)@.contains(x) ==> old(out)@.contains(x) || x == p,
        final(out)@.contains(p) || (final(out)@.len() == MAX_PEERS_PER_TORRENT && addr_lt(final(out)@.last(), p)),
        forall|x: DhtAddr|
            #[trigger] old(out)@.contains(x) ==> final(out)@.contains(x) || (final(out)@.len()
                == MAX_PEERS_PER_TORRENT && addr_lt(final(out)@.last(), x)),
        old(out)@.len() == MAX_PEERS_PER_TORRENT ==> final(out)@.len() == MAX_PEERS_PER_TORRENT && !addr_lt(
            old(out)@.last(),
            final(out)@.last(),
        ),
{
    let ghost s = out@;
    let mut j: usize = 0;
    while j < out.len() && addr_less(out[j], p)
        invariant
            out@ == s,
            j <= s.len(),
            forall|k: int| 0 <= k < j ==> addr_lt(#[trigger] s[k], p),
        decreases s.len() - j,
    {
        j = j + 1;
    }
    if j < out.len() && crate::dht::addr_eq(out[j], p) {
        proof {
            assert(s[j as int] == p);
            if s.len() == MAX_PEERS_PER_TORRENT {
                lemma_addr_order(s.last(), s.last(), s.last());
            }
        }
        return;
    }
    if j == MAX_PEERS_PER_TORRENT {
        proof {
            assert(addr_lt(s.last(), p));
            lemma_addr_order(s.last(), s.last(), s.last());
        }
        return;
    }
    proof {
        if j < s.len() {
            lemma_addr_order(s[j as int], p, p);
            assert(addr_lt(p, s[j as int]));
        }
    }
    out.insert(j, p);
    let ghost t = out@;
    proof {
        s.insert_ensures(j as int, p);
        assert forall|a: int, b: int| 0 <= a < b < t.len() implies addr_lt(#[trigger] t[a], #[trigger] t[b]) by {
            if b < j {
                assert(t[a] == s[a] && t[b] == s[b]);
            } else if b == j {
                assert(t[a] == s[a]);
            } else if a == j {
                assert(t[b] == s[b - 1]);
                if b - 1 > j {
                    lemma_addr_order(p, s[j as int], s[b - 1]);
                }
            } else if a < j {
                assert(t[a] == s[a] && t[b] == s[b - 1]);
                lemma_addr_order(s[a], p, s[b - 1]);
                if b - 1 > j {
                    lemma_addr_order(p, s[j as int], s[b - 1]);
                }
                lemma_addr_order(s[a], p, s[j as int]);
                lemma_addr_order(s[a], s[j as int], s[b - 1]);
            } else {
                assert(t[a] == s[a - 1] && t[b] == s[b - 1]);
            }
        }
        assert(t[j as int] == p);
        assert forall|x: DhtAddr| #[trigger] t.contains(x) implies s.contains(x) || x == p by {
            let i = choose|i: int| 0 <= i < t.len() && t[i] == x;
            if i < j {
                assert(s[i] == x);
            } else if i > j {
                assert(s[i - 1] == x);
            }
        }
        assert forall|x: DhtAddr| #[trigger] s.contains(x) implies t.contains(x) by {
            let i = choose|i: int| 0 <= i < s.len() && s[i] == x;
            if i < j {
                assert(t[i] == x);
            } else {
                assert(t[i + 1] == x);
            }
        }
    }
    if out.len() > MAX_PEERS_PER_TORRENT {
        let dropped = out.pop();
        let ghost u = out@;
        proof {
            assert(u =~= t.subrange(0, t.len() - 1));
            assert(dropped == Some(t.last()));
            assert(t.last() == s.last());
            assert forall|a: int, b: int| 0 <= a < b < u.len() implies addr_lt(#[trigger] u[a], #[trigger] u[b]) by {
                assert(u[a] == t[a] && u[b] == t[b]);
            }
            assert(addr_lt(u.last(), t.last()));
            assert(u[j as int] == p);
            assert forall|x: DhtAddr| #[trigger] u.contains(x) implies s.contains(x) || x == p by {
                let i = choose|i: int| 0 <= i < u.len() && u[i] == x;
                assert(t[i] == x);
                assert(t.contains(x));
            }
            assert forall|x: DhtAddr| #[trigger] s.contains(x) implies u.contains(x) || (u.len() == MAX_PEERS_PER_TORRENT
                && addr_lt(u.last(), x)) by {
                assert(t.contains(x));
                let i = choose|i: int| 0 <= i < t.len() && t[i] == x;
                if i < u.len() {
                    assert(u[i] == x);
                } else {
                    assert(x == t.last());
                }
            }
            lemma_addr_order(u.last(), s.last(), s.last());
        }
    } else {
        proof {
            assert(t.contains(p));
            if s.len() == MAX_PEERS_PER_TORRENT {
                assert(false);
            }
        }
    }
}

proof fn lemma_peer_bytes_unique(b: Seq<u8>, x: DhtAddr, y: DhtAddr)
    requires
        peer_bytes(b, x),
        peer_bytes(b, y),
    ensures
        x == y,
{
    match (x.ip, y.ip) {
        (DhtIp::V4(p), DhtIp::V4(q)) => {
            assert(p =~= q);
        },
        (DhtIp::V6(p), DhtIp::V6(q)) => {
            assert(p =~= q);
        },
        _ => {},
    }
}

/// The peers of a `get_peers` answer's `values`: the compact entries that
/// decode and that the responder may point at, ascending, without
/// repeats, the least `MAX_PEERS_PER_TORRENT` of them.
pub fn answer_peers(r: &[(Vec<u8>, Value)], responder: DhtAddr) -> (out: Vec<DhtAddr>)
    ensures
        match sdict_get_from(entries_view(r@), key_values(), 0) {
            Some(SpecValue::List(vals)) => least_offered(out@, vals, vals.len() as int, responder),
            _ => out@.len() == 0,
        },
{
    let kvalues: [u8; 6] = [118, 97, 108, 117, 101, 115];
    assert(kvalues@ =~= key_values());
    let mut out: Vec<DhtAddr> = Vec::new();
    let vals = match dict_get(r, kvalues.as_slice()) {
        Some(Value::List(vals)) => vals,
        _ => {
            return out;
        },
    };
    let ghost sv = crate::bencode::list_view(vals@);
    proof {
        crate::bencode::lemma_list_view_index(vals@);
    }
    let mut k: usize = 0;
    while k < vals.len()
        invariant
            k <= vals@.len(),
            sv == crate::bencode::list_view(vals@),
            sv.len() == vals@.len(),
            forall|i: int| 0 <= i < vals@.len() ==> #[trigger] sv[i] == crate::bencode::value_view(vals@[i]),
            least_offered(out@, sv, k as int, responder),
        decreases vals@.len() - k,
    {
        let ghost before = out@;
        let mut added: Option<DhtAddr> = None;
        match &vals[k] {
            Value::Bytes(b) => {
                match crate::dht::decode_peer_value(b.as_slice()) {
                    Some(peer) => {
                        if dht_address_scope_allowed(responder, peer) {
                            keep_least(&mut out, peer);
                            added = Some(peer);
                        }
                    },
                    None => {},
                }
            },
            _ => {},
        }
        proof {
            assert forall|a: DhtAddr| offered_peer(sv, k as int, responder, a) implies #[trigger] offered_peer(sv, k + 1, responder, a) by {
                let w = choose|w: int|
                    0 <= w < k && (#[trigger] sv[w] matches SpecValue::Bytes(b) && peer_bytes(b, a)
                        && spec_scope_allowed(responder, a));
                assert(sv[w] == sv[w]);
            }
            if let Some(p) = added {
                assert(offered_peer(sv, k + 1, responder, p)) by {
                    assert(sv[k as int] == crate::bencode::value_view(vals@[k as int]));
                }
            }
            assert forall|i: int| 0 <= i < out@.len() implies offered_peer(sv, k + 1, responder, #[trigger] out@[i]) by {
                let x = out@[i];
                if added is Some {
                    assert(out@.contains(x));
                    if before.contains(x) {
                        let q = choose|q: int| 0 <= q < before.len() && before[q] == x;
                        assert(offered_peer(sv, k as int, responder, before[q]));
                    }
                } else {
                    assert(offered_peer(sv, k as int, responder, before[i]));
                }
            }
            assert forall|a: DhtAddr| #[trigger] offered_peer(sv, k + 1, responder, a) implies out@.contains(a) || (
            out@.len() == MAX_PEERS_PER_TORRENT && addr_lt(out@.last(), a)) by {
                let w = choose|w: int|
                    0 <= w < k + 1 && (#[trigger] sv[w] matches SpecValue::Bytes(b) && peer_bytes(b, a)
                        && spec_scope_allowed(responder, a));
                if w < k {
                    assert(offered_peer(sv, k as int, responder, a));
                    if added is Some {
                        if before.contains(a) {
                        } else {
                            lemma_addr_order(out@.last(), before.last(), a);
                        }
                    }
                } else {
                    assert(sv[k as int] == crate::bencode::value_view(vals@[k as int]));
                    match vals@[k as int] {
                        Value::Bytes(b) => {
                            assert(peer_bytes(b@, a));
                            if let Some(p) = added {
                                lemma_peer_bytes_unique(b@, a, p);
                            }
                        },
                        _ => {},
                    }
                }
            }
        }
        k = k + 1;
    }
    out
}

} // verus!

verus! {

// ---------------------------------------------------------------------
// What an accepted response leads to
// ---------------------------------------------------------------------

/// Most node candidates taken from one response.
pub const MAX_NODE_CANDIDATES_PER_RESPONSE: usize = 16;

/// `n` is the `k`-th node of a compact IPv4 node list.
pub open spec fn node_v4_at(b: Seq<u8>, k: int, n: Node) -> bool {
    &&& n.id@ == b.subrange(26 * k, 26 * k + 20)
    &&& n.addr.ip is V4
    &&& ip_octets(n.addr.ip) == b.subrange(26 * k + 20, 26 * k + 24)
    &&& n.addr.port == port_at(b, 26 * k + 24)
}

/// `n` is the `k`-th node of a compact IPv6 node list.
pub open spec fn node_v6_at(b: Seq<u8>, k: int, n: Node) -> bool {
    &&& n.id@ == b.subrange(38 * k, 38 * k + 20)
    &&& is_normalized_v6(n.addr.ip, b.subrange(38 * k + 20, 38 * k + 36))
    &&& n.addr.port == port_at(b, 38 * k + 36)
}

/// The bytes under `key` when they are a byte string, else none.
pub open spec fn bytes_field(d: Seq<(Seq<u8>, SpecValue)>, key: Seq<u8>) -> Seq<u8> {
    match sdict_get_from(d, key, 0) {
        Some(SpecValue::Bytes(b)) => b,
        _ => Seq::empty(),
    }
}

/// The node candidates of a response: the first sixteen of `nodes`, then
/// of `nodes6` as many as leave room for.
pub open spec fn candidates_of(d: Seq<(Seq<u8>, SpecValue)>, c: Seq<Node>) -> bool {
    let b4 = bytes_field(d, key_nodes());
    let b6 = bytes_field(d, key_nodes6());
    let n4: int = if b4.len() / 26 < 16 { (b4.len() / 26) as int } else { 16 };
    let n6: int = if b6.len() / 38 < 16 - n4 { (b6.len() / 38) as int } else { 16 - n4 };
    &&& c.len() == n4 + n6
    &&& forall|k: int| 0 <= k < n4 ==> node_v4_at(b4, k, #[trigger] c[k])
    &&& forall|k: int| n4 <= k < c.len() ==> node_v6_at(b6, k - n4, #[trigger] c[k])
}

/// A token of at most 64 bytes under `token`.
pub open spec fn token_of(d: Seq<(Seq<u8>, SpecValue)>) -> Option<Seq<u8>> {
    match sdict_get_from(d, key_token(), 0) {
        Some(SpecValue::Bytes(t)) if t.len() <= 64 => Some(t),
        _ => None,
    }
}

/// What follows an accepted response.
pub enum FollowUp {
    /// Nothing more.
    Done,
    /// The query belongs to this refresh lookup.
    Refresh(u64),
    /// Node candidates to verify, and for a peer lookup the torrent, the
    /// peers handed out and the token to announce with.
    Lookup { candidates: Vec<Node>, peers: Option<([u8; 20], Vec<DhtAddr>, Option<Vec<u8>>)> },
}

/// Takes an accepted response `r` to `query` from the node `responder_id`:
/// the node enters the table (when its id is valid for its address); a
/// verified node that found no place waits as a deferred replacement, and
/// so does the candidate of a replacement probe; a refresh query hands
/// the answer to its lookup; a lookup yields the node candidates and, for
/// peers, the peers and the token.
pub fn accept_response(
    r: &[(Vec<u8>, Value)],
    query: &PendingQuery,
    responder_id: [u8; 20],
    rt: &mut RoutingTable,
    deferred: &mut Vec<TableNode>,
    now: u64,
) -> (f: FollowUp)
    requires
        old(rt).wf(),
    ensures
        final(rt).wf(),
        ({
            let node = TableNode { id: responder_id, addr: query.addr, last_seen: now };
            let valid = spec_node_id_matches(responder_id@, query.addr);
            let t = if valid { spec_table_insert(old(rt).model(), node) } else { old(rt).model() };
            let inserted = valid && t.1.len() > old(rt).model().1.len();
            let waits = (query.kind is VerifyNode || query.kind is RefreshBucket) && !inserted && !has_endpoint(t.1, query.addr);
            let d1 = if waits { spec_queue_deferred(old(deferred)@, node, now) } else { old(deferred)@ };
            &&& final(rt).model() == t
            &&& final(deferred)@ == (match query.kind {
                PendingKind::ReplaceNode { candidate, .. } => spec_queue_deferred(d1, candidate, now),
                _ => d1,
            })
        }),
        match query.kind {
            PendingKind::ReplaceNode { .. } => f is Done,
            PendingKind::VerifyNode => f is Done,
            PendingKind::RefreshBucket(id) => f matches FollowUp::Refresh(x) && x == id,
            PendingKind::FindNode => f matches FollowUp::Lookup { candidates, peers } && candidates_of(entries_view(r@), candidates@)
                && peers is None,
            PendingKind::GetPeers(h) => f matches FollowUp::Lookup { candidates, peers } && candidates_of(entries_view(r@), candidates@)
                && (peers matches Some(p) && p.0 == h && (match sdict_get_from(entries_view(r@), key_values(), 0) {
                    Some(SpecValue::List(vals)) => least_offered(p.1@, vals, vals.len() as int, query.addr),
                    _ => p.1@.len() == 0,
                }) && (match token_of(entries_view(r@)) {
                    Some(t) => p.2 matches Some(x) && x@ == t,
                    None => p.2 is None,
                })),
        },
{
    let node = TableNode { id: responder_id, addr: query.addr, last_seen: now };
    let inserted = rt.insert_verified(node);
    match query.kind {
        PendingKind::VerifyNode | PendingKind::RefreshBucket(_) => {
            if !inserted && !rt.contains_endpoint(query.addr) {
                queue_deferred_replacement(deferred, node, now);
            }
        },
        _ => {},
    }
    match query.kind {
        PendingKind::ReplaceNode { candidate, .. } => {
            queue_deferred_replacement(deferred, candidate, now);
            FollowUp::Done
        },
        PendingKind::RefreshBucket(id) => FollowUp::Refresh(id),
        PendingKind::VerifyNode => FollowUp::Done,
        PendingKind::FindNode => FollowUp::Lookup { candidates: response_candidates(r), peers: None },
        PendingKind::GetPeers(h) => {
            let candidates = response_candidates(r);
            let peers = answer_peers(r, query.addr);
            let token = response_token(r);
            FollowUp::Lookup { candidates, peers: Some((h, peers, token)) }
        },
    }
}

fn bytes_under<'a>(r: &'a [(Vec<u8>, Value)], key: &[u8]) -> (b: &'a [u8])
    ensures
        b@ == bytes_field(entries_view(r@), key@),
{
    match dict_get(r, key) {
        Some(Value::Bytes(b)) => b.as_slice(),
        _ => {
            let e: &[u8] = &[];
            assert(e@ =~= Seq::<u8>::empty());
            e
        },
    }
}

/// The node candidates of a response (see `candidates_of`).
fn response_candidates(r: &[(Vec<u8>, Value)]) -> (c: Vec<Node>)
    ensures
        candidates_of(entries_view(r@), c@),
{
    let kn: [u8; 5] = [110, 111, 100, 101, 115];
    let kn6: [u8; 6] = [110, 111, 100, 101, 115, 54];
    assert(kn@ =~= key_nodes());
    assert(kn6@ =~= key_nodes6());
    let b4 = bytes_under(r, kn.as_slice());
    let b6 = bytes_under(r, kn6.as_slice());
    let v4 = decode_nodes(b4);
    let v6 = decode_nodes6(b6);
    let n4: usize = if v4.len() < 16 { v4.len() } else { 16 };
    let n6: usize = if v6.len() < 16 - n4 { v6.len() } else { 16 - n4 };
    let mut out: Vec<Node> = Vec::new();
    let mut i: usize = 0;
    while i < n4
        invariant
            i <= n4 <= v4@.len(),
            out@ == v4@.subrange(0, i as int),
        decreases n4 - i,
    {
        out.push(v4[i]);
        i = i + 1;
        assert(out@ =~= v4@.subrange(0, i as int));
    }
    let mut j: usize = 0;
    while j < n6
        invariant
            j <= n6 <= v6@.len(),
            out@ == v4@.subrange(0, n4 as int) + v6@.subrange(0, j as int),
        decreases n6 - j,
    {
        out.push(v6[j]);
        j = j + 1;
        assert(out@ =~= v4@.subrange(0, n4 as int) + v6@.subrange(0, j as int));
    }
    proof {
        assert forall|k: int| 0 <= k < n4 implies node_v4_at(b4@, k, #[trigger] out@[k]) by {
            assert(out@[k] == v4@[k]);
        }
        assert forall|k: int| n4 <= k < out@.len() implies node_v6_at(b6@, k - n4, #[trigger] out@[k]) by {
            assert(out@[k] == v6@[k - n4]);
        }
    }
    out
}

/// The token of a response (see `token_of`).
fn response_token(r: &[(Vec<u8>, Value)]) -> (t: Option<Vec<u8>>)
    ensures
        match token_of(entries_view(r@)) {
            Some(x) => t matches Some(v) && v@ == x,
            None => t is None,
        },
{
    let kt: [u8; 5] = [116, 111, 107, 101, 110];
    assert(kt@ =~= key_token());
    match dict_get(r, kt.as_slice()) {
        Some(Value::Bytes(t)) => {
            if t.len() <= 64 {
                Some(bytes_to_vec(t.as_slice()))
            } else {
                None
            }
        },
        _ => None,
    }
}

} // verus!

verus! {

// ---------------------------------------------------------------------
// Choosing whom to ask
// ---------------------------------------------------------------------

/// Most queries awaiting an answer at once.
pub const MAX_PENDING_QUERIES: usize = 1024;

/// Whether some pending query went to `a`.
pub open spec fn pending_to(p: Seq<PendingQuery>, a: DhtAddr) -> bool {
    exists|i: int| 0 <= i < p.len() && p[i].addr == a
}

/// The node of `closest` to send the next peer lookup to: going round from
/// position `rotation` (modulo the count), the first one no pending query
/// went to; none when the list is empty, every node is awaited or
/// `MAX_PENDING_QUERIES` queries are pending.
pub open spec fn spec_pick_query_node(closest: Seq<TableNode>, p: Seq<PendingQuery>, rotation: int) -> Option<int> {
    if closest.len() == 0 || p.len() >= MAX_PENDING_QUERIES {
        None
    } else {
        let start = rotation % (closest.len() as int);
        let ks = Seq::new(closest.len(), |s: int| (start + s) % (closest.len() as int));
        match first_free(closest, p, ks, 0) {
            Some(s) => Some(ks[s]),
            None => None,
        }
    }
}

/// The first step from `s` on whose node no pending query went to.
pub open spec fn first_free(closest: Seq<TableNode>, p: Seq<PendingQuery>, ks: Seq<int>, s: int) -> Option<int>
    decreases ks.len() - s,
{
    if s < 0 || s >= ks.len() {
        None
    } else if !pending_to(p, closest[ks[s]].addr) {
        Some(s)
    } else {
        first_free(closest, p, ks, s + 1)
    }
}

fn pending_to_exec(p: &[PendingQuery], a: DhtAddr) -> (r: bool)
    ensures
        r == pending_to(p@, a),
{
    let mut i: usize = 0;
    while i < p.len()
        invariant
            i <= p@.len(),
            forall|j: int| 0 <= j < i ==> p@[j].addr != a,
        decreases p@.len() - i,
    {
        if crate::dht::addr_eq(p[i].addr, a) {
            return true;
        }
        i = i + 1;
    }
    false
}

/// Picks the node to send the next peer lookup to (see
/// `spec_pick_query_node`), by its position in `closest`.
pub fn pick_query_node(closest: &[TableNode], pending: &[PendingQuery], rotation: usize) -> (r: Option<usize>)
    ensures
        match spec_pick_query_node(closest@, pending@, rotation as int) {
            Some(k) => r == Some(k as usize),
            None => r is None,
        },
{
    let n = closest.len();
    if n == 0 || pending.len() >= MAX_PENDING_QUERIES {
        return None;
    }
    let start = rotation % n;
    let ghost ks = Seq::new(n as nat, |s: int| (start + s) % (n as int));
    let mut s: usize = 0;
    while s < n
        invariant
            n == closest@.len(),
            n > 0,
            start < n,
            start == rotation % n,
            pending@.len() < MAX_PENDING_QUERIES,
            s <= n,
            ks == Seq::new(n as nat, |x: int| (start + x) % (n as int)),
            first_free(closest@, pending@, ks, 0) == first_free(closest@, pending@, ks, s as int),
        decreases n - s,
    {
        let k: usize = if s < n - start { start + s } else { s - (n - start) };
        assert(k == ks[s as int]) by {
            if s < n - start {
                vstd::arithmetic::div_mod::lemma_small_mod((start + s) as nat, n as nat);
            } else {
                let b: int = (start + s - n) as int;
                vstd::arithmetic::div_mod::lemma_mod_add_multiples_vanish(b, n as int);
                vstd::arithmetic::div_mod::lemma_small_mod(b as nat, n as nat);
                assert((n + b) as int == (start + s) as int);
            }
        }
        if !pending_to_exec(pending, closest[k].addr) {
            proof {
                let sks = Seq::new(closest@.len(), |x: int| ((rotation as int) % (closest@.len() as int) + x) % (closest@.len() as int));
                assert(sks =~= ks);
                assert(first_free(closest@, pending@, ks, s as int) == Some(s as int));
            }
            return Some(k);
        }
        s = s + 1;
    }
    proof {
        let sks = Seq::new(closest@.len(), |x: int| ((rotation as int) % (closest@.len() as int) + x) % (closest@.len() as int));
        assert(sks =~= ks);
    }
    None
}

} // verus!

verus! {

// ---------------------------------------------------------------------
// Queries that fail
// ---------------------------------------------------------------------

/// Probes of a questionable node before it may be replaced.
pub const MAX_REPLACEMENT_PROBE_ATTEMPTS: u8 = 2;

/// Whether the node `id` still sits at `addr`, not heard from since `at`.
pub open spec fn incumbent_unchanged(t: TableModel, id: Seq<u8>, addr: DhtAddr, at: u64) -> bool {
    exists|j: int|
        0 <= j < t.1.len() && t.1[j].id@ == id && t.1[j].addr == (DhtAddr {
            ip: spec_normalize_ip(addr.ip),
            port: addr.port,
        }) && t.1[j].last_seen <= at
}

/// What a failed query leads to.
pub enum FailOutcome {
    /// Probe the questionable node again: send a ping for this query.
    Retry(PendingQuery),
    /// The candidate took the questionable node's place.
    Replaced,
    /// The candidate waits as a deferred replacement; the failure counts.
    Deferred,
    /// A query of this refresh lookup failed; the failure counts.
    RefreshMissed(u64),
    /// The failure counts.
    Recorded,
}

/// Whether a failed replacement probe is sent again: fewer than
/// `MAX_REPLACEMENT_PROBE_ATTEMPTS` so far, the incumbent unchanged, and
/// room among the pending queries.
pub open spec fn probe_again(t: TableModel, q: PendingQuery, pending_count: int) -> bool {
    match q.kind {
        PendingKind::ReplaceNode { attempt, probe_started_at, .. } => attempt < MAX_REPLACEMENT_PROBE_ATTEMPTS
            && incumbent_unchanged(t, expected_or_zero(q.expected_id), q.addr, probe_started_at) && pending_count
            < MAX_PENDING_QUERIES,
        _ => false,
    }
}

/// The expected id, or twenty zero bytes.
pub open spec fn expected_or_zero(e: Option<[u8; 20]>) -> Seq<u8> {
    match e {
        Some(x) => x@,
        None => Seq::new(20, |i: int| 0u8),
    }
}

/// Handles a query that got no acceptable answer (it timed out or the
/// wrong node answered): a replacement probe is sent again while it may
/// be; after the last probe the candidate replaces the questionable node
/// when it still may; otherwise the candidate waits as a deferred
/// replacement. Every failure that ends the query counts against the
/// node's endpoint.
pub fn fail_query(rt: &mut RoutingTable, query: &PendingQuery, deferred: &mut Vec<TableNode>, pending_count: usize, now: u64) -> (r: FailOutcome)
    requires
        old(rt).wf(),
    ensures
        final(rt).wf(),
        match query.kind {
            PendingKind::ReplaceNode { candidate, attempt, probe_started_at } => if probe_again(old(rt).model(), *query, pending_count as int) {
                &&& r matches FailOutcome::Retry(q) && q.addr == query.addr && q.expected_id == query.expected_id
                    && q.sent_at == now && q.kind == (PendingKind::ReplaceNode { candidate, attempt: (attempt + 1) as u8, probe_started_at })
                &&& final(rt).model() == old(rt).model()
                &&& final(deferred)@ == old(deferred)@
            } else if attempt >= MAX_REPLACEMENT_PROBE_ATTEMPTS && spec_replace_questionable(
                old(rt).model(),
                expected_or_zero(query.expected_id),
                query.addr,
                probe_started_at,
                candidate,
            ).1 {
                &&& r is Replaced
                &&& final(rt).model() == spec_replace_questionable(
                    old(rt).model(),
                    expected_or_zero(query.expected_id),
                    query.addr,
                    probe_started_at,
                    candidate,
                ).0
                &&& final(deferred)@ == old(deferred)@
            } else {
                &&& r is Deferred
                &&& final(deferred)@ == spec_queue_deferred(old(deferred)@, candidate, now)
                &&& final(rt).model() == crate::dht::spec_record_failure(old(rt).model(), query.addr, query.sent_at)
            },
            PendingKind::RefreshBucket(id) => r matches FailOutcome::RefreshMissed(x) && x == id && final(rt).model()
                == crate::dht::spec_record_failure(old(rt).model(), query.addr, query.sent_at) && final(deferred)@ == old(deferred)@,
            _ => r is Recorded && final(rt).model() == crate::dht::spec_record_failure(old(rt).model(), query.addr, query.sent_at)
                && final(deferred)@ == old(deferred)@,
        },
{
    match query.kind {
        PendingKind::ReplaceNode { candidate, attempt, probe_started_at } => {
            let expected_id = match query.expected_id {
                Some(x) => x,
                None => [0u8; 20],
            };
            proof {
                assert(expected_id@ =~= expected_or_zero(query.expected_id));
            }
            if attempt < MAX_REPLACEMENT_PROBE_ATTEMPTS && rt.incumbent_unchanged_since(expected_id, query.addr, probe_started_at)
                && pending_count < MAX_PENDING_QUERIES {
                return FailOutcome::Retry(PendingQuery {
                    tx: bytes_to_vec(query.tx.as_slice()),
                    addr: query.addr,
                    expected_id: query.expected_id,
                    kind: PendingKind::ReplaceNode { candidate, attempt: attempt + 1, probe_started_at },
                    sent_at: now,
                });
            }
            if attempt >= MAX_REPLACEMENT_PROBE_ATTEMPTS && rt.replace_questionable(
                expected_id,
                query.addr,
                probe_started_at,
                candidate,
            ) {
                return FailOutcome::Replaced;
            }
            queue_deferred_replacement(deferred, candidate, now);
            rt.record_query_failure(query.addr, query.sent_at);
            FailOutcome::Deferred
        },
        PendingKind::RefreshBucket(id) => {
            rt.record_query_failure(query.addr, query.sent_at);
            FailOutcome::RefreshMissed(id)
        },
        _ => {
            rt.record_query_failure(query.addr, query.sent_at);
            FailOutcome::Recorded
        },
    }
}

} // verus!

verus! {

/// How long a query may wait for its answer, in milliseconds.
pub const MAX_PENDING_AGE_MS: u64 = 30_000;

/// Whether a query sent at `sent_at` has waited too long by `now`.
pub open spec fn expired_at(q: PendingQuery, now: u64) -> bool {
    now > q.sent_at && now - q.sent_at > MAX_PENDING_AGE_MS
}

/// The queries of `p` that `keep` selects, in order.
pub open spec fn pending_where(p: Seq<PendingQuery>, now: u64, keep: bool) -> Seq<PendingQuery>
    decreases p.len(),
{
    if p.len() == 0 {
        Seq::empty()
    } else {
        let prev = pending_where(p.drop_last(), now, keep);
        if expired_at(p.last(), now) != keep {
            prev.push(p.last())
        } else {
            prev
        }
    }
}

/// Parts the pending queries into those still awaited and those that
/// waited longer than `MAX_PENDING_AGE_MS`, each in order.
pub fn expire_pending(pending: Vec<PendingQuery>, now: u64) -> (r: (Vec<PendingQuery>, Vec<PendingQuery>))
    ensures
        r.0@ == pending_where(pending@, now, true),
        r.1@ == pending_where(pending@, now, false),
{
    let ghost all = pending@;
    let mut kept: Vec<PendingQuery> = Vec::new();
    let mut expired: Vec<PendingQuery> = Vec::new();
    for q in it: pending.into_iter()
        invariant
            it.seq() == all,
            kept@ == pending_where(all.take(it.index() as int), now, true),
            expired@ == pending_where(all.take(it.index() as int), now, false),
    {
        proof {
            let next = all.take(it.index() + 1);
            assert(next.drop_last() =~= all.take(it.index() as int));
            assert(next.last() == q);
        }
        if now > q.sent_at && now - q.sent_at > MAX_PENDING_AGE_MS {
            expired.push(q);
        } else {
            kept.push(q);
        }
    }
    proof {
        assert(all.take(all.len() as int) =~= all);
    }
    (kept, expired)
}

} // verus!

verus! {

// ---------------------------------------------------------------------
// Choosing node candidates to verify
// ---------------------------------------------------------------------

/// The endpoints a probe must not crowd: the table's nodes and the nodes
/// being verified (a `VerifyNode` or `RefreshBucket` query's endpoint, a
/// replacement probe's candidate).
pub open spec fn probed_addrs(nodes: Seq<TableNode>, p: Seq<PendingQuery>) -> Seq<DhtAddr>
    decreases p.len(),
{
    if p.len() == 0 {
        nodes.map_values(|n: TableNode| n.addr)
    } else {
        let prev = probed_addrs(nodes, p.drop_last());
        match p.last().kind {
            PendingKind::VerifyNode => prev.push(p.last().addr),
            PendingKind::RefreshBucket(_) => prev.push(p.last().addr),
            PendingKind::ReplaceNode { candidate, .. } => prev.push(candidate.addr),
            _ => prev,
        }
    }
}

/// How many of `s` satisfy `f`.
pub open spec fn count_addrs(s: Seq<DhtAddr>, f: spec_fn(DhtAddr) -> bool) -> nat
    decreases s.len(),
{
    if s.len() == 0 {
        0
    } else {
        count_addrs(s.drop_last(), f) + if f(s.last()) { 1nat } else { 0nat }
    }
}

/// Endpoints with the same (normalized) address as `a`.
pub open spec fn same_ip_as(a: DhtAddr) -> spec_fn(DhtAddr) -> bool {
    |x: DhtAddr| spec_normalize_ip(x.ip) == spec_normalize_ip(a.ip)
}

/// Endpoints in the same network as `a`.
pub open spec fn same_net_as(a: DhtAddr) -> spec_fn(DhtAddr) -> bool {
    |x: DhtAddr| crate::dht::spec_same_network_prefix(x, a)
}

/// Whether a probe of `a` keeps under the per-address and per-network
/// limits among `s`.
pub open spec fn fits_diversity(s: Seq<DhtAddr>, a: DhtAddr) -> bool {
    &&& count_addrs(s, same_ip_as(a)) < crate::dht::MAX_NODES_PER_IP
    &&& count_addrs(s, same_net_as(a)) < crate::dht::MAX_NODES_PER_PREFIX
}

/// Whether the (normalized) candidate `n` is worth a probe: not ourselves,
/// a real endpoint in an allowed scope, with an id valid for its address,
/// not in the table, not awaited already, and within the diversity limits
/// counting the probes chosen so far (`chosen`).
pub open spec fn probe_worthy(
    n: Node,
    own_id: Seq<u8>,
    allow_local: bool,
    t: TableModel,
    p: Seq<PendingQuery>,
    chosen: Seq<DhtAddr>,
) -> bool {
    &&& n.id@ != own_id
    &&& n.addr.port != 0
    &&& !crate::dht::is_unspecified(n.addr.ip)
    &&& (crate::dht::spec_is_global(n.addr.ip) || (allow_local && crate::dht::spec_is_local(n.addr.ip)))
    &&& spec_node_id_matches(n.id@, n.addr)
    &&& !has_endpoint(t.1, n.addr)
    &&& !pending_to(p, n.addr)
    &&& !chosen.contains(n.addr)
    &&& fits_diversity(probed_addrs(t.1, p) + chosen, n.addr)
}

/// A node with its address normalized.
pub open spec fn normalized_node(n: Node) -> Node {
    Node { id: n.id, addr: DhtAddr { ip: spec_normalize_ip(n.addr.ip), port: n.addr.port } }
}

/// The candidates to probe, from position `i` on, the probes chosen so far
/// counting as pending: stop at `lim` candidates or when the pending
/// queries are full.
pub open spec fn spec_schedule(
    c: Seq<Node>,
    i: int,
    lim: int,
    own_id: Seq<u8>,
    allow_local: bool,
    t: TableModel,
    p: Seq<PendingQuery>,
    chosen: Seq<DhtAddr>,
) -> Seq<Node>
    decreases lim - i,
{
    if i >= lim || i < 0 || i >= c.len() || p.len() + chosen.len() >= MAX_PENDING_QUERIES {
        Seq::empty()
    } else {
        let n = normalized_node(c[i]);
        if probe_worthy(n, own_id, allow_local, t, p, chosen) {
            seq![n] + spec_schedule(c, i + 1, lim, own_id, allow_local, t, p, chosen.push(n.addr))
        } else {
            spec_schedule(c, i + 1, lim, own_id, allow_local, t, p, chosen)
        }
    }
}

fn count_same_ip(s: &Vec<DhtAddr>, a: DhtAddr) -> (r: usize)
    ensures
        r == count_addrs(s@, same_ip_as(a)),
{
    let ghost f = same_ip_as(a);
    let na = crate::dht::normalize_dht_ip(a.ip);
    let mut k: usize = 0;
    let mut i: usize = 0;
    while i < s.len()
        invariant
            i <= s@.len(),
            na == spec_normalize_ip(a.ip),
            f == same_ip_as(a),
            k == count_addrs(s@.take(i as int), f),
            k <= i,
        decreases s@.len() - i,
    {
        proof {
            assert(s@.take(i + 1).drop_last() =~= s@.take(i as int));
        }
        proof {
            assert(s@.take(i + 1).last() == s@[i as int]);
            assert(f(s@[i as int]) == (spec_normalize_ip(s@[i as int].ip) == na));
        }
        if crate::dht::ip_eq(crate::dht::normalize_dht_ip(s[i].ip), na) {
            k = k + 1;
        }
        i = i + 1;
    }
    assert(s@.take(s@.len() as int) =~= s@);
    k
}

fn count_same_prefix(s: &Vec<DhtAddr>, a: DhtAddr) -> (r: usize)
    ensures
        r == count_addrs(s@, same_net_as(a)),
{
    let ghost f = same_net_as(a);
    let mut k: usize = 0;
    let mut i: usize = 0;
    while i < s.len()
        invariant
            i <= s@.len(),
            f == same_net_as(a),
            k == count_addrs(s@.take(i as int), f),
            k <= i,
        decreases s@.len() - i,
    {
        proof {
            assert(s@.take(i + 1).drop_last() =~= s@.take(i as int));
        }
        proof {
            assert(s@.take(i + 1).last() == s@[i as int]);
            assert(f(s@[i as int]) == crate::dht::spec_same_network_prefix(s@[i as int], a));
        }
        if crate::dht::same_network_prefix(s[i], a) {
            k = k + 1;
        }
        i = i + 1;
    }
    assert(s@.take(s@.len() as int) =~= s@);
    k
}

fn probed_addrs_exec(rt: &RoutingTable, pending: &[PendingQuery]) -> (r: Vec<DhtAddr>)
    ensures
        r@ == probed_addrs(rt.model().1, pending@),
{
    let nodes = rt.all_nodes();
    let mut out: Vec<DhtAddr> = Vec::new();
    let mut i: usize = 0;
    while i < nodes.len()
        invariant
            i <= nodes@.len(),
            out@ == nodes@.take(i as int).map_values(|n: TableNode| n.addr),
        decreases nodes@.len() - i,
    {
        out.push(nodes[i].addr);
        i = i + 1;
        assert(out@ =~= nodes@.take(i as int).map_values(|n: TableNode| n.addr));
    }
    assert(nodes@.take(nodes@.len() as int) =~= nodes@);
    assert(out@ == probed_addrs(rt.model().1, pending@.take(0))) by {
        assert(pending@.take(0) =~= Seq::<PendingQuery>::empty());
    }
    let mut j: usize = 0;
    while j < pending.len()
        invariant
            j <= pending@.len(),
            out@ == probed_addrs(rt.model().1, pending@.take(j as int)),
        decreases pending@.len() - j,
    {
        proof {
            assert(pending@.take(j + 1).drop_last() =~= pending@.take(j as int));
        }
        match pending[j].kind {
            PendingKind::VerifyNode => out.push(pending[j].addr),
            PendingKind::RefreshBucket(_) => out.push(pending[j].addr),
            PendingKind::ReplaceNode { candidate, .. } => out.push(candidate.addr),
            _ => {},
        }
        j = j + 1;
    }
    assert(pending@.take(pending@.len() as int) =~= pending@);
    out
}

fn contains_addr(s: &Vec<DhtAddr>, a: DhtAddr) -> (r: bool)
    ensures
        r == s@.contains(a),
{
    let mut i: usize = 0;
    while i < s.len()
        invariant
            i <= s@.len(),
            forall|j: int| 0 <= j < i ==> s@[j] != a,
        decreases s@.len() - i,
    {
        if crate::dht::addr_eq(s[i], a) {
            return true;
        }
        i = i + 1;
    }
    false
}

/// The node candidates of a response or a cache worth probing, in order
/// (see `spec_schedule`): at most `max` candidates are looked at, each
/// normalized and checked, the ones chosen counting as pending for those
/// after them.
pub fn schedule_node_verifications(
    candidates: &[Node],
    allow_local: bool,
    max: usize,
    rt: &RoutingTable,
    pending: &[PendingQuery],
    own_id: &[u8; 20],
) -> (r: Vec<Node>)
    ensures
        r@ == spec_schedule(
            candidates@,
            0,
            if max < candidates@.len() { max as int } else { candidates@.len() as int },
            own_id@,
            allow_local,
            rt.model(),
            pending@,
            Seq::empty(),
        ),
{
    let lim: usize = if max < candidates.len() { max } else { candidates.len() };
    let base = probed_addrs_exec(rt, pending);
    let mut probed = base;
    let mut chosen: Vec<DhtAddr> = Vec::new();
    let mut out: Vec<Node> = Vec::new();
    let mut i: usize = 0;
    let ghost t = rt.model();
    let ghost full = spec_schedule(candidates@, 0, lim as int, own_id@, allow_local, t, pending@, Seq::empty());
    assert(chosen@ =~= Seq::<DhtAddr>::empty());
    assert(out@ + full =~= full);
    assert(probed@ =~= probed_addrs(t.1, pending@) + chosen@);
    while i < lim
        invariant
            lim <= candidates@.len(),
            lim as int == (if max < candidates@.len() { max as int } else { candidates@.len() as int }),
            full == spec_schedule(candidates@, 0, lim as int, own_id@, allow_local, t, pending@, Seq::empty()),
            i <= lim,
            t == rt.model(),
            probed@ == probed_addrs(t.1, pending@) + chosen@,
            chosen@.len() <= i,
            full == out@ + spec_schedule(candidates@, i as int, lim as int, own_id@, allow_local, t, pending@, chosen@),
        decreases lim - i,
    {
        if pending.len() >= MAX_PENDING_QUERIES || chosen.len() >= MAX_PENDING_QUERIES - pending.len() {
            assert(spec_schedule(candidates@, i as int, lim as int, own_id@, allow_local, t, pending@, chosen@)
                == Seq::<Node>::empty());
            assert(out@ + Seq::<Node>::empty() =~= out@);
            return out;
        }
        let c = candidates[i];
        let n = Node { id: c.id, addr: normalize_dht_addr(c.addr) };
        assert(n == normalized_node(candidates@[i as int]));
        let worthy = !bytes_equal(n.id.as_slice(), own_id.as_slice()) && n.addr.port != 0
            && !crate::dht::unspecified_exec(n.addr.ip) && (crate::dht::is_global_dht_address(n.addr.ip) || (
        allow_local && crate::dht::is_local_dht_address(n.addr.ip))) && crate::dht::node_id_matches_address(
            &n.id,
            n.addr,
        ) && !rt.contains_endpoint(n.addr) && !pending_to_exec(pending, n.addr) && !contains_addr(&chosen, n.addr)
            && count_same_ip(&probed, n.addr) < crate::dht::MAX_NODES_PER_IP && count_same_prefix(&probed, n.addr)
            < crate::dht::MAX_NODES_PER_PREFIX;
        if worthy {
            proof {
                assert(probe_worthy(n, own_id@, allow_local, t, pending@, chosen@));
                assert(out@.push(n) + spec_schedule(candidates@, i + 1, lim as int, own_id@, allow_local, t, pending@, chosen@.push(n.addr))
                    =~= out@ + (seq![n] + spec_schedule(candidates@, i + 1, lim as int, own_id@, allow_local, t, pending@, chosen@.push(n.addr))));
            }
            out.push(n);
            chosen.push(n.addr);
            probed.push(n.addr);
            proof {
                assert(probed@ =~= probed_addrs(t.1, pending@) + chosen@);
            }
        } else {
            proof {
                assert(!probe_worthy(n, own_id@, allow_local, t, pending@, chosen@));
            }
        }
        i = i + 1;
    }
    assert(out@ + Seq::<Node>::empty() =~= out@);
    out
}

} // verus!

verus! {

// ---------------------------------------------------------------------
// Deferred replacements
// ---------------------------------------------------------------------

/// How long a node goes unheard before it is questionable, in
/// milliseconds.
pub const QUESTIONABLE_NODE_AGE_MS: u64 = 900_000;

/// Whether node `n` sits in bucket `idx` and has gone unheard long enough
/// to be questioned.
pub open spec fn questionable(own: Seq<u8>, n: TableNode, idx: int, now: u64) -> bool {
    crate::dht::spec_bucket_index(own, n.id@) == idx && crate::dht::elapsed_since(now, n.last_seen)
        >= QUESTIONABLE_NODE_AGE_MS
}

/// Among the first `k` nodes, the questionable one of bucket `idx` heard
/// from least recently (the first such on ties).
pub open spec fn oldest_questionable(s: Seq<TableNode>, own: Seq<u8>, idx: int, now: u64, k: int) -> Option<int>
    decreases k,
{
    if k <= 0 || k > s.len() {
        None
    } else {
        let b = oldest_questionable(s, own, idx, now, k - 1);
        if questionable(own, s[k - 1], idx, now) && (b is None || s[k - 1].last_seen < s[b->0].last_seen) {
            Some(k - 1)
        } else {
            b
        }
    }
}

/// What the upkeep of the deferred replacements did.
pub enum DeferredStep {
    /// No candidate waits.
    Idle,
    /// The first candidate's endpoint is in the table already.
    Dropped,
    /// The candidate's bucket had room: it went in (if its id is valid).
    Inserted,
    /// Its bucket is full of healthy nodes: the candidate is dropped.
    Healthy,
    /// No probe can be sent now: the candidate waits again.
    Busy,
    /// Probe `incumbent` (ping it, as a replacement probe for `candidate`);
    /// should the ping not go out, queue the candidate again.
    Probe { incumbent: TableNode, candidate: TableNode },
}

/// One round of the upkeep: stale candidates leave the queue; the first
/// one left is dropped when its endpoint is known, put in its bucket when
/// the bucket has room, or else matched with the bucket's questionable
/// node heard from least recently, to be probed.
pub fn maintain_deferred(queue: &mut Vec<TableNode>, rt: &mut RoutingTable, pending: &[PendingQuery], now: u64) -> (r: DeferredStep)
    requires
        old(rt).wf(),
    ensures
        final(rt).wf(),
        ({
            let l = crate::dht::live_candidates(old(queue)@, now);
            let t = old(rt).model();
            if l.len() == 0 {
                &&& r is Idle
                &&& final(queue)@ == l
                &&& final(rt).model() == t
            } else {
                let c = l[0];
                let rest = l.drop_first();
                let idx = crate::dht::spec_bucket_index(t.0, c.id@);
                if has_endpoint(t.1, c.addr) {
                    r is Dropped && final(queue)@ == rest && final(rt).model() == t
                } else if crate::dht::count_where(t.1, crate::dht::same_bucket_fn(t.0, idx)) < crate::dht::K {
                    &&& r is Inserted
                    &&& final(queue)@ == rest
                    &&& final(rt).model() == (if spec_node_id_matches(c.id@, c.addr) { spec_table_insert(t, c) } else { t })
                } else if pending@.len() >= MAX_PENDING_QUERIES {
                    r is Busy && final(queue)@ == spec_queue_deferred(rest, c, now) && final(rt).model() == t
                } else {
                    match oldest_questionable(t.1, t.0, idx, now, t.1.len() as int) {
                        None => r is Healthy && final(queue)@ == rest && final(rt).model() == t,
                        Some(p) => if pending_to(pending@, t.1[p].addr) {
                            r is Busy && final(queue)@ == spec_queue_deferred(rest, c, now) && final(rt).model() == t
                        } else {
                            &&& r matches DeferredStep::Probe { incumbent, candidate } && incumbent == t.1[p] && candidate == c
                            &&& final(queue)@ == rest
                            &&& final(rt).model() == t
                        },
                    }
                }
            }
        }),
{
    let ghost q = queue@;
    let mut live: Vec<TableNode> = Vec::new();
    let mut k: usize = 0;
    while k < queue.len()
        invariant
            queue@ == q,
            k <= q.len(),
            live@ == crate::dht::live_candidates(q.subrange(0, k as int), now),
        decreases q.len() - k,
    {
        assert(q.subrange(0, k + 1).drop_last() =~= q.subrange(0, k as int));
        let n = queue[k];
        let age: u64 = if now >= n.last_seen {
            now - n.last_seen
        } else {
            0
        };
        if age <= crate::dht::DEFERRED_REPLACEMENT_TTL_MS {
            live.push(n);
        }
        k = k + 1;
    }
    assert(q.subrange(0, k as int) =~= q);
    if live.len() == 0 {
        *queue = live;
        return DeferredStep::Idle;
    }
    let c = live.remove(0);
    *queue = live;
    if rt.contains_endpoint(c.addr) {
        return DeferredStep::Dropped;
    }
    let own = rt.own_id();
    let idx = crate::dht::bucket_index(&own, &c.id);
    if rt.bucket_len(idx) < crate::dht::K {
        let _ = rt.insert_verified(c);
        return DeferredStep::Inserted;
    }
    if pending.len() >= MAX_PENDING_QUERIES {
        queue_deferred_replacement(queue, c, now);
        return DeferredStep::Busy;
    }
    let nodes = rt.all_nodes();
    let ghost t = rt.model();
    let mut best: Option<usize> = None;
    let mut i: usize = 0;
    while i < nodes.len()
        invariant
            nodes@ == t.1,
            own@ == t.0,
            idx == crate::dht::spec_bucket_index(t.0, c.id@),
            i <= nodes@.len(),
            match best {
                Some(b) => oldest_questionable(t.1, t.0, idx as int, now, i as int) == Some(b as int) && b < i,
                None => oldest_questionable(t.1, t.0, idx as int, now, i as int) is None,
            },
        decreases nodes@.len() - i,
    {
        let n = nodes[i];
        let age: u64 = if now >= n.last_seen {
            now - n.last_seen
        } else {
            0
        };
        let q = crate::dht::bucket_index(&own, &n.id) == idx && age >= QUESTIONABLE_NODE_AGE_MS;
        let better = match best {
            None => true,
            Some(b) => n.last_seen < nodes[b].last_seen,
        };
        if q && better {
            best = Some(i);
        }
        i = i + 1;
    }
    match best {
        None => DeferredStep::Healthy,
        Some(b) => {
            let incumbent = nodes[b];
            if pending_to_exec(pending, incumbent.addr) {
                queue_deferred_replacement(queue, c, now);
                DeferredStep::Busy
            } else {
                DeferredStep::Probe { incumbent, candidate: c }
            }
        },
    }
}

} // verus!

verus! {

// ---------------------------------------------------------------------
// Bucket refresh lookups
// ---------------------------------------------------------------------

/// Queries a refresh lookup keeps in flight at once.
pub const REFRESH_LOOKUP_ALPHA: usize = 3;

/// Queries one refresh lookup sends in all.
pub const MAX_REFRESH_LOOKUP_QUERIES: usize = 32;

/// Candidates one refresh lookup keeps.
pub const MAX_REFRESH_LOOKUP_CANDIDATES: usize = 64;

/// How long a refresh lookup runs, in milliseconds.
pub const REFRESH_LOOKUP_DEADLINE_MS: u64 = 120_000;

/// A lookup of a random id in a bucket, to refresh it: the nodes to ask,
/// nearest the target first, the endpoints asked already, the queries in
/// flight, the answers from nodes that proved their id, and the deadline.
pub struct RefreshLookup {
    pub bucket_idx: usize,
    pub target: [u8; 20],
    pub candidates: Vec<Node>,
    pub queried: Vec<DhtAddr>,
    pub outstanding: usize,
    pub authenticated: usize,
    pub deadline: u64,
}

/// The XOR distance of an id to the target, as bytes.
pub open spec fn distance_to(target: Seq<u8>, id: Seq<u8>) -> Seq<u8> {
    Seq::new(20, |i: int| id[i] ^ target[i])
}

/// Nodes ordered by distance to the target, nearest first.
pub open spec fn by_distance(s: Seq<Node>, target: Seq<u8>) -> bool {
    forall|i: int, j: int|
        0 <= i < j < s.len() ==> !crate::bencode::lex_lt(
            distance_to(target, (#[trigger] s[j]).id@),
            distance_to(target, (#[trigger] s[i]).id@),
        )
}

fn distance_less(a: &Node, b: &Node, target: &[u8; 20]) -> (r: bool)
    ensures
        r == crate::bencode::lex_lt(distance_to(target@, a.id@), distance_to(target@, b.id@)),
{
    let da = crate::dht::xor_distance(&a.id, target);
    let db = crate::dht::xor_distance(&b.id, target);
    assert(da@ =~= distance_to(target@, a.id@));
    assert(db@ =~= distance_to(target@, b.id@));
    crate::bencode::bytes_lt(da.as_slice(), db.as_slice())
}

/// Sorts nodes by distance to the target, nearest first, keeping them all.
pub fn sort_by_distance(nodes: Vec<Node>, target: &[u8; 20]) -> (r: Vec<Node>)
    ensures
        by_distance(r@, target@),
        r@.to_multiset() == nodes@.to_multiset(),
{
    let ghost all = nodes@;
    let mut out: Vec<Node> = Vec::new();
    proof {
        broadcast use vstd::seq_lib::group_to_multiset_ensures;
        assert(all.take(0) =~= Seq::<Node>::empty());
        assert(out@ =~= Seq::<Node>::empty());
    }
    for x in it: nodes.into_iter()
        invariant
            it.seq() == all,
            by_distance(out@, target@),
            out@.to_multiset() == all.take(it.index() as int).to_multiset(),
    {
        let ghost before = all.take(it.index() as int);
        proof {
            assert(all.take(it.index() + 1) =~= before.push(x));
            vstd::seq_lib::to_multiset_build(before, x);
        }
        let ghost s = out@;
        let mut j: usize = out.len();
        while j > 0 && distance_less(&x, &out[j - 1], target)
            invariant
                j <= out@.len(),
                out@ == s,
                by_distance(s, target@),
                forall|k: int|
                    j <= k < s.len() ==> crate::bencode::lex_lt(
                        distance_to(target@, x.id@),
                        distance_to(target@, (#[trigger] s[k]).id@),
                    ),
            decreases j,
        {
            j = j - 1;
        }
        proof {
            assert forall|k: int| 0 <= k < j implies !crate::bencode::lex_lt(
                distance_to(target@, x.id@),
                distance_to(target@, (#[trigger] s[k]).id@),
            ) by {
                let dx = distance_to(target@, x.id@);
                let dk = distance_to(target@, s[k].id@);
                let dj = distance_to(target@, s[j - 1].id@);
                assert(!crate::bencode::lex_lt(dx, dj));
                if k < j - 1 {
                    assert(!crate::bencode::lex_lt(dj, dk));
                    crate::bencode::lemma_lex_trichotomy(dx, dj);
                    crate::bencode::lemma_lex_trichotomy(dj, dk);
                    crate::bencode::lemma_lex_trichotomy(dx, dk);
                    if crate::bencode::lex_lt(dx, dk) {
                        if crate::bencode::lex_lt(dj, dx) {
                            crate::bencode::lemma_lex_lt_transitive(dj, dx, dk);
                        }
                    }
                }
            }
        }
        out.insert(j, x);
        proof {
            broadcast use vstd::seq_lib::to_multiset_insert;
            let t = out@;
            s.insert_ensures(j as int, x);
            assert forall|a: int, b: int| 0 <= a < b < t.len() implies !crate::bencode::lex_lt(
                distance_to(target@, (#[trigger] t[b]).id@),
                distance_to(target@, (#[trigger] t[a]).id@),
            ) by {
                if a == j {
                    assert(t[b] == s[b - 1]);
                    crate::bencode::lemma_lex_trichotomy(
                        distance_to(target@, x.id@),
                        distance_to(target@, s[b - 1].id@),
                    );
                } else if b == j {
                    assert(t[a] == s[a]);
                } else if b < j {
                    assert(t[a] == s[a] && t[b] == s[b]);
                } else if a < j {
                    assert(t[a] == s[a] && t[b] == s[b - 1]);
                } else {
                    assert(t[a] == s[a - 1] && t[b] == s[b - 1]);
                }
            }
        }
    }
    proof {
        assert(all.take(all.len() as int) =~= all);
    }
    out
}

/// Starts the refresh of the bucket most in need of it, if any: the
/// attempt is recorded and the lookup begins with the table's nodes
/// nearest a random id of that bucket.
pub fn start_refresh(rt: &mut RoutingTable, now: u64) -> (r: Option<RefreshLookup>)
    requires
        old(rt).wf(),
    ensures
        final(rt).wf(),
        final(rt).model() == old(rt).model(),
        match crate::dht::due_bucket(old(rt).model(), old(rt).attempted(), now, crate::dht::NUM_BUCKETS as int) {
            None => r is None && final(rt).attempted() == old(rt).attempted(),
            Some(b) => match r {
                Some(l) => {
                    &&& l.bucket_idx == b
                    &&& crate::dht::spec_bucket_index(old(rt).model().0, l.target@) == b
                    &&& final(rt).attempted() == old(rt).attempted().update(b, now)
                    &&& l.queried@.len() == 0 && l.outstanding == 0 && l.authenticated == 0
                    &&& l.deadline == (if now + REFRESH_LOOKUP_DEADLINE_MS > u64::MAX { u64::MAX } else { (now
                        + REFRESH_LOOKUP_DEADLINE_MS) as u64 })
                    &&& l.candidates@.len() == crate::dht::spec_closest(old(rt).model().1, l.target@, crate::dht::K as int, crate::dht::NodeFilter::All).len()
                    &&& forall|i: int| 0 <= i < l.candidates@.len() ==> {
                        let n = crate::dht::spec_closest(old(rt).model().1, l.target@, crate::dht::K as int, crate::dht::NodeFilter::All)[i];
                        (#[trigger] l.candidates@[i]).id == n.id && l.candidates@[i].addr == n.addr
                    }
                },
                None => final(rt).attempted() == old(rt).attempted(),
            },
        },
{
    let idx = match rt.bucket_needing_refresh(now) {
        Some(i) => i,
        None => {
            return None;
        },
    };
    let own = rt.own_id();
    let target = match crate::dht::random_target_for_bucket(&own, idx) {
        Some(t) => t,
        None => {
            return None;
        },
    };
    rt.mark_bucket_refresh_attempted(idx, now);
    let closest = rt.closest(&target, crate::dht::K);
    let mut candidates: Vec<Node> = Vec::new();
    let mut i: usize = 0;
    while i < closest.len()
        invariant
            i <= closest@.len(),
            candidates@.len() == i,
            forall|k: int| 0 <= k < i ==> (#[trigger] candidates@[k]).id == closest@[k].id && candidates@[k].addr == closest@[k].addr,
        decreases closest@.len() - i,
    {
        candidates.push(Node { id: closest[i].id, addr: closest[i].addr });
        i = i + 1;
    }
    Some(RefreshLookup {
        bucket_idx: idx,
        target,
        candidates,
        queried: Vec::new(),
        outstanding: 0,
        authenticated: 0,
        deadline: now.saturating_add(REFRESH_LOOKUP_DEADLINE_MS),
    })
}

} // verus!

verus! {

/// The endpoints of some nodes.
pub open spec fn node_addrs(s: Seq<Node>) -> Seq<DhtAddr> {
    s.map_values(|n: Node| n.addr)
}

/// Whether a (normalized) node from an answer joins a refresh lookup:
/// not ourselves, a real endpoint in an allowed scope, with an id valid
/// for its address, neither id nor endpoint known to the lookup, and
/// within the per-address and per-network limits among its candidates.
pub open spec fn joins_lookup(n: Node, known: Seq<Node>, own: Seq<u8>, allow_local: bool) -> bool {
    &&& n.id@ != own
    &&& n.addr.port != 0
    &&& !crate::dht::is_unspecified(n.addr.ip)
    &&& (crate::dht::spec_is_global(n.addr.ip) || (allow_local && crate::dht::spec_is_local(n.addr.ip)))
    &&& spec_node_id_matches(n.id@, n.addr)
    &&& !(exists|k: int| 0 <= k < known.len() && ((#[trigger] known[k]).id == n.id || known[k].addr == n.addr))
    &&& fits_diversity(node_addrs(known), n.addr)
}

/// The lookup's candidates after the answer's nodes from position `i` on
/// join in turn.
pub open spec fn absorbed(known: Seq<Node>, c: Seq<Node>, i: int, own: Seq<u8>, allow_local: bool) -> Seq<Node>
    decreases c.len() - i,
{
    if i < 0 || i >= c.len() {
        known
    } else {
        let n = normalized_node(c[i]);
        if joins_lookup(n, known, own, allow_local) {
            absorbed(known.push(n), c, i + 1, own, allow_local)
        } else {
            absorbed(known, c, i + 1, own, allow_local)
        }
    }
}

fn known_clash(known: &Vec<Node>, n: Node) -> (r: bool)
    ensures
        r == (exists|k: int| 0 <= k < known@.len() && ((#[trigger] known@[k]).id == n.id || known@[k].addr == n.addr)),
{
    let mut i: usize = 0;
    while i < known.len()
        invariant
            i <= known@.len(),
            forall|k: int| 0 <= k < i ==> !((#[trigger] known@[k]).id == n.id || known@[k].addr == n.addr),
        decreases known@.len() - i,
    {
        if bytes_equal(known[i].id.as_slice(), n.id.as_slice()) || crate::dht::addr_eq(known[i].addr, n.addr) {
            proof {
                if known@[i as int].id@ == n.id@ {
                    assert(known@[i as int].id =~= n.id);
                }
            }
            return true;
        }
        proof {
            if known@[i as int].id == n.id {
                assert(known@[i as int].id@ == n.id@);
            }
        }
        i = i + 1;
    }
    false
}

fn addrs_of(known: &Vec<Node>) -> (r: Vec<DhtAddr>)
    ensures
        r@ == node_addrs(known@),
{
    let mut out: Vec<DhtAddr> = Vec::new();
    let mut i: usize = 0;
    while i < known.len()
        invariant
            i <= known@.len(),
            out@ == node_addrs(known@.take(i as int)),
        decreases known@.len() - i,
    {
        out.push(known[i].addr);
        i = i + 1;
        assert(out@ =~= node_addrs(known@.take(i as int)));
    }
    assert(known@.take(known@.len() as int) =~= known@);
    out
}

/// Takes an answer `r` to a query of the lookup from `responder`: one query
/// fewer in flight, one more authenticated answer, the answer's nodes join
/// (see `absorbed`), and the candidates are ordered by distance and cut to
/// `MAX_REFRESH_LOOKUP_CANDIDATES`.
pub fn absorb_refresh_answer(lookup: &mut RefreshLookup, r: &[(Vec<u8>, Value)], responder: DhtAddr, own: &[u8; 20])
    ensures
        final(lookup).outstanding == (if old(lookup).outstanding > 0 { old(lookup).outstanding - 1 } else { 0 }),
        final(lookup).authenticated == (if old(lookup).authenticated < usize::MAX { old(lookup).authenticated + 1 } else { usize::MAX as int }),
        final(lookup).bucket_idx == old(lookup).bucket_idx,
        final(lookup).target == old(lookup).target,
        final(lookup).queried@ == old(lookup).queried@,
        final(lookup).deadline == old(lookup).deadline,
        exists|c: Seq<Node>, p: Seq<Node>|
            #![trigger candidates_of(entries_view(r@), c), by_distance(p, old(lookup).target@)]
            {
                let all = absorbed(old(lookup).candidates@, c, 0, own@, crate::dht::spec_is_local(responder.ip));
                &&& candidates_of(entries_view(r@), c)
                &&& p.to_multiset() == all.to_multiset()
                &&& by_distance(p, old(lookup).target@)
                &&& final(lookup).candidates@ == (if p.len() > MAX_REFRESH_LOOKUP_CANDIDATES { p.take(MAX_REFRESH_LOOKUP_CANDIDATES as int) } else { p })
            },
{
    lookup.outstanding = if lookup.outstanding > 0 { lookup.outstanding - 1 } else { 0 };
    lookup.authenticated = lookup.authenticated.saturating_add(1);
    let allow_local = crate::dht::is_local_dht_address(responder.ip);
    let returned = response_candidates(r);
    let mut known: Vec<Node> = Vec::new();
    std::mem::swap(&mut known, &mut lookup.candidates);
    let ghost start = known@;
    let mut i: usize = 0;
    while i < returned.len()
        invariant
            i <= returned@.len(),
            absorbed(start, returned@, 0, own@, allow_local) == absorbed(known@, returned@, i as int, own@, allow_local),
        decreases returned@.len() - i,
    {
        let c = returned[i];
        let n = Node { id: c.id, addr: normalize_dht_addr(c.addr) };
        assert(n == normalized_node(returned@[i as int]));
        let ok = if bytes_equal(n.id.as_slice(), own.as_slice()) || n.addr.port == 0 || crate::dht::unspecified_exec(n.addr.ip) {
            false
        } else if !(crate::dht::is_global_dht_address(n.addr.ip) || (allow_local && crate::dht::is_local_dht_address(n.addr.ip))) {
            false
        } else if !crate::dht::node_id_matches_address(&n.id, n.addr) || known_clash(&known, n) {
            false
        } else {
            let addrs = addrs_of(&known);
            count_same_ip(&addrs, n.addr) < crate::dht::MAX_NODES_PER_IP && count_same_prefix(&addrs, n.addr)
                < crate::dht::MAX_NODES_PER_PREFIX
        };
        assert(ok == joins_lookup(n, known@, own@, allow_local));
        if ok {
            known.push(n);
        }
        i = i + 1;
    }
    let ghost all = known@;
    let sorted = sort_by_distance(known, &lookup.target);
    let ghost p = sorted@;
    let mut kept = sorted;
    if kept.len() > MAX_REFRESH_LOOKUP_CANDIDATES {
        kept.truncate(MAX_REFRESH_LOOKUP_CANDIDATES);
    }
    lookup.candidates = kept;
    proof {
        assert(all == absorbed(start, returned@, 0, own@, allow_local));
        assert(candidates_of(entries_view(r@), returned@));
        assert(by_distance(p, lookup.target@));
    }
}

} // verus!

verus! {

/// One scan of a refresh lookup's candidates from position `i`: the first
/// one to ask (not asked yet, not awaited, and in the table or within the
/// diversity limits), the endpoints found over the limits on the way
/// (marked asked), and whether an awaited endpoint was passed over.
pub open spec fn refresh_scan(c: Seq<Node>, i: int, queried: Seq<DhtAddr>, t: TableModel, p: Seq<PendingQuery>) -> (
    Option<int>,
    Seq<DhtAddr>,
    bool,
)
    decreases c.len() - i,
{
    if i < 0 || i >= c.len() {
        (None, Seq::empty(), false)
    } else {
        let a = c[i].addr;
        if queried.contains(a) {
            refresh_scan(c, i + 1, queried, t, p)
        } else if pending_to(p, a) {
            let r = refresh_scan(c, i + 1, queried, t, p);
            (r.0, r.1, true)
        } else if !has_endpoint(t.1, a) && !fits_diversity(probed_addrs(t.1, p), a) {
            let r = refresh_scan(c, i + 1, queried.push(a), t, p);
            (r.0, seq![a] + r.1, r.2)
        } else {
            (Some(i), Seq::empty(), false)
        }
    }
}

/// Whether every candidate of a lookup was asked, or the query limit reached.
pub open spec fn refresh_exhausted(c: Seq<Node>, queried: Seq<DhtAddr>) -> bool {
    queried.len() >= MAX_REFRESH_LOOKUP_QUERIES || forall|k: int| 0 <= k < c.len() ==> queried.contains(#[trigger] c[k].addr)
}

/// What a refresh lookup does next.
pub enum RefreshStep {
    /// Send a `find_node` for the target to this node.
    Ask(Node),
    /// Wait for answers (or for the pending queries to make room).
    Wait,
    /// The lookup is over: nothing in flight and nothing left to ask.
    Finished,
}

fn scan_refresh(c: &Vec<Node>, queried: &mut Vec<DhtAddr>, rt: &RoutingTable, pending: &[PendingQuery]) -> (r: (
    Option<usize>,
    bool,
))
    ensures
        ({
            let s = refresh_scan(c@, 0, old(queried)@, rt.model(), pending@);
            &&& final(queried)@ == old(queried)@ + s.1
            &&& s.0 == (match r.0 {
                Some(i) => Some(i as int),
                None => None,
            })
            &&& r.1 == s.2
            &&& (r.0 matches Some(i) ==> i < c@.len())
        }),
{
    let ghost q0 = queried@;
    let ghost t = rt.model();
    let probed = probed_addrs_exec(rt, pending);
    let mut i: usize = 0;
    let mut blocked = false;
    let mut sel: Option<usize> = None;
    let ghost mut extra: Seq<DhtAddr> = Seq::empty();
    proof {
        assert(q0 + extra =~= q0);
        assert(extra + refresh_scan(c@, 0, q0, t, pending@).1 =~= refresh_scan(c@, 0, q0, t, pending@).1);
    }
    while i < c.len() && sel.is_none()
        invariant
            i <= c@.len(),
            t == rt.model(),
            probed@ == probed_addrs(t.1, pending@),
            queried@ == q0 + extra,
            ({
                let whole = refresh_scan(c@, 0, q0, t, pending@);
                let here = refresh_scan(c@, i as int, queried@, t, pending@);
                match sel {
                    None => {
                        &&& whole.0 == here.0
                        &&& whole.1 == extra + here.1
                        &&& whole.2 == (blocked || here.2)
                    },
                    Some(j) => {
                        &&& whole.0 == Some(j as int)
                        &&& whole.1 == extra
                        &&& whole.2 == blocked
                        &&& j < c@.len()
                    },
                }
            }),
        decreases c@.len() - i,
    {
        let a = c[i].addr;
        if contains_addr(queried, a) {
        } else if pending_to_exec(pending, a) {
            blocked = true;
        } else if !rt.contains_endpoint(a) && !(count_same_ip(&probed, a) < crate::dht::MAX_NODES_PER_IP
            && count_same_prefix(&probed, a) < crate::dht::MAX_NODES_PER_PREFIX) {
            let ghost rest = refresh_scan(c@, i + 1, queried@.push(a), t, pending@);
            proof {
                assert(extra + (seq![a] + rest.1) =~= extra.push(a) + rest.1);
                extra = extra.push(a);
            }
            queried.push(a);
            proof {
                assert(queried@ =~= q0 + extra);
            }
        } else {
            proof {
                assert(extra + Seq::<DhtAddr>::empty() =~= extra);
                assert(has_endpoint(t.1, a) || fits_diversity(probed_addrs(t.1, pending@), a));
                assert(refresh_scan(c@, i as int, queried@, t, pending@) == (Some(i as int), Seq::<DhtAddr>::empty(), false));
            }
            sel = Some(i);
        }
        i = i + 1;
    }
    proof {
        assert(extra + Seq::<DhtAddr>::empty() =~= extra);
    }
    (sel, blocked)
}

/// The next step of a refresh lookup, with `pending` the queries in
/// flight. While fewer than `REFRESH_LOOKUP_ALPHA` of its queries are out,
/// fewer than `MAX_REFRESH_LOOKUP_QUERIES` endpoints were asked and the
/// pending queries have room, the first candidate of `refresh_scan` is
/// marked asked and returned, to be sent a query; the endpoints over the
/// diversity limits that the scan passed are marked asked too. Where the
/// scan finds none and passed an awaited endpoint, the lookup waits.
/// Otherwise it is finished once nothing is in flight and it is exhausted
/// (`refresh_exhausted`), and waits while not.
pub fn next_refresh_query(lookup: &mut RefreshLookup, rt: &RoutingTable, pending: &[PendingQuery]) -> (r: RefreshStep)
    ensures
        final(lookup).bucket_idx == old(lookup).bucket_idx,
        final(lookup).target == old(lookup).target,
        final(lookup).candidates@ == old(lookup).candidates@,
        final(lookup).outstanding == old(lookup).outstanding,
        final(lookup).authenticated == old(lookup).authenticated,
        final(lookup).deadline == old(lookup).deadline,
        ({
            let c = old(lookup).candidates@;
            let q = old(lookup).queried@;
            let room = old(lookup).outstanding < REFRESH_LOOKUP_ALPHA && q.len() < MAX_REFRESH_LOOKUP_QUERIES
                && pending@.len() < MAX_PENDING_QUERIES;
            let s = refresh_scan(c, 0, q, rt.model(), pending@);
            let q2 = if room { q + s.1 } else { q };
            if room && s.0 is Some {
                let i = s.0->Some_0;
                &&& 0 <= i < c.len()
                &&& r == RefreshStep::Ask(c[i])
                &&& final(lookup).queried@ == q2.push(c[i].addr)
            } else {
                &&& final(lookup).queried@ == q2
                &&& r == (if room && s.2 {
                    RefreshStep::Wait
                } else if old(lookup).outstanding == 0 && refresh_exhausted(c, q2) {
                    RefreshStep::Finished
                } else {
                    RefreshStep::Wait
                })
            }
        }),
{
    let room = lookup.outstanding < REFRESH_LOOKUP_ALPHA && lookup.queried.len() < MAX_REFRESH_LOOKUP_QUERIES
        && pending.len() < MAX_PENDING_QUERIES;
    if room {
        let (sel, blocked) = scan_refresh(&lookup.candidates, &mut lookup.queried, rt, pending);
        match sel {
            Some(i) => {
                let n = Node { id: lookup.candidates[i].id, addr: lookup.candidates[i].addr };
                lookup.queried.push(n.addr);
                return RefreshStep::Ask(n);
            },
            None => {
                if blocked {
                    return RefreshStep::Wait;
                }
            },
        }
    }
    if lookup.outstanding == 0 && refresh_exhausted_exec(&lookup.candidates, &lookup.queried) {
        RefreshStep::Finished
    } else {
        RefreshStep::Wait
    }
}

fn refresh_exhausted_exec(c: &Vec<Node>, queried: &Vec<DhtAddr>) -> (r: bool)
    ensures
        r == refresh_exhausted(c@, queried@),
{
    if queried.len() >= MAX_REFRESH_LOOKUP_QUERIES {
        return true;
    }
    let mut i: usize = 0;
    while i < c.len()
        invariant
            i <= c@.len(),
            queried@.len() < MAX_REFRESH_LOOKUP_QUERIES,
            forall|k: int| 0 <= k < i ==> queried@.contains(#[trigger] c@[k].addr),
        decreases c@.len() - i,
    {
        if !contains_addr(queried, c[i].addr) {
            assert(!queried@.contains(c@[i as int].addr));
            return false;
        }
        i = i + 1;
    }
    true
}

/// Whether a refresh lookup has run out its time.
pub fn refresh_expired(lookup: &RefreshLookup, now: u64) -> (r: bool)
    ensures
        r == (now >= lookup.deadline),
{
    now >= lookup.deadline
}

/// Ends a refresh lookup, finished or expired: its bucket counts as
/// refreshed at `now` exactly when some node answered it.
pub fn close_refresh(rt: &mut RoutingTable, lookup: &RefreshLookup, now: u64)
    requires
        old(rt).wf(),
    ensures
        final(rt).wf(),
        final(rt).attempted() == old(rt).attempted(),
        (lookup.authenticated > 0 && lookup.bucket_idx < crate::dht::NUM_BUCKETS) ==> final(rt).model() == ({
            let (own, nodes, refreshed, failures) = old(rt).model();
            (own, nodes, refreshed.update(lookup.bucket_idx as int, now), failures)
        }),
        !(lookup.authenticated > 0 && lookup.bucket_idx < crate::dht::NUM_BUCKETS) ==> final(rt).model() == old(rt).model(),
{
    if lookup.authenticated > 0 {
        rt.mark_bucket_refreshed(lookup.bucket_idx, now);
    }
}

} // verus!
