use vstd::prelude::*;
use std::sync::atomic::AtomicBool;

verus! {

/// Nodes kept per routing-table bucket.
pub const K: usize = 8;

/// Buckets of the routing table, one per bit of a node id.
pub const NUM_BUCKETS: usize = 160;

// ---------------------------------------------------------------------
// Distances between node ids
// ---------------------------------------------------------------------

/// The XOR metric between two node ids.
pub fn xor_distance(a: &[u8; 20], b: &[u8; 20]) -> (r: [u8; 20])
    ensures
        r@.len() == 20,
        forall|i: int| 0 <= i < 20 ==> r@[i] == a@[i] ^ b@[i],
{
    let mut out = [0u8; 20];
    let mut i: usize = 0;
    while i < 20
        invariant
            i <= 20,
            out@.len() == 20,
            forall|x: int| 0 <= x < i ==> out@[x] == a@[x] ^ b@[x],
        decreases 20 - i,
    {
        out[i] = a[i] ^ b[i];
        i = i + 1;
    }
    out
}

/// The leading zero bits of one byte.
pub open spec fn byte_leading_zeros(b: u8) -> nat {
    if b >= 128 {
        0
    } else if b >= 64 {
        1
    } else if b >= 32 {
        2
    } else if b >= 16 {
        3
    } else if b >= 8 {
        4
    } else if b >= 4 {
        5
    } else if b >= 2 {
        6
    } else if b >= 1 {
        7
    } else {
        8
    }
}

/// The leading zero bits of a big-endian bit string.
pub open spec fn spec_leading_zeros(s: Seq<u8>) -> nat
    decreases s.len(),
{
    if s.len() == 0 {
        0
    } else if s[0] == 0 {
        8 + spec_leading_zeros(s.drop_first())
    } else {
        byte_leading_zeros(s[0])
    }
}

proof fn lemma_leading_zeros_bound(s: Seq<u8>)
    ensures
        spec_leading_zeros(s) <= 8 * s.len(),
    decreases s.len(),
{
    if s.len() > 0 && s[0] == 0 {
        lemma_leading_zeros_bound(s.drop_first());
    }
}

fn byte_lz(b: u8) -> (r: usize)
    ensures
        r == byte_leading_zeros(b),
{
    if b >= 128 {
        0
    } else if b >= 64 {
        1
    } else if b >= 32 {
        2
    } else if b >= 16 {
        3
    } else if b >= 8 {
        4
    } else if b >= 4 {
        5
    } else if b >= 2 {
        6
    } else if b >= 1 {
        7
    } else {
        8
    }
}

/// The leading zero bits of a 160-bit id.
pub fn leading_zeros(bytes: &[u8; 20]) -> (r: usize)
    ensures
        r == spec_leading_zeros(bytes@),
        r <= 160,
{
    let mut count: usize = 0;
    let mut i: usize = 0;
    assert(bytes@.subrange(0, 20) =~= bytes@);
    while i < 20
        invariant
            i <= 20,
            bytes@.len() == 20,
            count == 8 * i,
            spec_leading_zeros(bytes@) == count + spec_leading_zeros(bytes@.subrange(i as int, 20)),
        decreases 20 - i,
    {
        let ghost rest = bytes@.subrange(i as int, 20);
        assert(rest.drop_first() =~= bytes@.subrange(i + 1, 20));
        assert(rest[0] == bytes@[i as int]);
        if bytes[i] == 0 {
            count = count + 8;
            i = i + 1;
        } else {
            let r = count + byte_lz(bytes[i]);
            proof {
                lemma_leading_zeros_bound(bytes@);
            }
            return r;
        }
    }
    assert(bytes@.subrange(20, 20).len() == 0);
    count
}

/// The routing-table bucket of a node id, seen from our own id: the last
/// bucket for the closest ids, bucket 0 for those that differ in the first
/// bit.
pub open spec fn spec_bucket_index(own: Seq<u8>, id: Seq<u8>) -> int {
    let lz = spec_leading_zeros(Seq::new(20, |i: int| own[i] ^ id[i]));
    if lz >= NUM_BUCKETS {
        NUM_BUCKETS - 1
    } else {
        NUM_BUCKETS - 1 - lz
    }
}

/// The bucket that holds `id` in a table whose own id is `own`.
pub fn bucket_index(own: &[u8; 20], id: &[u8; 20]) -> (r: usize)
    ensures
        r == spec_bucket_index(own@, id@),
        r < NUM_BUCKETS,
{
    let dist = xor_distance(own, id);
    assert(dist@ =~= Seq::new(20, |i: int| own@[i] ^ id@[i]));
    let leading = leading_zeros(&dist);
    if leading >= NUM_BUCKETS {
        NUM_BUCKETS - 1
    } else {
        NUM_BUCKETS - 1 - leading
    }
}

// ---------------------------------------------------------------------
// Bootstrap resolution
// ---------------------------------------------------------------------

/// Claims a bootstrap host's resolver slot: `true` when the slot was free
/// and is now taken, `false` when a resolver already holds it. The answer
/// depends on the slot's shared state, so no contract states it.
pub fn acquire_bootstrap_resolver_slot(slot: &AtomicBool) -> bool {
    slot.compare_exchange(false, true, std::sync::atomic::Ordering::AcqRel, std::sync::atomic::Ordering::Acquire).is_ok()
}


// ---------------------------------------------------------------------
// Addresses
// ---------------------------------------------------------------------

/// An IP address as its octets.
#[derive(Clone, Copy, Debug, PartialEq, Eq)]
pub enum DhtIp {
    V4([u8; 4]),
    V6([u8; 16]),
}

/// A UDP endpoint of the DHT.
#[derive(Clone, Copy, Debug, PartialEq, Eq)]
pub struct DhtAddr {
    pub ip: DhtIp,
    pub port: u16,
}

/// A node as the wire carries it: its id and endpoint.
#[derive(Clone, Copy, Debug, PartialEq, Eq)]
pub struct Node {
    pub id: [u8; 20],
    pub addr: DhtAddr,
}

/// An IP address as a sequence of octets, with its family.
pub open spec fn ip_octets(ip: DhtIp) -> Seq<u8> {
    match ip {
        DhtIp::V4(o) => o@,
        DhtIp::V6(o) => o@,
    }
}

/// `Ipv6Addr::to_ipv4_mapped`: the IPv4 address of `::ffff:a.b.c.d`.
pub open spec fn is_v4_mapped(o: Seq<u8>) -> bool {
    o.len() == 16 && (forall|i: int| 0 <= i < 10 ==> o[i] == 0) && o[10] == 0xff && o[11] == 0xff
}

/// An address in the form the DHT compares it: an IPv4-mapped IPv6
/// address as its IPv4 address, any other as it is.
pub open spec fn spec_normalize_ip(ip: DhtIp) -> DhtIp {
    match ip {
        DhtIp::V6(o) => if is_v4_mapped(o@) {
            DhtIp::V4([o[12], o[13], o[14], o[15]])
        } else {
            ip
        },
        DhtIp::V4(_) => ip,
    }
}

fn is_v4_mapped_exec(o: &[u8; 16]) -> (r: bool)
    ensures
        r == is_v4_mapped(o@),
{
    let mut i: usize = 0;
    while i < 10
        invariant
            i <= 10,
            o@.len() == 16,
            forall|j: int| 0 <= j < i ==> o@[j] == 0,
        decreases 10 - i,
    {
        if o[i] != 0 {
            return false;
        }
        i = i + 1;
    }
    o[10] == 0xff && o[11] == 0xff
}

/// IPv4-mapped IPv6 addresses taken as IPv4.
pub fn normalize_dht_ip(ip: DhtIp) -> (r: DhtIp)
    ensures
        r == spec_normalize_ip(ip),
{
    match ip {
        DhtIp::V6(o) => {
            if is_v4_mapped_exec(&o) {
                let v = [o[12], o[13], o[14], o[15]];
                assert(v =~= [o[12], o[13], o[14], o[15]]);
                DhtIp::V4(v)
            } else {
                ip
            }
        },
        DhtIp::V4(_) => ip,
    }
}

/// Normalizing an address twice is normalizing it once.
pub proof fn lemma_normalize_ip_idempotent(ip: DhtIp)
    ensures
        spec_normalize_ip(spec_normalize_ip(ip)) == spec_normalize_ip(ip),
{
}

/// The endpoint with its address normalized.
pub fn normalize_dht_addr(addr: DhtAddr) -> (r: DhtAddr)
    ensures
        r == (DhtAddr { ip: spec_normalize_ip(addr.ip), port: addr.port }),
{
    DhtAddr { ip: normalize_dht_ip(addr.ip), port: addr.port }
}

/// Two endpoints in one network: the same /24 for IPv4, the same /64 for
/// IPv6, after normalizing.
pub open spec fn spec_same_network_prefix(left: DhtAddr, right: DhtAddr) -> bool {
    match (spec_normalize_ip(left.ip), spec_normalize_ip(right.ip)) {
        (DhtIp::V4(l), DhtIp::V4(r)) => l@.subrange(0, 3) == r@.subrange(0, 3),
        (DhtIp::V6(l), DhtIp::V6(r)) => l@.subrange(0, 8) == r@.subrange(0, 8),
        _ => false,
    }
}

/// Whether two endpoints share a network prefix (see
/// `spec_same_network_prefix`).
pub fn same_network_prefix(left: DhtAddr, right: DhtAddr) -> (r: bool)
    ensures
        r == spec_same_network_prefix(left, right),
{
    match (normalize_dht_ip(left.ip), normalize_dht_ip(right.ip)) {
        (DhtIp::V4(l), DhtIp::V4(r)) => prefix_equal(l.as_slice(), r.as_slice(), 3),
        (DhtIp::V6(l), DhtIp::V6(r)) => prefix_equal(l.as_slice(), r.as_slice(), 8),
        _ => false,
    }
}

fn prefix_equal(l: &[u8], r: &[u8], n: usize) -> (eq: bool)
    requires
        n <= l@.len(),
        n <= r@.len(),
    ensures
        eq == (l@.subrange(0, n as int) == r@.subrange(0, n as int)),
{
    let mut i: usize = 0;
    while i < n
        invariant
            i <= n,
            n <= l@.len(),
            n <= r@.len(),
            forall|j: int| 0 <= j < i ==> l@[j] == r@[j],
        decreases n - i,
    {
        if l[i] != r[i] {
            assert(l@.subrange(0, n as int)[i as int] != r@.subrange(0, n as int)[i as int]);
            return false;
        }
        i = i + 1;
    }
    assert(l@.subrange(0, n as int) =~= r@.subrange(0, n as int));
    true
}

/// `Ipv4Addr::is_private`: 10.0.0.0/8, 172.16.0.0/12, 192.168.0.0/16.
pub open spec fn v4_private(o: Seq<u8>) -> bool {
    o[0] == 10 || (o[0] == 172 && 16 <= o[1] < 32) || (o[0] == 192 && o[1] == 168)
}

/// `Ipv4Addr::is_loopback`: 127.0.0.0/8.
pub open spec fn v4_loopback(o: Seq<u8>) -> bool {
    o[0] == 127
}

/// `Ipv4Addr::is_link_local`: 169.254.0.0/16.
pub open spec fn v4_link_local(o: Seq<u8>) -> bool {
    o[0] == 169 && o[1] == 254
}

/// The first 16-bit segment of an IPv6 address.
pub open spec fn v6_segment(o: Seq<u8>, i: int) -> int {
    o[2 * i] * 256 + o[2 * i + 1]
}

/// `Ipv6Addr::is_loopback`: `::1`.
pub open spec fn v6_loopback(o: Seq<u8>) -> bool {
    (forall|i: int| 0 <= i < 15 ==> o[i] == 0) && o[15] == 1
}

/// `Ipv6Addr::is_unicast_link_local`: fe80::/10.
pub open spec fn v6_link_local(o: Seq<u8>) -> bool {
    o[0] == 0xfe && (o[1] & 0xc0) == 0x80
}

/// Addresses of the local scope: private, loopback and link-local IPv4;
/// loopback, link-local and unique-local IPv6.
pub open spec fn spec_is_local(ip: DhtIp) -> bool {
    match spec_normalize_ip(ip) {
        DhtIp::V4(o) => v4_private(o@) || v4_loopback(o@) || v4_link_local(o@),
        DhtIp::V6(o) => v6_loopback(o@) || v6_link_local(o@) || (o@[0] & 0xfe) == 0xfc,
    }
}

/// Publicly routable addresses: IPv4 outside the unspecified, broadcast,
/// multicast, loopback, private, link-local, reserved, shared,
/// benchmarking and documentation ranges; IPv6 in 2000::/3 outside
/// Teredo-like 2001::/23, documentation, 6to4 and 3ff0::/12.
pub open spec fn spec_is_global(ip: DhtIp) -> bool {
    match spec_normalize_ip(ip) {
        DhtIp::V4(a) => {
            let o = a@;
            &&& !(o[0] == 0 && o[1] == 0 && o[2] == 0 && o[3] == 0)
            &&& !(o[0] == 255 && o[1] == 255 && o[2] == 255 && o[3] == 255)
            &&& !(224 <= o[0] < 240)
            &&& !v4_loopback(o)
            &&& !v4_private(o)
            &&& !v4_link_local(o)
            &&& o[0] != 0
            &&& o[0] < 240
            &&& !(o[0] == 100 && (o[1] & 0xc0) == 0x40)
            &&& !(o[0] == 192 && o[1] == 0 && o[2] == 0)
            &&& !(o[0] == 192 && o[1] == 0 && o[2] == 2)
            &&& !(o[0] == 198 && (o[1] == 18 || o[1] == 19))
            &&& !(o[0] == 198 && o[1] == 51 && o[2] == 100)
            &&& !(o[0] == 203 && o[1] == 0 && o[2] == 113)
        },
        DhtIp::V6(a) => {
            let o = a@;
            &&& (o[0] & 0xe0) == 0x20
            &&& !(o[0] == 0x20 && o[1] == 0x01 && (o[2] & 0xfe) == 0)
            &&& !(o[0] == 0x20 && o[1] == 0x01 && o[2] == 0x0d && o[3] == 0xb8)
            &&& !(o[0] == 0x20 && o[1] == 0x02)
            &&& !(o[0] == 0x3f && (o[1] & 0xf0) == 0xf0)
        },
    }
}

fn v4_local_exec(o: &[u8; 4]) -> (r: bool)
    ensures
        r == (v4_private(o@) || v4_loopback(o@) || v4_link_local(o@)),
{
    o[0] == 10 || (o[0] == 172 && 16 <= o[1] && o[1] < 32) || (o[0] == 192 && o[1] == 168) || o[0] == 127 || (
    o[0] == 169 && o[1] == 254)
}

fn v6_loopback_exec(o: &[u8; 16]) -> (r: bool)
    ensures
        r == v6_loopback(o@),
{
    let mut i: usize = 0;
    while i < 15
        invariant
            i <= 15,
            o@.len() == 16,
            forall|j: int| 0 <= j < i ==> o@[j] == 0,
        decreases 15 - i,
    {
        if o[i] != 0 {
            return false;
        }
        i = i + 1;
    }
    o[15] == 1
}

/// Whether an address is of the local scope (see `spec_is_local`).
pub fn is_local_dht_address(ip: DhtIp) -> (r: bool)
    ensures
        r == spec_is_local(ip),
{
    match normalize_dht_ip(ip) {
        DhtIp::V4(o) => v4_local_exec(&o),
        DhtIp::V6(o) => v6_loopback_exec(&o) || (o[0] == 0xfe && (o[1] & 0xc0) == 0x80) || (o[0] & 0xfe) == 0xfc,
    }
}

/// Whether an address is publicly routable (see `spec_is_global`).
pub fn is_global_dht_address(ip: DhtIp) -> (r: bool)
    ensures
        r == spec_is_global(ip),
{
    match normalize_dht_ip(ip) {
        DhtIp::V4(o) => {
            !(o[0] == 0 && o[1] == 0 && o[2] == 0 && o[3] == 0) && !(o[0] == 255 && o[1] == 255 && o[2] == 255
                && o[3] == 255) && !(224 <= o[0] && o[0] < 240) && !v4_local_exec(&o) && o[0] != 0 && o[0] < 240
                && !(o[0] == 100 && (o[1] & 0xc0) == 0x40) && !(o[0] == 192 && o[1] == 0 && o[2] == 0) && !(o[0]
                == 192 && o[1] == 0 && o[2] == 2) && !(o[0] == 198 && (o[1] == 18 || o[1] == 19)) && !(o[0] == 198
                && o[1] == 51 && o[2] == 100) && !(o[0] == 203 && o[1] == 0 && o[2] == 113)
        },
        DhtIp::V6(o) => {
            (o[0] & 0xe0) == 0x20 && !(o[0] == 0x20 && o[1] == 0x01 && (o[2] & 0xfe) == 0) && !(o[0] == 0x20 && o[1]
                == 0x01 && o[2] == 0x0d && o[3] == 0xb8) && !(o[0] == 0x20 && o[1] == 0x02) && !(o[0] == 0x3f && (o[1]
                & 0xf0) == 0xf0)
        },
    }
}

/// A node learned from `responder` may be `candidate` when both are local,
/// the candidate is public and the responder local, or both are public.
pub open spec fn spec_scope_allowed(responder: DhtAddr, candidate: DhtAddr) -> bool {
    (spec_is_local(responder.ip) && (spec_is_local(candidate.ip) || spec_is_global(candidate.ip))) || (
    spec_is_global(responder.ip) && spec_is_global(candidate.ip))
}

/// Whether a responder may point at a candidate (see `spec_scope_allowed`).
pub fn dht_address_scope_allowed(responder: DhtAddr, candidate: DhtAddr) -> (r: bool)
    ensures
        r == spec_scope_allowed(responder, candidate),
{
    (is_local_dht_address(responder.ip) && (is_local_dht_address(candidate.ip) || is_global_dht_address(
        candidate.ip,
    ))) || (is_global_dht_address(responder.ip) && is_global_dht_address(candidate.ip))
}


// ---------------------------------------------------------------------
// BEP 42 node ids
// ---------------------------------------------------------------------

/// One bit step of CRC-32C (Castagnoli, reflected).
pub open spec fn crc_step(c: u32) -> u32 {
    if c & 1 == 1 {
        (c >> 1) ^ 0x82f63b78u32
    } else {
        c >> 1
    }
}

/// `n` bit steps.
pub open spec fn crc_steps(c: u32, n: nat) -> u32
    decreases n,
{
    if n == 0 {
        c
    } else {
        crc_step(crc_steps(c, (n - 1) as nat))
    }
}

/// The CRC register after the bytes of `s`, starting from all ones.
pub open spec fn crc_state(s: Seq<u8>) -> u32
    decreases s.len(),
{
    if s.len() == 0 {
        0xffffffffu32
    } else {
        crc_steps(crc_state(s.drop_last()) ^ (s.last() as u32), 8)
    }
}

/// CRC-32C of a byte string.
pub open spec fn spec_crc32c(s: Seq<u8>) -> u32 {
    !crc_state(s)
}

/// CRC-32C of `bytes`, bit by bit.
pub fn crc32c(bytes: &[u8]) -> (r: u32)
    ensures
        r == spec_crc32c(bytes@),
{
    let mut crc: u32 = 0xffff_ffff;
    let mut i: usize = 0;
    while i < bytes.len()
        invariant
            i <= bytes@.len(),
            crc == crc_state(bytes@.subrange(0, i as int)),
        decreases bytes@.len() - i,
    {
        let ghost sub = bytes@.subrange(0, i as int + 1);
        assert(sub.drop_last() =~= bytes@.subrange(0, i as int));
        let start = crc ^ (bytes[i] as u32);
        crc = start;
        let mut k: usize = 0;
        while k < 8
            invariant
                k <= 8,
                crc == crc_steps(start, k as nat),
            decreases 8 - k,
        {
            crc = if crc & 1 == 1 {
                (crc >> 1) ^ 0x82f6_3b78
            } else {
                crc >> 1
            };
            k = k + 1;
        }
        i = i + 1;
    }
    assert(bytes@.subrange(0, i as int) =~= bytes@);
    !crc
}

/// The bytes BEP 42 hashes for an address: its leading octets masked, the
/// three random bits of the id on top.
pub open spec fn bep42_input(ip: DhtIp, random: u8) -> Seq<u8> {
    match ip {
        DhtIp::V4(a) => {
            let o = a@;
            seq![(o[0] & 0x03) | (random << 5u8), o[1] & 0x0f, o[2] & 0x3f, o[3] & 0xff]
        },
        DhtIp::V6(a) => {
            let o = a@;
            seq![
                (o[0] & 0x01) | (random << 5u8),
                o[1] & 0x03,
                o[2] & 0x07,
                o[3] & 0x0f,
                o[4] & 0x1f,
                o[5] & 0x3f,
                o[6] & 0x7f,
                o[7] & 0xff,
            ]
        },
    }
}

/// BEP 42: a local address takes any id; a public one an id whose first
/// 21 bits are those of the CRC-32C of its masked address; any other
/// none.
pub open spec fn spec_node_id_matches(id: Seq<u8>, addr: DhtAddr) -> bool {
    if spec_is_local(addr.ip) {
        true
    } else if !spec_is_global(addr.ip) {
        false
    } else {
        let crc = spec_crc32c(bep42_input(spec_normalize_ip(addr.ip), id[19] & 0x07));
        &&& id[0] == (crc >> 24u32) as u8
        &&& id[1] == (crc >> 16u32) as u8
        &&& (id[2] & 0xf8) == (((crc >> 8u32) as u8) & 0xf8)
    }
}

/// Whether a node id is valid for its address (see
/// `spec_node_id_matches`).
pub fn node_id_matches_address(id: &[u8; 20], addr: DhtAddr) -> (r: bool)
    ensures
        r == spec_node_id_matches(id@, addr),
{
    if is_local_dht_address(addr.ip) {
        return true;
    }
    if !is_global_dht_address(addr.ip) {
        return false;
    }
    let random = id[19] & 0x07;
    let ip = normalize_dht_ip(addr.ip);
    let crc = match ip {
        DhtIp::V4(o) => {
            let bytes = [(o[0] & 0x03) | (random << 5u8), o[1] & 0x0f, o[2] & 0x3f, o[3] & 0xff];
            assert(bytes@ =~= bep42_input(ip, random));
            crc32c(bytes.as_slice())
        },
        DhtIp::V6(o) => {
            let bytes = [
                (o[0] & 0x01) | (random << 5u8),
                o[1] & 0x03,
                o[2] & 0x07,
                o[3] & 0x0f,
                o[4] & 0x1f,
                o[5] & 0x3f,
                o[6] & 0x7f,
                o[7] & 0xff,
            ];
            assert(bytes@ =~= bep42_input(ip, random));
            crc32c(bytes.as_slice())
        },
    };
    id[0] == (crc >> 24u32) as u8 && id[1] == (crc >> 16u32) as u8 && (id[2] & 0xf8) == (((crc >> 8u32) as u8)
        & 0xf8)
}


// ---------------------------------------------------------------------
// Compact node and peer encodings
// ---------------------------------------------------------------------

/// The big-endian port at `at`.
pub open spec fn port_at(b: Seq<u8>, at: int) -> u16 {
    (b[at] * 256 + b[at + 1]) as u16
}

/// `ip` is the address whose sixteen IPv6 octets are `o`, normalized.
pub open spec fn is_normalized_v6(ip: DhtIp, o: Seq<u8>) -> bool {
    if is_v4_mapped(o) {
        ip is V4 && ip_octets(ip) == o.subrange(12, 16)
    } else {
        ip is V6 && ip_octets(ip) == o
    }
}

proof fn lemma_normalized_v6(o: [u8; 16])
    ensures
        is_normalized_v6(spec_normalize_ip(DhtIp::V6(o)), o@),
{
    if is_v4_mapped(o@) {
        assert(ip_octets(spec_normalize_ip(DhtIp::V6(o))) =~= o@.subrange(12, 16));
    }
}

fn copy4(src: &[u8], at: usize) -> (r: [u8; 4])
    requires
        at + 4 <= src@.len(),
    ensures
        r@ == src@.subrange(at as int, at + 4),
{
    let r = [src[at], src[at + 1], src[at + 2], src[at + 3]];
    assert(r@ =~= src@.subrange(at as int, at + 4));
    r
}

fn copy16(src: &[u8], at: usize) -> (r: [u8; 16])
    requires
        at + 16 <= src@.len(),
    ensures
        r@ == src@.subrange(at as int, at + 16),
{
    let mut out = [0u8; 16];
    let mut i: usize = 0;
    while i < 16
        invariant
            i <= 16,
            at + 16 <= src.len(),
            out@.len() == 16,
            forall|j: int| 0 <= j < i ==> out@[j] == src@[at + j],
        decreases 16 - i,
    {
        out[i] = src[at + i];
        i = i + 1;
    }
    assert(out@ =~= src@.subrange(at as int, at + 16));
    out
}

fn copy20(src: &[u8], at: usize) -> (r: [u8; 20])
    requires
        at + 20 <= src@.len(),
    ensures
        r@ == src@.subrange(at as int, at + 20),
{
    let mut out = [0u8; 20];
    let mut i: usize = 0;
    while i < 20
        invariant
            i <= 20,
            at + 20 <= src.len(),
            out@.len() == 20,
            forall|j: int| 0 <= j < i ==> out@[j] == src@[at + j],
        decreases 20 - i,
    {
        out[i] = src[at + i];
        i = i + 1;
    }
    assert(out@ =~= src@.subrange(at as int, at + 20));
    out
}

fn read_port(src: &[u8], at: usize) -> (r: u16)
    requires
        at + 2 <= src@.len(),
    ensures
        r == port_at(src@, at as int),
{
    (src[at] as u16) * 256 + (src[at + 1] as u16)
}

/// The IPv4 nodes of a compact `nodes` value: one per whole 26-byte
/// record (id, address, port), a partial record at the end ignored.
pub fn decode_nodes(bytes: &[u8]) -> (r: Vec<Node>)
    ensures
        r@.len() == bytes@.len() / 26,
        forall|k: int|
            0 <= k < r@.len() ==> {
                let n = #[trigger] r@[k];
                &&& n.id@ == bytes@.subrange(26 * k, 26 * k + 20)
                &&& n.addr.ip is V4
                &&& ip_octets(n.addr.ip) == bytes@.subrange(26 * k + 20, 26 * k + 24)
                &&& n.addr.port == port_at(bytes@, 26 * k + 24)
            },
{
    let mut nodes: Vec<Node> = Vec::new();
    let mut i: usize = 0;
    while bytes.len() - i >= 26
        invariant
            i <= bytes@.len(),
            i == 26 * nodes@.len(),
            forall|k: int|
                0 <= k < nodes@.len() ==> {
                    let n = #[trigger] nodes@[k];
                    &&& n.id@ == bytes@.subrange(26 * k, 26 * k + 20)
                    &&& n.addr.ip is V4
                    &&& ip_octets(n.addr.ip) == bytes@.subrange(26 * k + 20, 26 * k + 24)
                    &&& n.addr.port == port_at(bytes@, 26 * k + 24)
                },
        decreases bytes@.len() - i,
    {
        let id = copy20(bytes, i);
        let ip = copy4(bytes, i + 20);
        let port = read_port(bytes, i + 24);
        nodes.push(Node { id, addr: DhtAddr { ip: DhtIp::V4(ip), port } });
        i = i + 26;
    }
    assert(nodes@.len() == bytes@.len() / 26);
    nodes
}

/// The nodes of a compact `nodes6` value: one per whole 38-byte record,
/// IPv4-mapped addresses taken as IPv4.
pub fn decode_nodes6(bytes: &[u8]) -> (r: Vec<Node>)
    ensures
        r@.len() == bytes@.len() / 38,
        forall|k: int|
            0 <= k < r@.len() ==> {
                let n = #[trigger] r@[k];
                &&& n.id@ == bytes@.subrange(38 * k, 38 * k + 20)
                &&& is_normalized_v6(n.addr.ip, bytes@.subrange(38 * k + 20, 38 * k + 36))
                &&& n.addr.port == port_at(bytes@, 38 * k + 36)
            },
{
    let mut nodes: Vec<Node> = Vec::new();
    let mut i: usize = 0;
    while bytes.len() - i >= 38
        invariant
            i <= bytes@.len(),
            i == 38 * nodes@.len(),
            forall|k: int|
                0 <= k < nodes@.len() ==> {
                    let n = #[trigger] nodes@[k];
                    &&& n.id@ == bytes@.subrange(38 * k, 38 * k + 20)
                    &&& is_normalized_v6(n.addr.ip, bytes@.subrange(38 * k + 20, 38 * k + 36))
                    &&& n.addr.port == port_at(bytes@, 38 * k + 36)
                },
        decreases bytes@.len() - i,
    {
        let id = copy20(bytes, i);
        let o = copy16(bytes, i + 20);
        let port = read_port(bytes, i + 36);
        let ip = normalize_dht_ip(DhtIp::V6(o));
        proof {
            lemma_normalized_v6(o);
        }
        nodes.push(Node { id, addr: DhtAddr { ip, port } });
        i = i + 38;
    }
    assert(nodes@.len() == bytes@.len() / 38);
    nodes
}

/// The IPv4 peers of a compact peer list: one per whole 6-byte record.
pub fn decode_peers(bytes: &[u8]) -> (r: Vec<DhtAddr>)
    ensures
        r@.len() == bytes@.len() / 6,
        forall|k: int|
            0 <= k < r@.len() ==> {
                let a = #[trigger] r@[k];
                &&& a.ip is V4
                &&& ip_octets(a.ip) == bytes@.subrange(6 * k, 6 * k + 4)
                &&& a.port == port_at(bytes@, 6 * k + 4)
            },
{
    let mut peers: Vec<DhtAddr> = Vec::new();
    let mut i: usize = 0;
    while bytes.len() - i >= 6
        invariant
            i <= bytes@.len(),
            i == 6 * peers@.len(),
            forall|k: int|
                0 <= k < peers@.len() ==> {
                    let a = #[trigger] peers@[k];
                    &&& a.ip is V4
                    &&& ip_octets(a.ip) == bytes@.subrange(6 * k, 6 * k + 4)
                    &&& a.port == port_at(bytes@, 6 * k + 4)
                },
        decreases bytes@.len() - i,
    {
        let ip = copy4(bytes, i);
        let port = read_port(bytes, i + 4);
        peers.push(DhtAddr { ip: DhtIp::V4(ip), port });
        i = i + 6;
    }
    assert(peers@.len() == bytes@.len() / 6);
    peers
}

/// One peer value of a `values` list: six bytes for IPv4, eighteen for
/// IPv6 (normalized), and a non-zero port; anything else is no peer.
pub fn decode_peer_value(bytes: &[u8]) -> (r: Option<DhtAddr>)
    ensures
        (bytes@.len() == 6 && port_at(bytes@, 4) != 0) ==> (r matches Some(a) && a.ip is V4 && ip_octets(a.ip)
            == bytes@.subrange(0, 4) && a.port == port_at(bytes@, 4)),
        (bytes@.len() == 18 && port_at(bytes@, 16) != 0) ==> (r matches Some(a) && is_normalized_v6(
            a.ip,
            bytes@.subrange(0, 16),
        ) && a.port == port_at(bytes@, 16)),
        !((bytes@.len() == 6 && port_at(bytes@, 4) != 0) || (bytes@.len() == 18 && port_at(bytes@, 16) != 0))
            ==> r is None,
{
    if bytes.len() == 6 {
        let port = read_port(bytes, 4);
        if port == 0 {
            return None;
        }
        Some(DhtAddr { ip: DhtIp::V4(copy4(bytes, 0)), port })
    } else if bytes.len() == 18 {
        let port = read_port(bytes, 16);
        if port == 0 {
            return None;
        }
        let o = copy16(bytes, 0);
        proof {
            lemma_normalized_v6(o);
        }
        Some(DhtAddr { ip: normalize_dht_ip(DhtIp::V6(o)), port })
    } else {
        None
    }
}

/// The big-endian bytes of a port.
pub open spec fn port_bytes(p: u16) -> Seq<u8> {
    seq![(p / 256) as u8, (p % 256) as u8]
}

/// The compact form of a peer: its normalized address octets, then the
/// port.
pub open spec fn spec_encode_peer(peer: DhtAddr) -> Seq<u8> {
    ip_octets(spec_normalize_ip(peer.ip)) + port_bytes(peer.port)
}

fn push_port(out: &mut Vec<u8>, p: u16)
    ensures
        final(out)@ == old(out)@ + port_bytes(p),
{
    out.push((p / 256) as u8);
    out.push((p % 256) as u8);
    assert(final(out)@ =~= old(out)@ + port_bytes(p));
}

/// The compact form of one peer (see `spec_encode_peer`).
pub fn encode_peer(peer: DhtAddr) -> (r: Vec<u8>)
    ensures
        r@ == spec_encode_peer(peer),
{
    let peer = normalize_dht_addr(peer);
    let mut out: Vec<u8> = Vec::new();
    match peer.ip {
        DhtIp::V4(o) => {
            crate::http::push_all(&mut out, o.as_slice());
        },
        DhtIp::V6(o) => {
            crate::http::push_all(&mut out, o.as_slice());
        },
    }
    push_port(&mut out, peer.port);
    assert(out@ =~= spec_encode_peer(peer));
    out
}

/// The compact peer list of the IPv4 peers among the first fifty, as
/// given.
pub open spec fn spec_encode_peers(peers: Seq<DhtAddr>) -> Seq<u8>
    decreases peers.len(),
{
    if peers.len() == 0 {
        Seq::empty()
    } else if peers.len() > 50 {
        spec_encode_peers(peers.subrange(0, 50))
    } else {
        spec_encode_peers(peers.drop_last()) + match peers.last().ip {
            DhtIp::V4(o) => o@ + port_bytes(peers.last().port),
            DhtIp::V6(_) => Seq::empty(),
        }
    }
}

/// Encodes peers as a compact IPv4 peer list (see `spec_encode_peers`).
pub fn encode_peers(peers: &[DhtAddr]) -> (r: Vec<u8>)
    ensures
        r@ == spec_encode_peers(peers@),
{
    let n = if peers.len() > 50 {
        50
    } else {
        peers.len()
    };
    let mut out: Vec<u8> = Vec::new();
    let mut k: usize = 0;
    while k < n
        invariant
            k <= n <= 50,
            n <= peers@.len(),
            out@ == spec_encode_peers(peers@.subrange(0, k as int)),
        decreases n - k,
    {
        let ghost sub = peers@.subrange(0, k as int + 1);
        assert(sub.drop_last() =~= peers@.subrange(0, k as int));
        match peers[k].ip {
            DhtIp::V4(o) => {
                crate::http::push_all(&mut out, o.as_slice());
                push_port(&mut out, peers[k].port);
            },
            DhtIp::V6(_) => {},
        }
        assert(out@ =~= spec_encode_peers(sub));
        k = k + 1;
    }
    if peers.len() > 50 {
        assert(peers@.subrange(0, 50) =~= peers@.subrange(0, n as int));
    } else {
        assert(peers@.subrange(0, n as int) =~= peers@);
    }
    out
}

// ---------------------------------------------------------------------
// Announce tokens
// ---------------------------------------------------------------------

/// The token of an address: the first four bytes of SHA-1 over the secret
/// and the normalized address octets.
pub open spec fn spec_make_token(secret: Seq<u8>, addr: DhtAddr) -> Seq<u8> {
    crate::sha1::sha1_digest(secret + ip_octets(spec_normalize_ip(addr.ip))).subrange(0, 4)
}

/// The token handed to `addr` (see `spec_make_token`).
pub fn make_token(secret: &[u8; 20], addr: &DhtAddr) -> (r: [u8; 4])
    ensures
        r@ == spec_make_token(secret@, *addr),
{
    let addr = normalize_dht_addr(*addr);
    let mut data: Vec<u8> = Vec::new();
    crate::http::push_all(&mut data, secret.as_slice());
    match addr.ip {
        DhtIp::V4(o) => crate::http::push_all(&mut data, o.as_slice()),
        DhtIp::V6(o) => crate::http::push_all(&mut data, o.as_slice()),
    }
    assert(data@ =~= secret@ + ip_octets(addr.ip));
    let hash = crate::sha1::sha1(data.as_slice());
    let r = [hash[0], hash[1], hash[2], hash[3]];
    assert(r@ =~= hash@.subrange(0, 4));
    r
}

/// Whether `token` is exactly the token of `addr`.
pub fn verify_token(secret: &[u8; 20], addr: &DhtAddr, token: &[u8]) -> (r: bool)
    ensures
        r == (token@ == spec_make_token(secret@, *addr)),
{
    let t = make_token(secret, addr);
    if token.len() != 4 {
        return false;
    }
    let eq = t[0] == token[0] && t[1] == token[1] && t[2] == token[2] && t[3] == token[3];
    if eq {
        assert(token@ =~= t@);
    } else {
        assert(token@ != t@) by {
            if token@ == t@ {
                assert(token@[0] == t@[0] && token@[1] == t@[1] && token@[2] == t@[2] && token@[3] == t@[3]);
            }
        }
    }
    eq
}


// ---------------------------------------------------------------------
// The routing table
// ---------------------------------------------------------------------

/// Most nodes kept from one IP address.
pub const MAX_NODES_PER_IP: usize = 2;

/// Most nodes kept from one network (a /24 or a /64).
pub const MAX_NODES_PER_PREFIX: usize = 4;

/// Failed queries after which a node is dropped.
pub const MAX_NODE_FAILURES: u8 = 2;

/// A node of the routing table, with when it was last heard from (in
/// milliseconds of a monotonic clock).
#[derive(Clone, Copy, Debug)]
pub struct TableNode {
    pub id: [u8; 20],
    pub addr: DhtAddr,
    pub last_seen: u64,
}

/// The nodes the DHT knows, kept apart by id, endpoint, address and
/// network, at most `K` per bucket.
pub struct RoutingTable {
    own_id: [u8; 20],
    nodes: Vec<TableNode>,
    refreshed_at: Vec<u64>,
    refresh_attempted_at: Vec<u64>,
    failures: Vec<(DhtAddr, u8)>,
}

/// The table as a value: own id, nodes, when each bucket last saw a node,
/// and the failure counts of endpoints.
pub type TableModel = (Seq<u8>, Seq<TableNode>, Seq<u64>, Seq<(DhtAddr, u8)>);

/// The nodes of `s` that satisfy `f`.
pub open spec fn count_where(s: Seq<TableNode>, f: spec_fn(TableNode) -> bool) -> nat
    decreases s.len(),
{
    if s.len() == 0 {
        0
    } else {
        count_where(s.drop_last(), f) + if f(s.last()) {
            1nat
        } else {
            0nat
        }
    }
}

pub open spec fn same_ip_fn(ip: DhtIp) -> spec_fn(TableNode) -> bool {
    |n: TableNode| spec_normalize_ip(n.addr.ip) == spec_normalize_ip(ip)
}

pub open spec fn same_prefix_fn(a: DhtAddr) -> spec_fn(TableNode) -> bool {
    |n: TableNode| spec_same_network_prefix(n.addr, a)
}

pub open spec fn same_bucket_fn(own: Seq<u8>, idx: int) -> spec_fn(TableNode) -> bool {
    |n: TableNode| spec_bucket_index(own, n.id@) == idx
}

/// The address `0.0.0.0` or `::`.
pub open spec fn is_unspecified(ip: DhtIp) -> bool {
    match ip {
        DhtIp::V4(o) => o@ == seq![0u8, 0, 0, 0],
        DhtIp::V6(o) => forall|i: int| 0 <= i < 16 ==> o@[i] == 0,
    }
}

/// The first node at `i` or later with id `id`.
pub open spec fn find_id(s: Seq<TableNode>, id: Seq<u8>, i: int) -> Option<int>
    decreases s.len() - i,
{
    if i < 0 || i >= s.len() {
        None
    } else if s[i].id@ == id {
        Some(i)
    } else {
        find_id(s, id, i + 1)
    }
}

/// Whether some node has endpoint `a`.
pub open spec fn has_endpoint(s: Seq<TableNode>, a: DhtAddr) -> bool {
    exists|i: int| 0 <= i < s.len() && s[i].addr == a
}

/// The failure counts without the entry of `a`.
pub open spec fn remove_failure(f: Seq<(DhtAddr, u8)>, a: DhtAddr) -> Seq<(DhtAddr, u8)>
    decreases f.len(),
{
    if f.len() == 0 {
        f
    } else if f.last().0 == a {
        remove_failure(f.drop_last(), a)
    } else {
        remove_failure(f.drop_last(), a).push(f.last())
    }
}

/// Adding a node (see `RoutingTable::insert`): a node with our own id,
/// port zero or an unspecified address is ignored; a known id is
/// refreshed if it comes from the same endpoint and ignored otherwise; a
/// new node is kept when its endpoint is new, its address and network are
/// under their limits and its bucket has room.
pub open spec fn spec_table_insert(t: TableModel, node: TableNode) -> TableModel {
    let (own, nodes, refreshed, failures) = t;
    let n = TableNode { id: node.id, addr: DhtAddr { ip: spec_normalize_ip(node.addr.ip), port: node.addr.port }, last_seen: node.last_seen };
    let idx = spec_bucket_index(own, n.id@);
    if n.id@ == own || n.addr.port == 0 || is_unspecified(n.addr.ip) {
        t
    } else {
        match find_id(nodes, n.id@, 0) {
            Some(p) => if nodes[p].addr != n.addr {
                t
            } else {
                (
                    own,
                    nodes.update(p, TableNode { id: nodes[p].id, addr: nodes[p].addr, last_seen: n.last_seen }),
                    refreshed.update(idx, n.last_seen),
                    remove_failure(failures, n.addr),
                )
            },
            None => if has_endpoint(nodes, n.addr) || count_where(nodes, same_ip_fn(n.addr.ip)) >= MAX_NODES_PER_IP
                || count_where(nodes, same_prefix_fn(n.addr)) >= MAX_NODES_PER_PREFIX || count_where(
                nodes,
                same_bucket_fn(own, idx),
            ) >= K {
                t
            } else {
                (own, nodes.push(n), refreshed.update(idx, n.last_seen), remove_failure(failures, n.addr))
            },
        }
    }
}

/// What every table keeps: its own id's length, a refresh time per
/// bucket, distinct ids and endpoints, no node with our id, and the limits
/// per address, network and bucket.
pub open spec fn table_wf(t: TableModel) -> bool {
    let (own, nodes, refreshed, failures) = t;
    &&& own.len() == 20
    &&& refreshed.len() == NUM_BUCKETS
    &&& forall|i: int, j: int| 0 <= i < j < nodes.len() ==> nodes[i].id@ != nodes[j].id@
    &&& forall|i: int, j: int| 0 <= i < j < nodes.len() ==> nodes[i].addr != nodes[j].addr
    &&& forall|i: int| 0 <= i < nodes.len() ==> count_where(nodes, same_ip_fn(#[trigger] nodes[i].addr.ip)) <= MAX_NODES_PER_IP
    &&& forall|i: int| 0 <= i < nodes.len() ==> count_where(nodes, same_prefix_fn(#[trigger] nodes[i].addr)) <= MAX_NODES_PER_PREFIX
    &&& forall|b: int| 0 <= b < NUM_BUCKETS ==> count_where(nodes, #[trigger] same_bucket_fn(own, b)) <= K
}

proof fn lemma_count_push(s: Seq<TableNode>, x: TableNode, f: spec_fn(TableNode) -> bool)
    ensures
        count_where(s.push(x), f) == count_where(s, f) + if f(x) {
            1nat
        } else {
            0nat
        },
{
    assert(s.push(x).drop_last() =~= s);
}

proof fn lemma_count_update(s: Seq<TableNode>, p: int, y: TableNode, f: spec_fn(TableNode) -> bool)
    requires
        0 <= p < s.len(),
        f(s[p]) == f(y),
    ensures
        count_where(s.update(p, y), f) == count_where(s, f),
    decreases s.len(),
{
    if p < s.len() - 1 {
        assert(s.update(p, y).drop_last() =~= s.drop_last().update(p, y));
        lemma_count_update(s.drop_last(), p, y, f);
    } else {
        assert(s.update(p, y).drop_last() =~= s.drop_last());
    }
}

proof fn lemma_count_same(s: Seq<TableNode>, f: spec_fn(TableNode) -> bool, g: spec_fn(TableNode) -> bool)
    requires
        forall|i: int| 0 <= i < s.len() ==> f(s[i]) == g(s[i]),
    ensures
        count_where(s, f) == count_where(s, g),
    decreases s.len(),
{
    if s.len() > 0 {
        lemma_count_same(s.drop_last(), f, g);
    }
}

pub(crate) fn ip_eq(a: DhtIp, b: DhtIp) -> (r: bool)
    ensures
        r == (a == b),
{
    match (a, b) {
        (DhtIp::V4(x), DhtIp::V4(y)) => {
            let r = prefix_equal(x.as_slice(), y.as_slice(), 4);
            assert(x@.subrange(0, 4) =~= x@);
            assert(y@.subrange(0, 4) =~= y@);
            if r {
                assert(x =~= y);
            }
            r
        },
        (DhtIp::V6(x), DhtIp::V6(y)) => {
            let r = prefix_equal(x.as_slice(), y.as_slice(), 16);
            assert(x@.subrange(0, 16) =~= x@);
            assert(y@.subrange(0, 16) =~= y@);
            if r {
                assert(x =~= y);
            }
            r
        },
        _ => false,
    }
}

pub(crate) fn addr_eq(a: DhtAddr, b: DhtAddr) -> (r: bool)
    ensures
        r == (a == b),
{
    a.port == b.port && ip_eq(a.ip, b.ip)
}

pub(crate) fn id_eq(a: &[u8; 20], b: &[u8; 20]) -> (r: bool)
    ensures
        r == (a@ == b@),
{
    let r = prefix_equal(a.as_slice(), b.as_slice(), 20);
    assert(a@.subrange(0, 20) =~= a@);
    assert(b@.subrange(0, 20) =~= b@);
    r
}

fn all_zero16(o: &[u8; 16]) -> (r: bool)
    ensures
        r == (forall|i: int| 0 <= i < 16 ==> o@[i] == 0),
{
    let mut i: usize = 0;
    while i < 16
        invariant
            i <= 16,
            o@.len() == 16,
            forall|j: int| 0 <= j < i ==> o@[j] == 0,
        decreases 16 - i,
    {
        if o[i] != 0 {
            return false;
        }
        i = i + 1;
    }
    true
}

pub(crate) fn unspecified_exec(ip: DhtIp) -> (r: bool)
    ensures
        r == is_unspecified(ip),
{
    match ip {
        DhtIp::V4(o) => {
            let r = o[0] == 0 && o[1] == 0 && o[2] == 0 && o[3] == 0;
            assert(r <==> o@ =~= seq![0u8, 0, 0, 0]);
            r
        },
        DhtIp::V6(o) => all_zero16(&o),
    }
}

impl RoutingTable {
    /// The table as a value.
    pub closed spec fn model(&self) -> TableModel {
        (self.own_id@, self.nodes@, self.refreshed_at@, self.failures@)
    }

    /// Our own node id.
    pub fn own_id(&self) -> (r: [u8; 20])
        ensures
            r@ == self.model().0,
    {
        self.own_id
    }

    /// How many nodes sit in bucket `idx`.
    pub fn bucket_len(&self, idx: usize) -> (r: usize)
        ensures
            r == count_where(self.model().1, same_bucket_fn(self.model().0, idx as int)),
    {
        self.count_in_bucket(idx)
    }

    /// When a refresh of each bucket was last tried.
    pub closed spec fn attempted(&self) -> Seq<u64> {
        self.refresh_attempted_at@
    }

    /// Whether the table keeps its invariant (see `table_wf`), with a
    /// refresh attempt time per bucket.
    pub closed spec fn wf(&self) -> bool {
        table_wf(self.model()) && self.refresh_attempted_at@.len() == NUM_BUCKETS
    }

    /// An empty table for our id, every bucket refreshed at `now`.
    pub fn new(own_id: [u8; 20], now: u64) -> (r: Self)
        ensures
            r.wf(),
            r.model() == (own_id@, Seq::<TableNode>::empty(), Seq::new(NUM_BUCKETS as nat, |i: int| now), Seq::<(DhtAddr, u8)>::empty()),
            r.attempted() == Seq::new(NUM_BUCKETS as nat, |i: int| now),
    {
        let mut refreshed_at: Vec<u64> = Vec::new();
        let mut i: usize = 0;
        while i < NUM_BUCKETS
            invariant
                i <= NUM_BUCKETS,
                refreshed_at@ == Seq::new(i as nat, |j: int| now),
            decreases NUM_BUCKETS - i,
        {
            refreshed_at.push(now);
            assert(refreshed_at@ =~= Seq::new((i + 1) as nat, |j: int| now));
            i = i + 1;
        }
        let refresh_attempted_at = refreshed_at.clone();
        assert(refresh_attempted_at@ == refreshed_at@);
        let t = RoutingTable { own_id, nodes: Vec::new(), refreshed_at, refresh_attempted_at, failures: Vec::new() };
        assert forall|b: int| 0 <= b < NUM_BUCKETS implies count_where(t.nodes@, #[trigger] same_bucket_fn(t.own_id@, b)) <= K by {}
        t
    }

    /// The number of nodes.
    pub fn node_count(&self) -> (r: usize)
        ensures
            r == self.model().1.len(),
    {
        self.nodes.len()
    }

    /// The nodes, in the table's order.
    pub fn all_nodes(&self) -> (r: Vec<TableNode>)
        ensures
            r@ == self.model().1,
    {
        let mut out: Vec<TableNode> = Vec::new();
        let mut i: usize = 0;
        while i < self.nodes.len()
            invariant
                i <= self.nodes@.len(),
                out@ == self.nodes@.subrange(0, i as int),
            decreases self.nodes@.len() - i,
        {
            out.push(self.nodes[i]);
            assert(out@ =~= self.nodes@.subrange(0, i as int + 1));
            i = i + 1;
        }
        assert(self.nodes@.subrange(0, i as int) =~= self.nodes@);
        out
    }

    /// Whether some node has endpoint `addr` (as given).
    pub fn contains_endpoint(&self, addr: DhtAddr) -> (r: bool)
        ensures
            r == has_endpoint(self.model().1, addr),
    {
        let mut i: usize = 0;
        while i < self.nodes.len()
            invariant
                i <= self.nodes@.len(),
                forall|j: int| 0 <= j < i ==> self.nodes@[j].addr != addr,
            decreases self.nodes@.len() - i,
        {
            if addr_eq(self.nodes[i].addr, addr) {
                return true;
            }
            i = i + 1;
        }
        false
    }

    fn count_matching_ip(&self, ip: DhtIp) -> (r: usize)
        ensures
            r == count_where(self.nodes@, same_ip_fn(ip)),
    {
        let target = normalize_dht_ip(ip);
        let mut c: usize = 0;
        let mut i: usize = 0;
        while i < self.nodes.len()
            invariant
                i <= self.nodes@.len(),
                target == spec_normalize_ip(ip),
                c == count_where(self.nodes@.subrange(0, i as int), same_ip_fn(ip)),
                c <= i,
            decreases self.nodes@.len() - i,
        {
            let ghost sub = self.nodes@.subrange(0, i as int + 1);
            assert(sub.drop_last() =~= self.nodes@.subrange(0, i as int));
            if ip_eq(normalize_dht_ip(self.nodes[i].addr.ip), target) {
                c = c + 1;
            }
            i = i + 1;
        }
        assert(self.nodes@.subrange(0, i as int) =~= self.nodes@);
        c
    }

    fn count_matching_prefix(&self, a: DhtAddr) -> (r: usize)
        ensures
            r == count_where(self.nodes@, same_prefix_fn(a)),
    {
        let mut c: usize = 0;
        let mut i: usize = 0;
        while i < self.nodes.len()
            invariant
                i <= self.nodes@.len(),
                c == count_where(self.nodes@.subrange(0, i as int), same_prefix_fn(a)),
                c <= i,
            decreases self.nodes@.len() - i,
        {
            let ghost sub = self.nodes@.subrange(0, i as int + 1);
            assert(sub.drop_last() =~= self.nodes@.subrange(0, i as int));
            if same_network_prefix(self.nodes[i].addr, a) {
                c = c + 1;
            }
            i = i + 1;
        }
        assert(self.nodes@.subrange(0, i as int) =~= self.nodes@);
        c
    }

    fn count_in_bucket(&self, idx: usize) -> (r: usize)
        ensures
            r == count_where(self.nodes@, same_bucket_fn(self.own_id@, idx as int)),
    {
        let mut c: usize = 0;
        let mut i: usize = 0;
        while i < self.nodes.len()
            invariant
                i <= self.nodes@.len(),
                c == count_where(self.nodes@.subrange(0, i as int), same_bucket_fn(self.own_id@, idx as int)),
                c <= i,
            decreases self.nodes@.len() - i,
        {
            let ghost sub = self.nodes@.subrange(0, i as int + 1);
            assert(sub.drop_last() =~= self.nodes@.subrange(0, i as int));
            if bucket_index(&self.own_id, &self.nodes[i].id) == idx {
                c = c + 1;
            }
            i = i + 1;
        }
        assert(self.nodes@.subrange(0, i as int) =~= self.nodes@);
        c
    }

    fn find_node(&self, id: &[u8; 20]) -> (r: Option<usize>)
        ensures
            r matches Some(p) ==> find_id(self.nodes@, id@, 0) == Some(p as int) && p < self.nodes@.len(),
            r is None ==> find_id(self.nodes@, id@, 0) is None,
    {
        let mut i: usize = 0;
        while i < self.nodes.len()
            invariant
                i <= self.nodes@.len(),
                find_id(self.nodes@, id@, 0) == find_id(self.nodes@, id@, i as int),
            decreases self.nodes@.len() - i,
        {
            if id_eq(&self.nodes[i].id, id) {
                return Some(i);
            }
            i = i + 1;
        }
        None
    }

    fn drop_failures(&mut self, a: DhtAddr)
        ensures
            final(self).failures@ == remove_failure(old(self).failures@, a),
            final(self).nodes@ == old(self).nodes@,
            final(self).own_id == old(self).own_id,
            final(self).refreshed_at@ == old(self).refreshed_at@,
            final(self).refresh_attempted_at@ == old(self).refresh_attempted_at@,
    {
        let mut kept: Vec<(DhtAddr, u8)> = Vec::new();
        let mut i: usize = 0;
        while i < self.failures.len()
            invariant
                i <= self.failures@.len(),
                kept@ == remove_failure(self.failures@.subrange(0, i as int), a),
            decreases self.failures@.len() - i,
        {
            let ghost sub = self.failures@.subrange(0, i as int + 1);
            assert(sub.drop_last() =~= self.failures@.subrange(0, i as int));
            let e = self.failures[i];
            if !addr_eq(e.0, a) {
                kept.push(e);
            }
            i = i + 1;
        }
        assert(self.failures@.subrange(0, i as int) =~= self.failures@);
        self.failures = kept;
    }
}

proof fn lemma_find_id_none(s: Seq<TableNode>, id: Seq<u8>, i: int)
    requires
        0 <= i,
        find_id(s, id, i) is None,
    ensures
        forall|j: int| i <= j < s.len() ==> s[j].id@ != id,
    decreases s.len() - i,
{
    if i < s.len() {
        lemma_find_id_none(s, id, i + 1);
    }
}

proof fn lemma_find_id_some(s: Seq<TableNode>, id: Seq<u8>, i: int)
    requires
        0 <= i,
    ensures
        find_id(s, id, i) matches Some(p) ==> i <= p < s.len() && s[p].id@ == id,
    decreases s.len() - i,
{
    if i < s.len() && s[i].id@ != id {
        lemma_find_id_some(s, id, i + 1);
    }
}

pub proof fn lemma_prefix_equiv(x: DhtAddr, m: DhtAddr, n: DhtAddr)
    requires
        spec_same_network_prefix(n, m),
    ensures
        spec_same_network_prefix(x, m) == spec_same_network_prefix(x, n),
{
}

/// Adding a node that passed every check keeps the table's invariant.
proof fn lemma_push_wf(t: TableModel, n: TableNode)
    requires
        table_wf(t),
        find_id(t.1, n.id@, 0) is None,
        !has_endpoint(t.1, n.addr),
        count_where(t.1, same_ip_fn(n.addr.ip)) < MAX_NODES_PER_IP,
        count_where(t.1, same_prefix_fn(n.addr)) < MAX_NODES_PER_PREFIX,
        count_where(t.1, same_bucket_fn(t.0, spec_bucket_index(t.0, n.id@))) < K,
    ensures
        forall|r: Seq<u64>, f: Seq<(DhtAddr, u8)>| r.len() == NUM_BUCKETS ==> table_wf((t.0, t.1.push(n), r, f)),
{
    let (own, nodes, refreshed, failures) = t;
    let s = nodes.push(n);
    lemma_find_id_none(nodes, n.id@, 0);
    assert forall|i: int, j: int| 0 <= i < j < s.len() implies s[i].id@ != s[j].id@ by {
        if j == nodes.len() {
            assert(nodes[i].id@ != n.id@);
        }
    }
    assert forall|i: int, j: int| 0 <= i < j < s.len() implies s[i].addr != s[j].addr by {
        if j == nodes.len() {
            assert(nodes[i].addr != n.addr);
        }
    }
    assert forall|i: int| 0 <= i < s.len() implies count_where(s, same_ip_fn(#[trigger] s[i].addr.ip)) <= MAX_NODES_PER_IP by {
        let f = same_ip_fn(s[i].addr.ip);
        lemma_count_push(nodes, n, f);
        if f(n) {
            lemma_count_same(nodes, f, same_ip_fn(n.addr.ip));
        }
        if i < nodes.len() {
            assert(s[i] == nodes[i]);
        }
    }
    assert forall|i: int| 0 <= i < s.len() implies count_where(s, same_prefix_fn(#[trigger] s[i].addr)) <= MAX_NODES_PER_PREFIX by {
        let f = same_prefix_fn(s[i].addr);
        lemma_count_push(nodes, n, f);
        if f(n) {
            assert forall|k: int| 0 <= k < nodes.len() implies f(nodes[k]) == same_prefix_fn(n.addr)(nodes[k]) by {
                lemma_prefix_equiv(nodes[k].addr, s[i].addr, n.addr);
            }
            lemma_count_same(nodes, f, same_prefix_fn(n.addr));
        }
        if i < nodes.len() {
            assert(s[i] == nodes[i]);
        }
    }
    assert forall|b: int| 0 <= b < NUM_BUCKETS implies count_where(s, #[trigger] same_bucket_fn(own, b)) <= K by {
        lemma_count_push(nodes, n, same_bucket_fn(own, b));
    }
}

/// Refreshing a node's time keeps the table's invariant.
proof fn lemma_update_wf(t: TableModel, p: int, last_seen: u64)
    requires
        table_wf(t),
        0 <= p < t.1.len(),
    ensures
        forall|r: Seq<u64>, f: Seq<(DhtAddr, u8)>| r.len() == NUM_BUCKETS ==> table_wf(
            (t.0, t.1.update(p, TableNode { id: t.1[p].id, addr: t.1[p].addr, last_seen }), r, f),
        ),
{
    let (own, nodes, refreshed, failures) = t;
    let y = TableNode { id: nodes[p].id, addr: nodes[p].addr, last_seen };
    let s = nodes.update(p, y);
    assert forall|i: int| 0 <= i < s.len() implies count_where(s, same_ip_fn(#[trigger] s[i].addr.ip)) <= MAX_NODES_PER_IP by {
        lemma_count_update(nodes, p, y, same_ip_fn(s[i].addr.ip));
        assert(s[i].addr == nodes[i].addr);
    }
    assert forall|i: int| 0 <= i < s.len() implies count_where(s, same_prefix_fn(#[trigger] s[i].addr)) <= MAX_NODES_PER_PREFIX by {
        lemma_count_update(nodes, p, y, same_prefix_fn(s[i].addr));
        assert(s[i].addr == nodes[i].addr);
    }
    assert forall|b: int| 0 <= b < NUM_BUCKETS implies count_where(s, #[trigger] same_bucket_fn(own, b)) <= K by {
        lemma_count_update(nodes, p, y, same_bucket_fn(own, b));
    }
    assert forall|i: int, j: int| 0 <= i < j < s.len() implies s[i].id@ != s[j].id@ by {
        assert(s[i].id == nodes[i].id && s[j].id == nodes[j].id);
    }
    assert forall|i: int, j: int| 0 <= i < j < s.len() implies s[i].addr != s[j].addr by {
        assert(s[i].addr == nodes[i].addr && s[j].addr == nodes[j].addr);
    }
}

impl RoutingTable {
    /// Adds or refreshes a node (see `spec_table_insert`), keeping the
    /// table's invariant.
    pub fn insert(&mut self, node: TableNode)
        requires
            old(self).wf(),
        ensures
            final(self).attempted() == old(self).attempted(),
            final(self).wf(),
            final(self).model() == spec_table_insert(old(self).model(), node),
    {
        let n = TableNode { id: node.id, addr: normalize_dht_addr(node.addr), last_seen: node.last_seen };
        if id_eq(&n.id, &self.own_id) || n.addr.port == 0 || unspecified_exec(n.addr.ip) {
            return;
        }
        let idx = bucket_index(&self.own_id, &n.id);
        let ghost t = self.model();
        match self.find_node(&n.id) {
            Some(p) => {
                proof {
                    lemma_find_id_some(self.nodes@, n.id@, 0);
                }
                if !addr_eq(self.nodes[p].addr, n.addr) {
                    return;
                }
                let old_node = self.nodes[p];
                proof {
                    lemma_update_wf(t, p as int, n.last_seen);
                }
                self.nodes.set(p, TableNode { id: old_node.id, addr: old_node.addr, last_seen: n.last_seen });
                self.refreshed_at.set(idx, n.last_seen);
                self.drop_failures(n.addr);
            },
            None => {
                if self.contains_endpoint(n.addr) {
                    return;
                }
                if self.count_matching_ip(n.addr.ip) >= MAX_NODES_PER_IP {
                    return;
                }
                if self.count_matching_prefix(n.addr) >= MAX_NODES_PER_PREFIX {
                    return;
                }
                if self.count_in_bucket(idx) >= K {
                    return;
                }
                proof {
                    lemma_push_wf(t, n);
                }
                self.drop_failures(n.addr);
                self.nodes.push(n);
                self.refreshed_at.set(idx, n.last_seen);
            },
        }
    }

    /// Adds a node only if its id is valid for its address (BEP 42);
    /// whether the table grew.
    pub fn insert_verified(&mut self, node: TableNode) -> (r: bool)
        requires
            old(self).wf(),
        ensures
            final(self).attempted() == old(self).attempted(),
            final(self).wf(),
            !spec_node_id_matches(node.id@, node.addr) ==> final(self).model() == old(self).model() && !r,
            spec_node_id_matches(node.id@, node.addr) ==> final(self).model() == spec_table_insert(
                old(self).model(),
                node,
            ) && r == (final(self).model().1.len() > old(self).model().1.len()),
    {
        if !node_id_matches_address(&node.id, node.addr) {
            return false;
        }
        let before = self.node_count();
        self.insert(node);
        self.node_count() > before
    }
}


// ---------------------------------------------------------------------
// Closest nodes
// ---------------------------------------------------------------------

/// The XOR distance of a node's id to a target.
pub open spec fn node_distance(n: TableNode, target: Seq<u8>) -> Seq<u8> {
    Seq::new(20, |i: int| n.id@[i] ^ target[i])
}

/// Lexicographic `<=` on byte strings, as arrays compare.
pub open spec fn lex_le(a: Seq<u8>, b: Seq<u8>) -> bool
    decreases a.len(),
{
    if a.len() == 0 || b.len() == 0 {
        a.len() <= b.len()
    } else if a[0] != b[0] {
        a[0] < b[0]
    } else {
        lex_le(a.drop_first(), b.drop_first())
    }
}

/// The first position of `best` from `k` on whose distance is not `<= d`.
pub open spec fn insert_pos(best: Seq<TableNode>, d: Seq<u8>, target: Seq<u8>, k: int) -> int
    decreases best.len() - k,
{
    if k < 0 || k >= best.len() {
        best.len() as int
    } else if !lex_le(node_distance(best[k], target), d) {
        k
    } else {
        insert_pos(best, d, target, k + 1)
    }
}

/// One node offered to the nearest `count` so far: placed after every
/// node at most as far, and the farthest dropped past `count`.
pub open spec fn best_step(best: Seq<TableNode>, n: TableNode, target: Seq<u8>, count: int) -> Seq<TableNode> {
    let p = insert_pos(best, node_distance(n, target), target, 0);
    if p < count {
        let b = best.insert(p, n);
        if b.len() > count {
            b.drop_last()
        } else {
            b
        }
    } else {
        best
    }
}

/// Which nodes a lookup considers.
#[derive(Clone, Copy)]
pub enum NodeFilter {
    /// Every node.
    All,
    /// Nodes of one family that a requester may be told about.
    Scoped { requester: DhtAddr, ipv6: bool },
}

pub open spec fn filter_keeps(f: NodeFilter, n: TableNode) -> bool {
    match f {
        NodeFilter::All => true,
        NodeFilter::Scoped { requester, ipv6 } => (n.addr.ip is V6) == ipv6 && spec_scope_allowed(requester, n.addr),
    }
}

/// The nearest `count` nodes to `target` among those the filter keeps,
/// nearest first.
pub open spec fn spec_closest(nodes: Seq<TableNode>, target: Seq<u8>, count: int, f: NodeFilter) -> Seq<TableNode>
    decreases nodes.len(),
{
    if nodes.len() == 0 {
        Seq::empty()
    } else {
        let prev = spec_closest(nodes.drop_last(), target, count, f);
        if filter_keeps(f, nodes.last()) {
            best_step(prev, nodes.last(), target, count)
        } else {
            prev
        }
    }
}

fn lex_le_exec(a: &[u8; 20], b: &[u8; 20]) -> (r: bool)
    ensures
        r == lex_le(a@, b@),
{
    let mut i: usize = 0;
    assert(a@.subrange(0, 20) =~= a@);
    assert(b@.subrange(0, 20) =~= b@);
    while i < 20
        invariant
            i <= 20,
            a@.len() == 20,
            b@.len() == 20,
            lex_le(a@, b@) == lex_le(a@.subrange(i as int, 20), b@.subrange(i as int, 20)),
        decreases 20 - i,
    {
        let ghost sa = a@.subrange(i as int, 20);
        let ghost sb = b@.subrange(i as int, 20);
        assert(sa.drop_first() =~= a@.subrange(i + 1, 20));
        assert(sb.drop_first() =~= b@.subrange(i + 1, 20));
        assert(sa[0] == a@[i as int] && sb[0] == b@[i as int]);
        if a[i] != b[i] {
            return a[i] < b[i];
        }
        i = i + 1;
    }
    true
}

fn distance_of(n: &TableNode, target: &[u8; 20]) -> (r: [u8; 20])
    ensures
        r@ == node_distance(*n, target@),
{
    let d = xor_distance(&n.id, target);
    assert(d@ =~= node_distance(*n, target@));
    d
}

fn keeps_exec(f: NodeFilter, n: &TableNode) -> (r: bool)
    ensures
        r == filter_keeps(f, *n),
{
    match f {
        NodeFilter::All => true,
        NodeFilter::Scoped { requester, ipv6 } => {
            let is6 = match n.addr.ip {
                DhtIp::V6(_) => true,
                DhtIp::V4(_) => false,
            };
            is6 == ipv6 && dht_address_scope_allowed(requester, n.addr)
        },
    }
}

fn offer(best: &mut Vec<TableNode>, n: TableNode, target: &[u8; 20], count: usize)
    requires
        old(best)@.len() <= count,
    ensures
        final(best)@ == best_step(old(best)@, n, target@, count as int),
        final(best)@.len() <= count,
{
    let d = distance_of(&n, target);
    let mut p: usize = 0;
    while p < best.len()
        invariant
            p <= best@.len(),
            best@ == old(best)@,
            insert_pos(best@, d@, target@, 0) == insert_pos(best@, d@, target@, p as int),
        ensures
            p <= best@.len(),
            best@ == old(best)@,
            insert_pos(best@, d@, target@, 0) == p as int,
        decreases best@.len() - p,
    {
        let e = distance_of(&best[p], target);
        if !lex_le_exec(&e, &d) {
            break;
        }
        p = p + 1;
    }
    if p < count {
        best.insert(p, n);
        if best.len() > count {
            best.pop();
        }
    }
}

impl RoutingTable {
    /// The nearest `count` nodes to `target` that the filter keeps (see
    /// `spec_closest`).
    pub fn closest_filtered(&self, target: &[u8; 20], count: usize, f: NodeFilter) -> (r: Vec<TableNode>)
        ensures
            r@ == spec_closest(self.model().1, target@, count as int, f),
            r@.len() <= count,
    {
        let mut best: Vec<TableNode> = Vec::new();
        let mut i: usize = 0;
        while i < self.nodes.len()
            invariant
                i <= self.nodes@.len(),
                best@ == spec_closest(self.nodes@.subrange(0, i as int), target@, count as int, f),
                best@.len() <= count,
            decreases self.nodes@.len() - i,
        {
            let ghost sub = self.nodes@.subrange(0, i as int + 1);
            assert(sub.drop_last() =~= self.nodes@.subrange(0, i as int));
            let n = self.nodes[i];
            if keeps_exec(f, &n) {
                offer(&mut best, n, target, count);
            }
            i = i + 1;
        }
        assert(self.nodes@.subrange(0, i as int) =~= self.nodes@);
        best
    }

    /// The nearest `count` nodes to `target`.
    pub fn closest(&self, target: &[u8; 20], count: usize) -> (r: Vec<TableNode>)
        ensures
            r@ == spec_closest(self.model().1, target@, count as int, NodeFilter::All),
    {
        self.closest_filtered(target, count, NodeFilter::All)
    }
}

/// The compact records of the IPv4 nodes among `ns`: id, address, port.
pub open spec fn compact_v4(ns: Seq<TableNode>) -> Seq<u8>
    decreases ns.len(),
{
    if ns.len() == 0 {
        Seq::empty()
    } else {
        compact_v4(ns.drop_last()) + match ns.last().addr.ip {
            DhtIp::V4(o) => ns.last().id@ + o@ + port_bytes(ns.last().addr.port),
            DhtIp::V6(_) => Seq::empty(),
        }
    }
}

/// The compact records of the IPv6 nodes among `ns`.
pub open spec fn compact_v6(ns: Seq<TableNode>) -> Seq<u8>
    decreases ns.len(),
{
    if ns.len() == 0 {
        Seq::empty()
    } else {
        compact_v6(ns.drop_last()) + match ns.last().addr.ip {
            DhtIp::V6(o) => ns.last().id@ + o@ + port_bytes(ns.last().addr.port),
            DhtIp::V4(_) => Seq::empty(),
        }
    }
}

fn encode_compact(ns: &Vec<TableNode>, v6: bool) -> (r: Vec<u8>)
    ensures
        r@ == (if v6 {
            compact_v6(ns@)
        } else {
            compact_v4(ns@)
        }),
{
    let mut out: Vec<u8> = Vec::new();
    let mut k: usize = 0;
    while k < ns.len()
        invariant
            k <= ns@.len(),
            out@ == (if v6 {
                compact_v6(ns@.subrange(0, k as int))
            } else {
                compact_v4(ns@.subrange(0, k as int))
            }),
        decreases ns@.len() - k,
    {
        let ghost sub = ns@.subrange(0, k as int + 1);
        assert(sub.drop_last() =~= ns@.subrange(0, k as int));
        let n = ns[k];
        let ghost before = out@;
        match n.addr.ip {
            DhtIp::V4(o) => {
                if !v6 {
                    crate::http::push_all(&mut out, n.id.as_slice());
                    crate::http::push_all(&mut out, o.as_slice());
                    push_port(&mut out, n.addr.port);
                    assert(out@ =~= before + (n.id@ + o@ + port_bytes(n.addr.port)));
                }
            },
            DhtIp::V6(o) => {
                if v6 {
                    crate::http::push_all(&mut out, n.id.as_slice());
                    crate::http::push_all(&mut out, o.as_slice());
                    push_port(&mut out, n.addr.port);
                    assert(out@ =~= before + (n.id@ + o@ + port_bytes(n.addr.port)));
                }
            },
        }
        proof {
            if v6 {
                assert(out@ =~= compact_v6(sub));
            } else {
                assert(out@ =~= compact_v4(sub));
            }
        }
        k = k + 1;
    }
    assert(ns@.subrange(0, k as int) =~= ns@);
    out
}

impl RoutingTable {
    /// The `nodes` answer for a requester: the eight nearest IPv4 nodes it
    /// may be told about, in compact form.
    pub fn encode_closest_nodes(&self, target: &[u8; 20], requester: DhtAddr) -> (r: Vec<u8>)
        ensures
            r@ == compact_v4(
                spec_closest(self.model().1, target@, 8, NodeFilter::Scoped { requester, ipv6: false }),
            ),
    {
        let closest = self.closest_filtered(target, 8, NodeFilter::Scoped { requester, ipv6: false });
        encode_compact(&closest, false)
    }

    /// The `nodes6` answer: the eight nearest IPv6 nodes, in compact form.
    pub fn encode_closest_nodes6(&self, target: &[u8; 20], requester: DhtAddr) -> (r: Vec<u8>)
        ensures
            r@ == compact_v6(
                spec_closest(self.model().1, target@, 8, NodeFilter::Scoped { requester, ipv6: true }),
            ),
    {
        let closest = self.closest_filtered(target, 8, NodeFilter::Scoped { requester, ipv6: true });
        encode_compact(&closest, true)
    }
}


// ---------------------------------------------------------------------
// Liveness
// ---------------------------------------------------------------------

/// The failures counted against an endpoint.
pub open spec fn failure_of(f: Seq<(DhtAddr, u8)>, a: DhtAddr) -> u8
    decreases f.len(),
{
    if f.len() == 0 {
        0
    } else if f.last().0 == a {
        f.last().1
    } else {
        failure_of(f.drop_last(), a)
    }
}

/// The failure counts with the count of `a` set to `v`.
pub open spec fn set_failure(f: Seq<(DhtAddr, u8)>, a: DhtAddr, v: u8) -> Seq<(DhtAddr, u8)> {
    remove_failure(f, a).push((a, v))
}

/// The nodes without those at endpoint `a`, in order.
pub open spec fn remove_endpoint(s: Seq<TableNode>, a: DhtAddr) -> Seq<TableNode>
    decreases s.len(),
{
    if s.len() == 0 {
        s
    } else if s.last().addr == a {
        remove_endpoint(s.drop_last(), a)
    } else {
        remove_endpoint(s.drop_last(), a).push(s.last())
    }
}

/// A query to `addr` sent at `sent_at` went unanswered: it counts against
/// a node at that endpoint not heard from since, and the second such
/// failure drops the node.
pub open spec fn spec_record_failure(t: TableModel, addr: DhtAddr, sent_at: u64) -> TableModel {
    let (own, nodes, refreshed, failures) = t;
    let a = DhtAddr { ip: spec_normalize_ip(addr.ip), port: addr.port };
    if !(exists|i: int| 0 <= i < nodes.len() && nodes[i].addr == a && nodes[i].last_seen <= sent_at) {
        t
    } else {
        let v = if failure_of(failures, a) == u8::MAX {
            u8::MAX
        } else {
            (failure_of(failures, a) + 1) as u8
        };
        if v >= MAX_NODE_FAILURES {
            (own, remove_endpoint(nodes, a), refreshed, remove_failure(failures, a))
        } else {
            (own, nodes, refreshed, set_failure(failures, a, v))
        }
    }
}

proof fn lemma_remove_endpoint_subset(s: Seq<TableNode>, a: DhtAddr)
    ensures
        forall|k: int| 0 <= k < remove_endpoint(s, a).len() ==> exists|j: int| 0 <= j < s.len() && s[j] == #[trigger] remove_endpoint(s, a)[k],
        forall|f: spec_fn(TableNode) -> bool| #[trigger] count_where(remove_endpoint(s, a), f) <= count_where(s, f),
    decreases s.len(),
{
    if s.len() > 0 {
        let prev = remove_endpoint(s.drop_last(), a);
        lemma_remove_endpoint_subset(s.drop_last(), a);
        let r = remove_endpoint(s, a);
        assert forall|k: int| 0 <= k < r.len() implies exists|j: int| 0 <= j < s.len() && s[j] == #[trigger] r[k] by {
            if s.last().addr != a && k == prev.len() {
                assert(s[s.len() - 1] == r[k]);
            } else {
                assert(r[k] == prev[k]);
                let j = choose|j: int| 0 <= j < s.drop_last().len() && s.drop_last()[j] == prev[k];
                assert(s[j] == r[k]);
            }
        }
        assert forall|f: spec_fn(TableNode) -> bool| #[trigger] count_where(r, f) <= count_where(s, f) by {
            if s.last().addr != a {
                lemma_count_push(prev, s.last(), f);
            }
        }
    }
}

proof fn lemma_remove_endpoint_distinct(s: Seq<TableNode>, a: DhtAddr)
    requires
        forall|i: int, j: int| 0 <= i < j < s.len() ==> s[i].id@ != s[j].id@,
        forall|i: int, j: int| 0 <= i < j < s.len() ==> s[i].addr != s[j].addr,
    ensures
        forall|i: int, j: int| 0 <= i < j < remove_endpoint(s, a).len() ==> remove_endpoint(s, a)[i].id@ != remove_endpoint(s, a)[j].id@,
        forall|i: int, j: int| 0 <= i < j < remove_endpoint(s, a).len() ==> remove_endpoint(s, a)[i].addr != remove_endpoint(s, a)[j].addr,
    decreases s.len(),
{
    if s.len() > 0 {
        let p = s.drop_last();
        lemma_remove_endpoint_distinct(p, a);
        lemma_remove_endpoint_subset(p, a);
        let prev = remove_endpoint(p, a);
        let r = remove_endpoint(s, a);
        if s.last().addr != a {
            assert forall|i: int, j: int| 0 <= i < j < r.len() implies r[i].id@ != r[j].id@ && r[i].addr != r[j].addr by {
                if j == prev.len() {
                    let k = choose|k: int| 0 <= k < p.len() && p[k] == #[trigger] prev[i];
                    assert(s[k] == r[i]);
                    assert(s[s.len() - 1] == r[j]);
                } else {
                    assert(r[i] == prev[i] && r[j] == prev[j]);
                }
            }
        }
    }
}

proof fn lemma_remove_wf(t: TableModel, a: DhtAddr)
    requires
        table_wf(t),
    ensures
        forall|f: Seq<(DhtAddr, u8)>| table_wf((t.0, remove_endpoint(t.1, a), t.2, f)),
{
    let (own, nodes, refreshed, failures) = t;
    let r = remove_endpoint(nodes, a);
    lemma_remove_endpoint_distinct(nodes, a);
    lemma_remove_endpoint_subset(nodes, a);
    assert forall|i: int| 0 <= i < r.len() implies count_where(r, same_ip_fn(#[trigger] r[i].addr.ip)) <= MAX_NODES_PER_IP by {
        let j = choose|j: int| 0 <= j < nodes.len() && nodes[j] == #[trigger] r[i];
        assert(count_where(r, same_ip_fn(r[i].addr.ip)) <= count_where(nodes, same_ip_fn(r[i].addr.ip)));
        assert(count_where(nodes, same_ip_fn(nodes[j].addr.ip)) <= MAX_NODES_PER_IP);
    }
    assert forall|i: int| 0 <= i < r.len() implies count_where(r, same_prefix_fn(#[trigger] r[i].addr)) <= MAX_NODES_PER_PREFIX by {
        let j = choose|j: int| 0 <= j < nodes.len() && nodes[j] == #[trigger] r[i];
        assert(count_where(r, same_prefix_fn(r[i].addr)) <= count_where(nodes, same_prefix_fn(r[i].addr)));
        assert(count_where(nodes, same_prefix_fn(nodes[j].addr)) <= MAX_NODES_PER_PREFIX);
    }
    assert forall|b: int| 0 <= b < NUM_BUCKETS implies count_where(r, #[trigger] same_bucket_fn(own, b)) <= K by {
        assert(count_where(r, same_bucket_fn(own, b)) <= count_where(nodes, same_bucket_fn(own, b)));
    }
}

impl RoutingTable {
    fn failure_count(&self, a: DhtAddr) -> (r: u8)
        ensures
            r == failure_of(self.failures@, a),
    {
        let mut k = self.failures.len();
        assert(self.failures@.subrange(0, k as int) =~= self.failures@);
        while k > 0
            invariant
                k <= self.failures@.len(),
                failure_of(self.failures@, a) == failure_of(self.failures@.subrange(0, k as int), a),
            decreases k,
        {
            let ghost sub = self.failures@.subrange(0, k as int);
            assert(sub.drop_last() =~= self.failures@.subrange(0, k - 1));
            if addr_eq(self.failures[k - 1].0, a) {
                return self.failures[k - 1].1;
            }
            k = k - 1;
        }
        0
    }

    /// Counts an unanswered query (see `spec_record_failure`).
    pub fn record_query_failure(&mut self, addr: DhtAddr, sent_at: u64)
        requires
            old(self).wf(),
        ensures
            final(self).attempted() == old(self).attempted(),
            final(self).wf(),
            final(self).model() == spec_record_failure(old(self).model(), addr, sent_at),
    {
        let a = normalize_dht_addr(addr);
        let mut eligible = false;
        let mut i: usize = 0;
        while i < self.nodes.len()
            invariant
                i <= self.nodes@.len(),
                eligible == exists|j: int| 0 <= j < i && self.nodes@[j].addr == a && self.nodes@[j].last_seen <= sent_at,
            decreases self.nodes@.len() - i,
        {
            if addr_eq(self.nodes[i].addr, a) && self.nodes[i].last_seen <= sent_at {
                eligible = true;
            }
            i = i + 1;
        }
        if !eligible {
            return;
        }
        let c = self.failure_count(a);
        let v = c.saturating_add(1);
        if v >= MAX_NODE_FAILURES {
            let ghost t = self.model();
            proof {
                lemma_remove_wf(t, a);
            }
            let mut kept: Vec<TableNode> = Vec::new();
            let mut j: usize = 0;
            while j < self.nodes.len()
                invariant
                    j <= self.nodes@.len(),
                    kept@ == remove_endpoint(self.nodes@.subrange(0, j as int), a),
                decreases self.nodes@.len() - j,
            {
                let ghost sub = self.nodes@.subrange(0, j as int + 1);
                assert(sub.drop_last() =~= self.nodes@.subrange(0, j as int));
                if !addr_eq(self.nodes[j].addr, a) {
                    kept.push(self.nodes[j]);
                }
                j = j + 1;
            }
            assert(self.nodes@.subrange(0, j as int) =~= self.nodes@);
            self.nodes = kept;
            self.drop_failures(a);
        } else {
            self.drop_failures(a);
            self.failures.push((a, v));
        }
    }

    /// A node answered: if the table holds `id` at `addr`, it is marked
    /// heard from at `now` and its failures are forgotten (see
    /// `spec_refresh`).
    pub fn refresh_verified(&mut self, id: &[u8; 20], addr: DhtAddr, now: u64) -> (r: bool)
        requires
            old(self).wf(),
        ensures
            final(self).attempted() == old(self).attempted(),
            final(self).wf(),
            (final(self).model(), r) == spec_refresh(old(self).model(), id@, addr, now),
    {
        let a = normalize_dht_addr(addr);
        let ghost t = self.model();
        match self.find_node(id) {
            Some(p) => {
                proof {
                    lemma_find_id_some(self.nodes@, id@, 0);
                }
                if !addr_eq(self.nodes[p].addr, a) {
                    return false;
                }
                let old_node = self.nodes[p];
                proof {
                    lemma_update_wf(t, p as int, now);
                }
                let idx = bucket_index(&self.own_id, id);
                self.nodes.set(p, TableNode { id: old_node.id, addr: old_node.addr, last_seen: now });
                self.refreshed_at.set(idx, now);
                self.drop_failures(a);
                true
            },
            None => false,
        }
    }
}


/// The table after the node `id` answered from `addr` at `now`, and
/// whether it was known there: a node the table holds at that endpoint is
/// marked heard from and its bucket refreshed, and the endpoint's failures
/// are forgotten; otherwise nothing changes.
pub open spec fn spec_refresh(t: TableModel, id: Seq<u8>, addr: DhtAddr, now: u64) -> (TableModel, bool) {
    let (own, nodes, refreshed, failures) = t;
    let a = DhtAddr { ip: spec_normalize_ip(addr.ip), port: addr.port };
    match find_id(nodes, id, 0) {
        Some(p) => if nodes[p].addr == a {
            (
                (
                    own,
                    nodes.update(p, TableNode { id: nodes[p].id, addr: nodes[p].addr, last_seen: now }),
                    refreshed.update(spec_bucket_index(own, id), now),
                    remove_failure(failures, a),
                ),
                true,
            )
        } else {
            (t, false)
        },
        None => (t, false),
    }
}

// ---------------------------------------------------------------------
// Laws of the routing table
// ---------------------------------------------------------------------

/// Nodes ordered from nearest to farthest.
pub open spec fn sorted_by_distance(s: Seq<TableNode>, target: Seq<u8>) -> bool {
    forall|i: int, j: int| 0 <= i < j < s.len() ==> lex_le(node_distance(s[i], target), node_distance(s[j], target))
}

proof fn lemma_lex_total(a: Seq<u8>, b: Seq<u8>)
    requires
        a.len() == b.len(),
    ensures
        lex_le(a, b) || lex_le(b, a),
    decreases a.len(),
{
    if a.len() > 0 && a[0] == b[0] {
        lemma_lex_total(a.drop_first(), b.drop_first());
    }
}

proof fn lemma_lex_trans(a: Seq<u8>, b: Seq<u8>, c: Seq<u8>)
    requires
        a.len() == b.len(),
        b.len() == c.len(),
        lex_le(a, b),
        lex_le(b, c),
    ensures
        lex_le(a, c),
    decreases a.len(),
{
    if a.len() > 0 && a[0] == b[0] && b[0] == c[0] {
        lemma_lex_trans(a.drop_first(), b.drop_first(), c.drop_first());
    }
}

proof fn lemma_insert_pos(best: Seq<TableNode>, d: Seq<u8>, target: Seq<u8>, k: int)
    requires
        0 <= k <= best.len(),
    ensures
        k <= insert_pos(best, d, target, k) <= best.len(),
        forall|j: int| k <= j < insert_pos(best, d, target, k) ==> lex_le(node_distance(best[j], target), d),
        insert_pos(best, d, target, k) < best.len() ==> !lex_le(
            node_distance(best[insert_pos(best, d, target, k)], target),
            d,
        ),
    decreases best.len() - k,
{
    if k < best.len() && lex_le(node_distance(best[k], target), d) {
        lemma_insert_pos(best, d, target, k + 1);
    }
}

proof fn lemma_best_step_sorted(best: Seq<TableNode>, n: TableNode, target: Seq<u8>, count: int)
    requires
        sorted_by_distance(best, target),
        target.len() == 20,
    ensures
        sorted_by_distance(best_step(best, n, target, count), target),
{
    let d = node_distance(n, target);
    let p = insert_pos(best, d, target, 0);
    lemma_insert_pos(best, d, target, 0);
    if p < count {
        let b = best.insert(p, n);
        assert forall|i: int, j: int| 0 <= i < j < b.len() implies lex_le(node_distance(b[i], target), node_distance(b[j], target)) by {
            if i < p && j == p {
                assert(b[i] == best[i]);
            } else if i == p && j > p {
                assert(b[j] == best[j - 1]);
                lemma_lex_total(node_distance(best[p], target), d);
                if j - 1 > p {
                    lemma_lex_trans(d, node_distance(best[p], target), node_distance(best[j - 1], target));
                }
            } else if i < p && j > p {
                assert(b[i] == best[i] && b[j] == best[j - 1]);
            } else if j < p {
                assert(b[i] == best[i] && b[j] == best[j]);
            } else {
                assert(b[i] == best[i - 1] && b[j] == best[j - 1]);
            }
        }
        if b.len() > count {
            assert forall|i: int, j: int| 0 <= i < j < b.drop_last().len() implies lex_le(
                node_distance(b.drop_last()[i], target),
                node_distance(b.drop_last()[j], target),
            ) by {
                assert(b.drop_last()[i] == b[i] && b.drop_last()[j] == b[j]);
            }
        }
    }
}

/// Every lookup answers nearest first: the nodes it returns are ordered by
/// their XOR distance to the target.
pub proof fn lemma_closest_sorted(nodes: Seq<TableNode>, target: Seq<u8>, count: int, f: NodeFilter)
    requires
        target.len() == 20,
    ensures
        sorted_by_distance(spec_closest(nodes, target, count, f), target),
    decreases nodes.len(),
{
    if nodes.len() > 0 {
        lemma_closest_sorted(nodes.drop_last(), target, count, f);
        if filter_keeps(f, nodes.last()) {
            lemma_best_step_sorted(spec_closest(nodes.drop_last(), target, count, f), nodes.last(), target, count);
        }
    }
}

/// Every lookup returns at most the number of nodes asked for, all of them
/// nodes of the table that the filter keeps.
pub proof fn lemma_closest_members(nodes: Seq<TableNode>, target: Seq<u8>, count: int, f: NodeFilter)
    requires
        count >= 0,
    ensures
        spec_closest(nodes, target, count, f).len() <= count,
        forall|k: int| 0 <= k < spec_closest(nodes, target, count, f).len() ==> exists|j: int|
            0 <= j < nodes.len() && nodes[j] == #[trigger] spec_closest(nodes, target, count, f)[k] && filter_keeps(
                f,
                nodes[j],
            ),
    decreases nodes.len(),
{
    if nodes.len() > 0 {
        let p = nodes.drop_last();
        lemma_closest_members(p, target, count, f);
        let prev = spec_closest(p, target, count, f);
        let r = spec_closest(nodes, target, count, f);
        if filter_keeps(f, nodes.last()) {
            let d = node_distance(nodes.last(), target);
            let q = insert_pos(prev, d, target, 0);
            lemma_insert_pos(prev, d, target, 0);
            assert forall|k: int| 0 <= k < r.len() implies exists|j: int|
                0 <= j < nodes.len() && nodes[j] == #[trigger] r[k] && filter_keeps(f, nodes[j]) by {
                if q < count {
                    let b = prev.insert(q, nodes.last());
                    if k == q {
                        assert(nodes[nodes.len() - 1] == r[k]);
                    } else if k < q {
                        assert(r[k] == prev[k]);
                        let j = choose|j: int| 0 <= j < p.len() && p[j] == #[trigger] prev[k] && filter_keeps(f, p[j]);
                        assert(nodes[j] == r[k]);
                    } else {
                        assert(r[k] == b[k]);
                        assert(b[k] == prev[k - 1]);
                        let j = choose|j: int| 0 <= j < p.len() && p[j] == #[trigger] prev[k - 1] && filter_keeps(f, p[j]);
                        assert(nodes[j] == r[k]);
                    }
                } else {
                    let j = choose|j: int| 0 <= j < p.len() && p[j] == #[trigger] prev[k] && filter_keeps(f, p[j]);
                    assert(nodes[j] == r[k]);
                }
            }
        } else {
            assert forall|k: int| 0 <= k < r.len() implies exists|j: int|
                0 <= j < nodes.len() && nodes[j] == #[trigger] r[k] && filter_keeps(f, nodes[j]) by {
                let j = choose|j: int| 0 <= j < p.len() && p[j] == #[trigger] prev[k] && filter_keeps(f, p[j]);
                assert(nodes[j] == r[k]);
            }
        }
    }
}

/// Every table keeps at most `MAX_NODES_PER_IP` nodes per address,
/// `MAX_NODES_PER_PREFIX` per network and `K` per bucket, and never two
/// nodes with one id or one endpoint; adding a node keeps it so.
pub proof fn lemma_insert_keeps_limits(t: TableModel, node: TableNode)
    requires
        table_wf(t),
    ensures
        table_wf(spec_table_insert(t, node)),
{
    let (own, nodes, refreshed, failures) = t;
    let n = TableNode { id: node.id, addr: DhtAddr { ip: spec_normalize_ip(node.addr.ip), port: node.addr.port }, last_seen: node.last_seen };
    let idx = spec_bucket_index(own, n.id@);
    if !(n.id@ == own || n.addr.port == 0 || is_unspecified(n.addr.ip)) {
        lemma_find_id_some(nodes, n.id@, 0);
        match find_id(nodes, n.id@, 0) {
            Some(p) => {
                lemma_update_wf(t, p, n.last_seen);
                assert(0 <= idx < NUM_BUCKETS) by {
                    lemma_leading_zeros_bound(Seq::new(20, |i: int| own[i] ^ n.id@[i]));
                }
            },
            None => {
                if !(has_endpoint(nodes, n.addr) || count_where(nodes, same_ip_fn(n.addr.ip)) >= MAX_NODES_PER_IP
                    || count_where(nodes, same_prefix_fn(n.addr)) >= MAX_NODES_PER_PREFIX || count_where(
                    nodes,
                    same_bucket_fn(own, idx),
                ) >= K) {
                    lemma_push_wf(t, n);
                }
            },
        }
    }
}


// ---------------------------------------------------------------------
// The node cache file
// ---------------------------------------------------------------------

/// Most nodes taken from the cache file.
pub const MAX_CACHED_NODE_CANDIDATES: usize = 64;

/// `DHTN` and format version 1.
pub open spec fn nodes_file_magic() -> Seq<u8> {
    seq![68u8, 72, 84, 78, 1]
}

/// A node as a value: id, whether IPv6, address octets, port.
pub type NodeModel = (Seq<u8>, bool, Seq<u8>, u16);

pub open spec fn node_model(n: Node) -> NodeModel {
    (n.id@, n.addr.ip is V6, ip_octets(n.addr.ip), n.addr.port)
}

pub open spec fn nodes_model(ns: Seq<Node>) -> Seq<NodeModel> {
    ns.map_values(|n: Node| node_model(n))
}

/// The record of an IPv4 node at `at`.
pub open spec fn v4_record(d: Seq<u8>, at: int) -> NodeModel {
    (d.subrange(at, at + 20), false, d.subrange(at + 20, at + 24), port_at(d, at + 24))
}

/// The record of an IPv6 node at `at`, an IPv4-mapped address taken as
/// IPv4.
pub open spec fn v6_record(d: Seq<u8>, at: int) -> NodeModel {
    let o = d.subrange(at + 20, at + 36);
    if is_v4_mapped(o) {
        (d.subrange(at, at + 20), false, o.subrange(12, 16), port_at(d, at + 36))
    } else {
        (d.subrange(at, at + 20), true, o, port_at(d, at + 36))
    }
}

/// The typed records of a cache file from `i` on: a `4` and 26 bytes, or
/// a `6` and 38; any other byte, or a record cut short, makes it invalid.
pub open spec fn decode_typed_from(d: Seq<u8>, i: int) -> Option<Seq<NodeModel>>
    decreases d.len() - i,
{
    if i < 0 || i >= d.len() {
        Some(Seq::empty())
    } else if d[i] == 4 {
        if i + 27 > d.len() {
            None
        } else {
            match decode_typed_from(d, i + 27) {
                None => None,
                Some(rest) => Some(seq![v4_record(d, i + 1)] + rest),
            }
        }
    } else if d[i] == 6 {
        if i + 39 > d.len() {
            None
        } else {
            match decode_typed_from(d, i + 39) {
                None => None,
                Some(rest) => Some(seq![v6_record(d, i + 1)] + rest),
            }
        }
    } else {
        None
    }
}

fn node_from_v4(d: &[u8], at: usize) -> (r: Node)
    requires
        at + 26 <= d.len(),
    ensures
        node_model(r) == v4_record(d@, at as int),
{
    let id = copy20(d, at);
    let ip = copy4(d, at + 20);
    let port = read_port(d, at + 24);
    Node { id, addr: DhtAddr { ip: DhtIp::V4(ip), port } }
}

fn node_from_v6(d: &[u8], at: usize) -> (r: Node)
    requires
        at + 38 <= d.len(),
    ensures
        node_model(r) == v6_record(d@, at as int),
{
    let id = copy20(d, at);
    let o = copy16(d, at + 20);
    let port = read_port(d, at + 36);
    proof {
        lemma_normalized_v6(o);
    }
    Node { id, addr: DhtAddr { ip: normalize_dht_ip(DhtIp::V6(o)), port } }
}

/// Decodes the typed records of a cache file (see `decode_typed_from`).
pub fn decode_nodes_type_prefixed(data: &[u8]) -> (r: Option<Vec<Node>>)
    ensures
        match decode_typed_from(data@, 0) {
            Some(ms) => r matches Some(v) && nodes_model(v@) == ms,
            None => r is None,
        },
{
    let mut nodes: Vec<Node> = Vec::new();
    let mut i: usize = 0;
    while i < data.len()
        invariant
            i <= data@.len(),
            decode_typed_from(data@, 0) == match decode_typed_from(data@, i as int) {
                Some(rest) => Some(nodes_model(nodes@) + rest),
                None => None::<Seq<NodeModel>>,
            },
        decreases data@.len() - i,
    {
        let marker = data[i];
        if marker == 4 {
            if data.len() - i < 27 {
                return None;
            }
            let n = node_from_v4(data, i + 1);
            let ghost before = nodes_model(nodes@);
            nodes.push(n);
            proof {
                assert(nodes_model(nodes@) =~= before.push(node_model(n)));
                if let Some(rest) = decode_typed_from(data@, i + 27) {
                    assert(before + (seq![v4_record(data@, i + 1)] + rest) =~= before.push(node_model(n)) + rest);
                }
            }
            i = i + 27;
        } else if marker == 6 {
            if data.len() - i < 39 {
                return None;
            }
            let n = node_from_v6(data, i + 1);
            let ghost before = nodes_model(nodes@);
            nodes.push(n);
            proof {
                assert(nodes_model(nodes@) =~= before.push(node_model(n)));
                if let Some(rest) = decode_typed_from(data@, i + 39) {
                    assert(before + (seq![v6_record(data@, i + 1)] + rest) =~= before.push(node_model(n)) + rest);
                }
            }
            i = i + 39;
        } else {
            return None;
        }
    }
    assert(nodes_model(nodes@) + Seq::<NodeModel>::empty() =~= nodes_model(nodes@));
    Some(nodes)
}

/// Decodes a cache file of the older format: plain 26-byte IPv4 records,
/// a partial record at the end ignored.
pub fn decode_legacy_nodes(data: &[u8]) -> (r: Vec<Node>)
    ensures
        r@.len() == data@.len() / 26,
        forall|k: int| 0 <= k < r@.len() ==> node_model(#[trigger] r@[k]) == v4_record(data@, 26 * k),
{
    let r = decode_nodes(data);
    assert forall|k: int| 0 <= k < r@.len() implies node_model(#[trigger] r@[k]) == v4_record(data@, 26 * k) by {
        let n = r@[k];
        assert(n.addr.ip is V4);
    }
    r
}

/// The record of one node in the cache file.
pub open spec fn node_record(n: TableNode) -> Seq<u8> {
    match n.addr.ip {
        DhtIp::V4(o) => seq![4u8] + n.id@ + o@ + port_bytes(n.addr.port),
        DhtIp::V6(o) => seq![6u8] + n.id@ + o@ + port_bytes(n.addr.port),
    }
}

pub open spec fn node_records(ns: Seq<TableNode>) -> Seq<u8>
    decreases ns.len(),
{
    if ns.len() == 0 {
        Seq::empty()
    } else {
        node_records(ns.drop_last()) + node_record(ns.last())
    }
}

/// The cache file of a table's nodes: the magic, then one typed record
/// per node.
pub fn encode_saved_nodes(nodes: &[TableNode]) -> (r: Vec<u8>)
    ensures
        r@ == nodes_file_magic() + node_records(nodes@),
{
    let mut out: Vec<u8> = vec![68u8, 72, 84, 78, 1];
    assert(out@ =~= nodes_file_magic());
    let mut k: usize = 0;
    while k < nodes.len()
        invariant
            k <= nodes@.len(),
            out@ == nodes_file_magic() + node_records(nodes@.subrange(0, k as int)),
        decreases nodes@.len() - k,
    {
        let ghost sub = nodes@.subrange(0, k as int + 1);
        assert(sub.drop_last() =~= nodes@.subrange(0, k as int));
        let n = nodes[k];
        let ghost before = out@;
        match n.addr.ip {
            DhtIp::V4(o) => {
                out.push(4u8);
                crate::http::push_all(&mut out, n.id.as_slice());
                crate::http::push_all(&mut out, o.as_slice());
            },
            DhtIp::V6(o) => {
                out.push(6u8);
                crate::http::push_all(&mut out, n.id.as_slice());
                crate::http::push_all(&mut out, o.as_slice());
            },
        }
        push_port(&mut out, n.addr.port);
        assert(out@ =~= before + node_record(n));
        assert(out@ =~= nodes_file_magic() + node_records(sub));
        k = k + 1;
    }
    assert(nodes@.subrange(0, k as int) =~= nodes@);
    out
}

/// Whether a decoded node may join the candidates chosen so far: a public
/// address with a valid id, a new endpoint and id, and room under the
/// limits per address and network.
pub open spec fn candidate_ok(sel: Seq<Node>, n: Node) -> bool {
    &&& n.addr.port != 0
    &&& spec_is_global(n.addr.ip)
    &&& spec_node_id_matches(n.id@, n.addr)
    &&& !(exists|i: int| 0 <= i < sel.len() && sel[i].addr == n.addr)
    &&& !(exists|i: int| 0 <= i < sel.len() && sel[i].id@ == n.id@)
    &&& count_nodes_ip(sel, n.addr.ip) < MAX_NODES_PER_IP
    &&& count_nodes_prefix(sel, n.addr) < MAX_NODES_PER_PREFIX
}

pub open spec fn count_nodes_ip(s: Seq<Node>, ip: DhtIp) -> nat
    decreases s.len(),
{
    if s.len() == 0 {
        0
    } else {
        count_nodes_ip(s.drop_last(), ip) + if spec_normalize_ip(s.last().addr.ip) == spec_normalize_ip(ip) {
            1nat
        } else {
            0nat
        }
    }
}

pub open spec fn count_nodes_prefix(s: Seq<Node>, a: DhtAddr) -> nat
    decreases s.len(),
{
    if s.len() == 0 {
        0
    } else {
        count_nodes_prefix(s.drop_last(), a) + if spec_same_network_prefix(s.last().addr, a) {
            1nat
        } else {
            0nat
        }
    }
}

/// The candidates chosen from the first nodes of a decoded cache, in
/// order, at most `MAX_CACHED_NODE_CANDIDATES`.
pub open spec fn select_candidates(ns: Seq<Node>) -> Seq<Node>
    decreases ns.len(),
{
    if ns.len() == 0 {
        Seq::empty()
    } else {
        let sel = select_candidates(ns.drop_last());
        if sel.len() < MAX_CACHED_NODE_CANDIDATES && candidate_ok(sel, ns.last()) {
            sel.push(ns.last())
        } else {
            sel
        }
    }
}

fn count_ip_nodes(s: &Vec<Node>, ip: DhtIp) -> (r: usize)
    ensures
        r == count_nodes_ip(s@, ip),
{
    let target = normalize_dht_ip(ip);
    let mut c: usize = 0;
    let mut i: usize = 0;
    while i < s.len()
        invariant
            i <= s@.len(),
            c <= i,
            target == spec_normalize_ip(ip),
            c == count_nodes_ip(s@.subrange(0, i as int), ip),
        decreases s@.len() - i,
    {
        let ghost sub = s@.subrange(0, i as int + 1);
        assert(sub.drop_last() =~= s@.subrange(0, i as int));
        if ip_eq(normalize_dht_ip(s[i].addr.ip), target) {
            c = c + 1;
        }
        i = i + 1;
    }
    assert(s@.subrange(0, i as int) =~= s@);
    c
}

fn count_prefix_nodes(s: &Vec<Node>, a: DhtAddr) -> (r: usize)
    ensures
        r == count_nodes_prefix(s@, a),
{
    let mut c: usize = 0;
    let mut i: usize = 0;
    while i < s.len()
        invariant
            i <= s@.len(),
            c <= i,
            c == count_nodes_prefix(s@.subrange(0, i as int), a),
        decreases s@.len() - i,
    {
        let ghost sub = s@.subrange(0, i as int + 1);
        assert(sub.drop_last() =~= s@.subrange(0, i as int));
        if same_network_prefix(s[i].addr, a) {
            c = c + 1;
        }
        i = i + 1;
    }
    assert(s@.subrange(0, i as int) =~= s@);
    c
}

fn seen_endpoint_or_id(s: &Vec<Node>, n: &Node) -> (r: bool)
    ensures
        r == ((exists|i: int| 0 <= i < s@.len() && s@[i].addr == n.addr) || (exists|i: int|
            0 <= i < s@.len() && s@[i].id@ == n.id@)),
{
    let mut i: usize = 0;
    while i < s.len()
        invariant
            i <= s@.len(),
            forall|j: int| 0 <= j < i ==> s@[j].addr != n.addr && s@[j].id@ != n.id@,
        decreases s@.len() - i,
    {
        if addr_eq(s[i].addr, n.addr) || id_eq(&s[i].id, &n.id) {
            return true;
        }
        i = i + 1;
    }
    false
}

/// Chooses the candidates of a decoded cache (see `select_candidates`).
pub fn select_cached_candidates(decoded: &[Node]) -> (r: Vec<Node>)
    ensures
        r@ == select_candidates(decoded@),
{
    let mut sel: Vec<Node> = Vec::new();
    let mut k: usize = 0;
    while k < decoded.len()
        invariant
            k <= decoded@.len(),
            sel@ == select_candidates(decoded@.subrange(0, k as int)),
        decreases decoded@.len() - k,
    {
        let ghost sub = decoded@.subrange(0, k as int + 1);
        assert(sub.drop_last() =~= decoded@.subrange(0, k as int));
        let n = decoded[k];
        if sel.len() >= MAX_CACHED_NODE_CANDIDATES {
            proof {
                lemma_select_stays(decoded@, k as int);
            }
            assert(decoded@.subrange(0, decoded@.len() as int) =~= decoded@);
            return sel;
        }
        if n.addr.port != 0 && is_global_dht_address(n.addr.ip) && node_id_matches_address(&n.id, n.addr)
            && !seen_endpoint_or_id(&sel, &n) && count_ip_nodes(&sel, n.addr.ip) < MAX_NODES_PER_IP
            && count_prefix_nodes(&sel, n.addr) < MAX_NODES_PER_PREFIX {
            sel.push(n);
        }
        k = k + 1;
    }
    assert(decoded@.subrange(0, k as int) =~= decoded@);
    sel
}

proof fn lemma_select_stays(ns: Seq<Node>, k: int)
    requires
        0 <= k <= ns.len(),
        select_candidates(ns.subrange(0, k)).len() >= MAX_CACHED_NODE_CANDIDATES,
    ensures
        select_candidates(ns) == select_candidates(ns.subrange(0, k)),
    decreases ns.len() - k,
{
    if k < ns.len() {
        assert(ns.drop_last().subrange(0, k) =~= ns.subrange(0, k));
        lemma_select_stays(ns.drop_last(), k);
    } else {
        assert(ns.subrange(0, k) =~= ns);
    }
}

/// The records a cache file holds: after the magic, typed records (none
/// if they are invalid); without the magic, typed records if valid, else
/// legacy ones.
pub open spec fn cache_records(data: Seq<u8>) -> Seq<NodeModel> {
    if data.len() >= 5 && data.subrange(0, 5) == nodes_file_magic() {
        match decode_typed_from(data.subrange(5, data.len() as int), 0) {
            Some(ms) => ms,
            None => Seq::empty(),
        }
    } else {
        match decode_typed_from(data, 0) {
            Some(ms) => ms,
            None => Seq::new(data.len() / 26, |k: int| v4_record(data, 26 * k)),
        }
    }
}

/// The candidate nodes of a cache file: its records decoded (see
/// `cache_records`), then chosen (see `select_candidates`).
pub fn node_cache_candidates(data: &[u8]) -> (r: Vec<Node>)
    ensures
        exists|decoded: Seq<Node>| nodes_model(decoded) == cache_records(data@) && r@ == select_candidates(decoded),
{
    let magic: [u8; 5] = [68, 72, 84, 78, 1];
    assert(magic@ =~= nodes_file_magic());
    let decoded: Vec<Node> = if data.len() >= 5 && prefix_equal(data, magic.as_slice(), 5) {
        assert(magic@.subrange(0, 5) =~= magic@);
        match decode_nodes_type_prefixed(&data[5..data.len()]) {
            Some(v) => v,
            None => {
                let v: Vec<Node> = Vec::new();
                assert(nodes_model(v@) =~= Seq::<NodeModel>::empty());
                v
            },
        }
    } else {
        proof {
            if data@.len() >= 5 {
                assert(magic@.subrange(0, 5) =~= magic@);
            }
        }
        match decode_nodes_type_prefixed(data) {
            Some(v) => v,
            None => {
                let v = decode_legacy_nodes(data);
                assert(nodes_model(v@) =~= Seq::new(data@.len() / 26, |k: int| v4_record(data@, 26 * k)));
                v
            },
        }
    };
    let r = select_cached_candidates(decoded.as_slice());
    assert(nodes_model(decoded@) == cache_records(data@) && r@ == select_candidates(decoded@));
    r
}


// ---------------------------------------------------------------------
// Query rate limits
// ---------------------------------------------------------------------

/// The window of the query rate limits, in milliseconds.
pub const QUERY_RATE_WINDOW_MS: u64 = 1000;

/// How long an idle source's window is kept, in milliseconds.
pub const QUERY_RATE_ENTRY_TTL_MS: u64 = 10000;

/// Most sources and networks tracked at once.
pub const MAX_QUERY_RATE_ENTRIES: usize = 4096;

/// Most queries answered per window overall.
pub const MAX_QUERIES_PER_WINDOW_GLOBAL: u32 = 512;

/// Most queries answered per window from one network.
pub const MAX_QUERIES_PER_WINDOW_PREFIX: u32 = 64;

/// Most queries answered per window from one address.
pub const MAX_QUERIES_PER_WINDOW_IP: u32 = 16;

/// A counting window.
#[derive(Clone, Copy, Debug)]
pub struct RateWindow {
    pub started_at: u64,
    pub count: u32,
}

/// The count of a window at `now`: zero once the window has passed.
pub open spec fn window_count(w: RateWindow, now: u64) -> u32 {
    if (if now >= w.started_at { now - w.started_at } else { 0 }) >= QUERY_RATE_WINDOW_MS {
        0
    } else {
        w.count
    }
}

/// A window after one more query at `now`, restarted if it had passed.
pub open spec fn window_increment(w: RateWindow, now: u64) -> RateWindow {
    let w2 = if (if now >= w.started_at { now - w.started_at } else { 0 }) >= QUERY_RATE_WINDOW_MS {
        RateWindow { started_at: now, count: 0 }
    } else {
        w
    };
    RateWindow {
        started_at: w2.started_at,
        count: if w2.count == u32::MAX {
            u32::MAX
        } else {
            (w2.count + 1) as u32
        },
    }
}

fn window_count_exec(w: RateWindow, now: u64) -> (r: u32)
    ensures
        r == window_count(w, now),
{
    if now.saturating_sub(w.started_at) >= QUERY_RATE_WINDOW_MS {
        0
    } else {
        w.count
    }
}

fn window_increment_exec(w: RateWindow, now: u64) -> (r: RateWindow)
    ensures
        r == window_increment(w, now),
{
    let w2 = if now.saturating_sub(w.started_at) >= QUERY_RATE_WINDOW_MS {
        RateWindow { started_at: now, count: 0 }
    } else {
        w
    };
    RateWindow { started_at: w2.started_at, count: w2.count.saturating_add(1) }
}

/// The network a query comes from: the first three octets of IPv4, the
/// first eight of IPv6, after normalizing.
pub open spec fn query_prefix(addr: DhtAddr) -> Seq<u8> {
    match spec_normalize_ip(addr.ip) {
        DhtIp::V4(o) => seq![4u8] + o@.subrange(0, 3),
        DhtIp::V6(o) => seq![6u8] + o@.subrange(0, 8),
    }
}

fn query_prefix_exec(addr: DhtAddr) -> (r: Vec<u8>)
    ensures
        r@ == query_prefix(addr),
{
    let mut out: Vec<u8> = Vec::new();
    match normalize_dht_ip(addr.ip) {
        DhtIp::V4(o) => {
            out.push(4u8);
            out.push(o[0]);
            out.push(o[1]);
            out.push(o[2]);
            assert(out@ =~= seq![4u8] + o@.subrange(0, 3));
        },
        DhtIp::V6(o) => {
            out.push(6u8);
            let mut i: usize = 0;
            while i < 8
                invariant
                    i <= 8,
                    o@.len() == 16,
                    out@ == seq![6u8] + o@.subrange(0, i as int),
                decreases 8 - i,
            {
                out.push(o[i]);
                assert(out@ =~= seq![6u8] + o@.subrange(0, i as int + 1));
                i = i + 1;
            }
        },
    }
    out
}

/// The windows a source is counted in: one per normalized address and one
/// per network, with an overall window.
pub struct QueryRateLimiter {
    global: RateWindow,
    by_ip: Vec<(DhtIp, RateWindow)>,
    by_prefix: Vec<(Vec<u8>, RateWindow)>,
    last_prune: u64,
}

/// The limiter as a value.
pub type LimiterModel = (RateWindow, Seq<(DhtIp, RateWindow)>, Seq<(Seq<u8>, RateWindow)>, u64);

/// The position of the last window kept for `k`.
pub open spec fn last_index_of<K>(m: Seq<(K, RateWindow)>, k: K) -> Option<int>
    decreases m.len(),
{
    if m.len() == 0 {
        None
    } else if m.last().0 == k {
        Some(m.len() - 1)
    } else {
        last_index_of(m.drop_last(), k)
    }
}

proof fn lemma_last_index_of<K>(m: Seq<(K, RateWindow)>, k: K)
    ensures
        last_index_of(m, k) matches Some(i) ==> 0 <= i < m.len() && m[i].0 == k,
    decreases m.len(),
{
    if m.len() > 0 && m.last().0 != k {
        lemma_last_index_of(m.drop_last(), k);
    }
}

/// The window kept for `k`, if any.
pub open spec fn window_of<K>(m: Seq<(K, RateWindow)>, k: K) -> Option<RateWindow> {
    match last_index_of(m, k) {
        Some(i) => Some(m[i].1),
        None => None,
    }
}

/// The windows still younger than the entry lifetime at `now`.
pub open spec fn keep_fresh<K>(m: Seq<(K, RateWindow)>, now: u64) -> Seq<(K, RateWindow)>
    decreases m.len(),
{
    if m.len() == 0 {
        m
    } else {
        let rest = keep_fresh(m.drop_last(), now);
        let w = m.last().1;
        if (if now >= w.started_at { now - w.started_at } else { 0 }) < QUERY_RATE_ENTRY_TTL_MS {
            rest.push(m.last())
        } else {
            rest
        }
    }
}

/// The windows with the one of `k` counted once more at `now` (a new one
/// started for a new key).
pub open spec fn count_in<K>(m: Seq<(K, RateWindow)>, k: K, now: u64) -> Seq<(K, RateWindow)> {
    match last_index_of(m, k) {
        None => m.push((k, window_increment(RateWindow { started_at: now, count: 0 }, now))),
        Some(i) => m.update(i, (k, window_increment(m[i].1, now))),
    }
}

/// One query from `addr` at `now`: idle windows are dropped every entry
/// lifetime; the query is refused when a new source or network finds the
/// tables full, or when the overall, address or network window is at its
/// limit; otherwise it is counted in all three.
pub open spec fn spec_allow(l: LimiterModel, addr: DhtAddr, now: u64) -> (LimiterModel, bool) {
    let (global, by_ip0, by_prefix0, last_prune0) = l;
    let prune = (if now >= last_prune0 { now - last_prune0 } else { 0 }) >= QUERY_RATE_ENTRY_TTL_MS;
    let by_ip = if prune { keep_fresh(by_ip0, now) } else { by_ip0 };
    let by_prefix = if prune { keep_fresh(by_prefix0, now) } else { by_prefix0 };
    let last_prune = if prune { now } else { last_prune0 };
    let ip = spec_normalize_ip(addr.ip);
    let prefix = query_prefix(addr);
    let refused = (window_of(by_ip, ip) is None && by_ip.len() >= MAX_QUERY_RATE_ENTRIES) || (window_of(
        by_prefix,
        prefix,
    ) is None && by_prefix.len() >= MAX_QUERY_RATE_ENTRIES) || window_count(global, now)
        >= MAX_QUERIES_PER_WINDOW_GLOBAL || (window_of(by_ip, ip) matches Some(w) && window_count(w, now)
        >= MAX_QUERIES_PER_WINDOW_IP) || (window_of(by_prefix, prefix) matches Some(w) && window_count(w, now)
        >= MAX_QUERIES_PER_WINDOW_PREFIX);
    if refused {
        ((global, by_ip, by_prefix, last_prune), false)
    } else {
        (
            (window_increment(global, now), count_in(by_ip, ip, now), count_in(by_prefix, prefix, now), last_prune),
            true,
        )
    }
}

pub open spec fn prefix_view(m: Seq<(Vec<u8>, RateWindow)>) -> Seq<(Seq<u8>, RateWindow)> {
    m.map_values(|e: (Vec<u8>, RateWindow)| (e.0@, e.1))
}

fn ip_window(m: &Vec<(DhtIp, RateWindow)>, k: DhtIp) -> (r: Option<usize>)
    ensures
        last_index_of(m@, k) == (match r {
            Some(i) => Some(i as int),
            None => None::<int>,
        }),
{
    let mut i = m.len();
    assert(m@.subrange(0, i as int) =~= m@);
    while i > 0
        invariant
            i <= m@.len(),
            last_index_of(m@, k) == last_index_of(m@.subrange(0, i as int), k),
        decreases i,
    {
        let ghost sub = m@.subrange(0, i as int);
        assert(sub.drop_last() =~= m@.subrange(0, i - 1));
        if ip_eq(m[i - 1].0, k) {
            return Some(i - 1);
        }
        i = i - 1;
    }
    None
}

fn prefix_window(m: &Vec<(Vec<u8>, RateWindow)>, k: &Vec<u8>) -> (r: Option<usize>)
    ensures
        last_index_of(prefix_view(m@), k@) == (match r {
            Some(i) => Some(i as int),
            None => None::<int>,
        }),
{
    let mut i = m.len();
    assert(prefix_view(m@).subrange(0, i as int) =~= prefix_view(m@));
    while i > 0
        invariant
            i <= m@.len(),
            last_index_of(prefix_view(m@), k@) == last_index_of(prefix_view(m@).subrange(0, i as int), k@),
        decreases i,
    {
        let ghost sub = prefix_view(m@).subrange(0, i as int);
        assert(sub.drop_last() =~= prefix_view(m@).subrange(0, i - 1));
        if crate::http::bytes_equal(m[i - 1].0.as_slice(), k.as_slice()) {
            return Some(i - 1);
        }
        i = i - 1;
    }
    None
}

fn fresh_ips(m: &Vec<(DhtIp, RateWindow)>, now: u64) -> (r: Vec<(DhtIp, RateWindow)>)
    ensures
        r@ == keep_fresh(m@, now),
{
    let mut out: Vec<(DhtIp, RateWindow)> = Vec::new();
    let mut i: usize = 0;
    while i < m.len()
        invariant
            i <= m@.len(),
            out@ == keep_fresh(m@.subrange(0, i as int), now),
        decreases m@.len() - i,
    {
        let ghost sub = m@.subrange(0, i as int + 1);
        assert(sub.drop_last() =~= m@.subrange(0, i as int));
        if now.saturating_sub(m[i].1.started_at) < QUERY_RATE_ENTRY_TTL_MS {
            out.push(m[i]);
        }
        i = i + 1;
    }
    assert(m@.subrange(0, i as int) =~= m@);
    out
}

fn fresh_prefixes(m: &Vec<(Vec<u8>, RateWindow)>, now: u64) -> (r: Vec<(Vec<u8>, RateWindow)>)
    ensures
        prefix_view(r@) == keep_fresh(prefix_view(m@), now),
{
    let mut out: Vec<(Vec<u8>, RateWindow)> = Vec::new();
    let mut i: usize = 0;
    while i < m.len()
        invariant
            i <= m@.len(),
            prefix_view(out@) == keep_fresh(prefix_view(m@.subrange(0, i as int)), now),
        decreases m@.len() - i,
    {
        let ghost sub = prefix_view(m@.subrange(0, i as int + 1));
        assert(sub.drop_last() =~= prefix_view(m@.subrange(0, i as int)));
        if now.saturating_sub(m[i].1.started_at) < QUERY_RATE_ENTRY_TTL_MS {
            let e = (crate::text::bytes_to_vec(m[i].0.as_slice()), m[i].1);
            let ghost before = prefix_view(out@);
            out.push(e);
            assert(prefix_view(out@) =~= before.push((m@[i as int].0@, m@[i as int].1)));
        }
        i = i + 1;
    }
    assert(m@.subrange(0, i as int) =~= m@);
    out
}

impl QueryRateLimiter {
    /// The limiter as a value.
    pub closed spec fn model(&self) -> LimiterModel {
        (self.global, self.by_ip@, prefix_view(self.by_prefix@), self.last_prune)
    }

    /// A limiter with nothing counted, its windows starting at `now`.
    pub fn new(now: u64) -> (r: Self)
        ensures
            r.model() == (RateWindow { started_at: now, count: 0 }, Seq::<(DhtIp, RateWindow)>::empty(), Seq::<
                (Seq<u8>, RateWindow),
            >::empty(), now),
    {
        let r = QueryRateLimiter {
            global: RateWindow { started_at: now, count: 0 },
            by_ip: Vec::new(),
            by_prefix: Vec::new(),
            last_prune: now,
        };
        assert(prefix_view(r.by_prefix@) =~= Seq::<(Seq<u8>, RateWindow)>::empty());
        r
    }

    /// Whether a query from `addr` at `now` may be answered (see
    /// `spec_allow`), counting it if so.
    pub fn allow_at(&mut self, addr: DhtAddr, now: u64) -> (r: bool)
        ensures
            (final(self).model(), r) == spec_allow(old(self).model(), addr, now),
    {
        if now.saturating_sub(self.last_prune) >= QUERY_RATE_ENTRY_TTL_MS {
            self.by_ip = fresh_ips(&self.by_ip, now);
            self.by_prefix = fresh_prefixes(&self.by_prefix, now);
            self.last_prune = now;
        }
        let ip = normalize_dht_ip(addr.ip);
        let prefix = query_prefix_exec(addr);
        let ip_at = ip_window(&self.by_ip, ip);
        let prefix_at = prefix_window(&self.by_prefix, &prefix);
        proof {
            lemma_last_index_of(self.by_ip@, ip);
            lemma_last_index_of(prefix_view(self.by_prefix@), prefix@);
        }
        let ip_full = match ip_at {
            None => self.by_ip.len() >= MAX_QUERY_RATE_ENTRIES,
            Some(i) => window_count_exec(self.by_ip[i].1, now) >= MAX_QUERIES_PER_WINDOW_IP,
        };
        let prefix_full = match prefix_at {
            None => self.by_prefix.len() >= MAX_QUERY_RATE_ENTRIES,
            Some(i) => window_count_exec(self.by_prefix[i].1, now) >= MAX_QUERIES_PER_WINDOW_PREFIX,
        };
        if ip_full || prefix_full || window_count_exec(self.global, now) >= MAX_QUERIES_PER_WINDOW_GLOBAL {
            return false;
        }
        self.global = window_increment_exec(self.global, now);
        match ip_at {
            None => {
                self.by_ip.push((ip, window_increment_exec(RateWindow { started_at: now, count: 0 }, now)));
            },
            Some(i) => {
                let w = window_increment_exec(self.by_ip[i].1, now);
                self.by_ip.set(i, (ip, w));
            },
        }
        let ghost pv = prefix_view(self.by_prefix@);
        match prefix_at {
            None => {
                self.by_prefix.push((prefix, window_increment_exec(RateWindow { started_at: now, count: 0 }, now)));
                assert(prefix_view(self.by_prefix@) =~= count_in(pv, prefix@, now));
            },
            Some(i) => {
                let w = window_increment_exec(self.by_prefix[i].1, now);
                self.by_prefix.set(i, (prefix, w));
                assert(prefix_view(self.by_prefix@) =~= count_in(pv, prefix@, now));
            },
        }
        true
    }
}

} // verus!

verus! {

// ---------------------------------------------------------------------
// Replacing a node that stopped answering
// ---------------------------------------------------------------------

/// The predicate `f` over the nodes not at endpoint `a`.
pub open spec fn except_at(a: DhtAddr, f: spec_fn(TableNode) -> bool) -> spec_fn(TableNode) -> bool {
    |n: TableNode| n.addr != a && f(n)
}

/// The first node from `i` on in bucket `idx` with id `id` at endpoint
/// `a` that was last heard from no later than `sent_at`.
pub open spec fn find_incumbent(
    s: Seq<TableNode>,
    own: Seq<u8>,
    idx: int,
    id: Seq<u8>,
    a: DhtAddr,
    sent_at: u64,
    i: int,
) -> Option<int>
    decreases s.len() - i,
{
    if i < 0 || i >= s.len() {
        None
    } else if spec_bucket_index(own, s[i].id@) == idx && s[i].id@ == id && s[i].addr == a && s[i].last_seen
        <= sent_at {
        Some(i)
    } else {
        find_incumbent(s, own, idx, id, a, sent_at, i + 1)
    }
}

/// Some node other than the one at `a` already has the candidate's id or
/// endpoint.
pub open spec fn conflicts(s: Seq<TableNode>, a: DhtAddr, c: TableNode) -> bool {
    exists|j: int| 0 <= j < s.len() && s[j].addr != a && (s[j].id@ == c.id@ || s[j].addr == c.addr)
}

/// Putting `candidate` in the place of an incumbent that did not answer a
/// probe sent at `sent_at`: the candidate must be valid (not our id, a
/// port, a specified address, an id that matches its address), the
/// incumbent must still sit in the candidate's bucket unchanged since the
/// probe, no other node may hold the candidate's id or endpoint, and the
/// other nodes must leave room for the candidate's address and network.
/// The incumbent's and the candidate's failures are forgotten and the
/// bucket is marked refreshed at the candidate's time.
pub open spec fn spec_replace_questionable(
    t: TableModel,
    inc_id: Seq<u8>,
    inc_addr: DhtAddr,
    sent_at: u64,
    cand: TableNode,
) -> (TableModel, bool) {
    let (own, nodes, refreshed, failures) = t;
    let c = TableNode {
        id: cand.id,
        addr: DhtAddr { ip: spec_normalize_ip(cand.addr.ip), port: cand.addr.port },
        last_seen: cand.last_seen,
    };
    let ia = DhtAddr { ip: spec_normalize_ip(inc_addr.ip), port: inc_addr.port };
    if c.id@ == own || c.addr.port == 0 || is_unspecified(c.addr.ip) || !spec_node_id_matches(c.id@, c.addr) {
        (t, false)
    } else {
        let idx = spec_bucket_index(own, c.id@);
        match find_incumbent(nodes, own, idx, inc_id, ia, sent_at, 0) {
            None => (t, false),
            Some(p) => if conflicts(nodes, ia, c) || count_where(nodes, except_at(ia, same_ip_fn(c.addr.ip)))
                >= MAX_NODES_PER_IP || count_where(nodes, except_at(ia, same_prefix_fn(c.addr)))
                >= MAX_NODES_PER_PREFIX {
                (t, false)
            } else {
                (
                    (
                        own,
                        nodes.update(p, c),
                        refreshed.update(idx, c.last_seen),
                        remove_failure(remove_failure(failures, ia), c.addr),
                    ),
                    true,
                )
            },
        }
    }
}

proof fn lemma_count_replace(s: Seq<TableNode>, p: int, y: TableNode, f: spec_fn(TableNode) -> bool)
    requires
        0 <= p < s.len(),
    ensures
        count_where(s.update(p, y), f) + (if f(s[p]) {
            1int
        } else {
            0int
        }) == count_where(s, f) + (if f(y) {
            1int
        } else {
            0int
        }),
    decreases s.len(),
{
    if p < s.len() - 1 {
        assert(s.update(p, y).drop_last() =~= s.drop_last().update(p, y));
        lemma_count_replace(s.drop_last(), p, y, f);
    } else {
        assert(s.update(p, y).drop_last() =~= s.drop_last());
    }
}

proof fn lemma_count_except(s: Seq<TableNode>, p: int, a: DhtAddr, f: spec_fn(TableNode) -> bool)
    requires
        0 <= p < s.len(),
        s[p].addr == a,
        forall|j: int| 0 <= j < s.len() && j != p ==> s[j].addr != a,
    ensures
        count_where(s, f) == count_where(s, except_at(a, f)) + (if f(s[p]) {
            1int
        } else {
            0int
        }),
    decreases s.len(),
{
    let t = s.drop_last();
    if p == s.len() - 1 {
        assert forall|i: int| 0 <= i < t.len() implies f(t[i]) == except_at(a, f)(t[i]) by {
            assert(t[i] == s[i]);
        }
        lemma_count_same(t, f, except_at(a, f));
    } else {
        assert forall|j: int| 0 <= j < t.len() && j != p implies t[j].addr != a by {
            assert(t[j] == s[j]);
        }
        lemma_count_except(t, p, a, f);
        assert(s.last().addr != a);
    }
}

proof fn lemma_replace_wf(t: TableModel, p: int, c: TableNode, ia: DhtAddr)
    requires
        table_wf(t),
        0 <= p < t.1.len(),
        t.1[p].addr == ia,
        spec_bucket_index(t.0, t.1[p].id@) == spec_bucket_index(t.0, c.id@),
        !conflicts(t.1, ia, c),
        count_where(t.1, except_at(ia, same_ip_fn(c.addr.ip))) < MAX_NODES_PER_IP,
        count_where(t.1, except_at(ia, same_prefix_fn(c.addr))) < MAX_NODES_PER_PREFIX,
    ensures
        forall|r: Seq<u64>, f: Seq<(DhtAddr, u8)>| r.len() == NUM_BUCKETS ==> table_wf((t.0, t.1.update(p, c), r, f)),
{
    let (own, nodes, refreshed, failures) = t;
    let s = nodes.update(p, c);
    assert forall|j: int| 0 <= j < nodes.len() && j != p implies nodes[j].addr != ia by {
        if j < p {
            assert(nodes[j].addr != nodes[p].addr);
        } else {
            assert(nodes[p].addr != nodes[j].addr);
        }
    }
    assert forall|j: int| 0 <= j < nodes.len() && j != p implies nodes[j].id@ != c.id@ && nodes[j].addr != c.addr by {
        if nodes[j].id@ == c.id@ || nodes[j].addr == c.addr {
            assert(conflicts(nodes, ia, c));
        }
    }
    assert forall|i: int| 0 <= i < s.len() implies count_where(s, same_ip_fn(#[trigger] s[i].addr.ip)) <= MAX_NODES_PER_IP by {
        let q = s[i].addr.ip;
        let f = same_ip_fn(q);
        lemma_count_replace(nodes, p, c, f);
        if f(c) {
            assert(f =~= same_ip_fn(c.addr.ip));
            lemma_count_except(nodes, p, ia, f);
        } else {
            assert(i != p);
            assert(s[i] == nodes[i]);
        }
    }
    assert forall|i: int| 0 <= i < s.len() implies count_where(s, same_prefix_fn(#[trigger] s[i].addr)) <= MAX_NODES_PER_PREFIX by {
        let m = s[i].addr;
        let f = same_prefix_fn(m);
        lemma_count_replace(nodes, p, c, f);
        if f(c) {
            assert forall|x: TableNode| #[trigger] f(x) == same_prefix_fn(c.addr)(x) by {
                lemma_prefix_equiv(x.addr, m, c.addr);
            }
            assert(f =~= same_prefix_fn(c.addr));
            lemma_count_except(nodes, p, ia, f);
        } else {
            assert(i != p);
            assert(s[i] == nodes[i]);
        }
    }
    assert forall|b: int| 0 <= b < NUM_BUCKETS implies count_where(s, #[trigger] same_bucket_fn(own, b)) <= K by {
        lemma_count_update(nodes, p, c, same_bucket_fn(own, b));
    }
    assert forall|i: int, j: int| 0 <= i < j < s.len() implies s[i].id@ != s[j].id@ by {
        if i != p && j != p {
            assert(s[i] == nodes[i] && s[j] == nodes[j]);
        } else if i == p {
            assert(s[j] == nodes[j]);
        } else {
            assert(s[i] == nodes[i]);
        }
    }
    assert forall|i: int, j: int| 0 <= i < j < s.len() implies s[i].addr != s[j].addr by {
        if i != p && j != p {
            assert(s[i] == nodes[i] && s[j] == nodes[j]);
        } else if i == p {
            assert(s[j] == nodes[j]);
        } else {
            assert(s[i] == nodes[i]);
        }
    }
}

} // verus!

verus! {

proof fn lemma_find_incumbent_result(
    s: Seq<TableNode>,
    own: Seq<u8>,
    idx: int,
    id: Seq<u8>,
    a: DhtAddr,
    sent_at: u64,
    i: int,
)
    requires
        0 <= i,
    ensures
        find_incumbent(s, own, idx, id, a, sent_at, i) matches Some(k) ==> i <= k < s.len() && spec_bucket_index(
            own,
            s[k].id@,
        ) == idx && s[k].addr == a,
    decreases s.len() - i,
{
    if i < s.len() {
        lemma_find_incumbent_result(s, own, idx, id, a, sent_at, i + 1);
    }
}

impl RoutingTable {
    /// Puts `candidate` in the place of an incumbent that did not answer a
    /// probe sent at `probe_sent_at` (see `spec_replace_questionable`);
    /// whether it did.
    #[verifier::loop_isolation(false)]
    pub fn replace_questionable(
        &mut self,
        incumbent_id: [u8; 20],
        incumbent_addr: DhtAddr,
        probe_sent_at: u64,
        candidate: TableNode,
    ) -> (r: bool)
        requires
            old(self).wf(),
        ensures
            final(self).attempted() == old(self).attempted(),
            final(self).wf(),
            (final(self).model(), r) == spec_replace_questionable(
                old(self).model(),
                incumbent_id@,
                incumbent_addr,
                probe_sent_at,
                candidate,
            ),
    {
        let c = TableNode { id: candidate.id, addr: normalize_dht_addr(candidate.addr), last_seen: candidate.last_seen };
        let ia = normalize_dht_addr(incumbent_addr);
        if id_eq(&c.id, &self.own_id) || c.addr.port == 0 || unspecified_exec(c.addr.ip) || !node_id_matches_address(
            &c.id,
            c.addr,
        ) {
            return false;
        }
        let ghost t = self.model();
        let idx = bucket_index(&self.own_id, &c.id);
        let pos = match self.incumbent_position(idx, &incumbent_id, ia, probe_sent_at) {
            Some(p) => p,
            None => {
                return false;
            },
        };
        proof {
            lemma_find_incumbent_result(self.nodes@, self.own_id@, idx as int, incumbent_id@, ia, probe_sent_at, 0);
        }
        let mut i: usize = 0;
        while i < self.nodes.len()
            invariant
                i <= self.nodes@.len(),
                forall|j: int| 0 <= j < i ==> !(self.nodes@[j].addr != ia && (self.nodes@[j].id@ == c.id@
                    || self.nodes@[j].addr == c.addr)),
            decreases self.nodes@.len() - i,
        {
            let n = self.nodes[i];
            if !addr_eq(n.addr, ia) && (id_eq(&n.id, &c.id) || addr_eq(n.addr, c.addr)) {
                assert(conflicts(self.nodes@, ia, c) && self.nodes@[i as int] == n);
                return false;
            }
            i = i + 1;
        }
        let mut same_ip: usize = 0;
        let mut same_prefix: usize = 0;
        let target = normalize_dht_ip(c.addr.ip);
        let mut k: usize = 0;
        while k < self.nodes.len()
            invariant
                k <= self.nodes@.len(),
                target == spec_normalize_ip(c.addr.ip),
                same_ip <= k,
                same_prefix <= k,
                same_ip == count_where(self.nodes@.subrange(0, k as int), except_at(ia, same_ip_fn(c.addr.ip))),
                same_prefix == count_where(self.nodes@.subrange(0, k as int), except_at(ia, same_prefix_fn(c.addr))),
            decreases self.nodes@.len() - k,
        {
            let ghost sub = self.nodes@.subrange(0, k as int + 1);
            assert(sub.drop_last() =~= self.nodes@.subrange(0, k as int));
            let n = self.nodes[k];
            if !addr_eq(n.addr, ia) {
                if ip_eq(normalize_dht_ip(n.addr.ip), target) {
                    same_ip = same_ip + 1;
                }
                if same_network_prefix(n.addr, c.addr) {
                    same_prefix = same_prefix + 1;
                }
            }
            k = k + 1;
        }
        assert(self.nodes@.subrange(0, k as int) =~= self.nodes@);
        if same_ip >= MAX_NODES_PER_IP || same_prefix >= MAX_NODES_PER_PREFIX {
            return false;
        }
        proof {
            lemma_replace_wf(t, pos as int, c, ia);
        }
        self.drop_failures(ia);
        self.drop_failures(c.addr);
        self.nodes.set(pos, c);
        self.refreshed_at.set(idx, c.last_seen);
        true
    }

    fn incumbent_position(&self, idx: usize, id: &[u8; 20], a: DhtAddr, sent_at: u64) -> (r: Option<usize>)
        ensures
            r matches Some(p) ==> p < self.nodes@.len() && find_incumbent(self.nodes@, self.own_id@, idx as int, id@, a, sent_at, 0)
                == Some(p as int),
            r is None ==> find_incumbent(self.nodes@, self.own_id@, idx as int, id@, a, sent_at, 0) is None,
    {
        let mut pos: usize = 0;
        while pos < self.nodes.len()
            invariant
                pos <= self.nodes@.len(),
                find_incumbent(self.nodes@, self.own_id@, idx as int, id@, a, sent_at, 0) == find_incumbent(
                    self.nodes@,
                    self.own_id@,
                    idx as int,
                    id@,
                    a,
                    sent_at,
                    pos as int,
                ),
            decreases self.nodes@.len() - pos,
        {
            let n = self.nodes[pos];
            if bucket_index(&self.own_id, &n.id) == idx && id_eq(&n.id, id) && addr_eq(n.addr, a) && n.last_seen
                <= sent_at {
                return Some(pos);
            }
            pos = pos + 1;
        }
        None
    }

    /// Whether the node `id` still sits at `addr`, not heard from since
    /// `sent_at`.
    pub fn incumbent_unchanged_since(&self, id: [u8; 20], addr: DhtAddr, sent_at: u64) -> (r: bool)
        ensures
            r == (exists|j: int|
                0 <= j < self.model().1.len() && self.model().1[j].id@ == id@ && self.model().1[j].addr == (DhtAddr {
                    ip: spec_normalize_ip(addr.ip),
                    port: addr.port,
                }) && self.model().1[j].last_seen <= sent_at),
    {
        let a = normalize_dht_addr(addr);
        let mut i: usize = 0;
        while i < self.nodes.len()
            invariant
                i <= self.nodes@.len(),
                a == (DhtAddr { ip: spec_normalize_ip(addr.ip), port: addr.port }),
                forall|j: int| 0 <= j < i ==> !(self.nodes@[j].id@ == id@ && self.nodes@[j].addr == a
                    && self.nodes@[j].last_seen <= sent_at),
            decreases self.nodes@.len() - i,
        {
            let n = self.nodes[i];
            if id_eq(&n.id, &id) && addr_eq(n.addr, a) && n.last_seen <= sent_at {
                assert(self.model().1[i as int] == n);
                return true;
            }
            i = i + 1;
        }
        false
    }
}

} // verus!

verus! {

// ---------------------------------------------------------------------
// Targets for refreshing a bucket
// ---------------------------------------------------------------------

/// Byte `o` of our id with its first `k` bits kept, bit `k` flipped and
/// the bits after it taken from `y`.
pub open spec fn target_byte(o: u8, y: u8, k: u8) -> u8 {
    let bit: u8 = (0x80u8 >> k) as u8;
    let low: u8 = (bit - 1) as u8;
    let high: u8 = (!low & !bit) as u8;
    ((o & high) | (!o & bit) | (y & low)) as u8
}

/// A target in bucket `idx` built from a random id: the first
/// `NUM_BUCKETS - 1 - idx` bits are our id's, the next bit differs from
/// ours, the rest are the random id's.
pub open spec fn spec_bucket_target(own: Seq<u8>, idx: int, random: Seq<u8>) -> Seq<u8> {
    let d = NUM_BUCKETS - 1 - idx;
    let byte = d / 8;
    let k = (d % 8) as u8;
    Seq::new(
        20,
        |i: int|
            if i < byte {
                own[i]
            } else if i == byte {
                target_byte(own[i], random[i], k)
            } else {
                random[i]
            },
    )
}

proof fn lemma_target_byte_lz(o: u8, y: u8, k: u8)
    requires
        k < 8,
    ensures
        byte_leading_zeros(o ^ target_byte(o, y, k)) == k,
        o ^ target_byte(o, y, k) != 0,
{
    let x = o ^ target_byte(o, y, k);
    assert((k == 0 ==> x >= 128) && (k == 1 ==> 64 <= x && x < 128) && (k == 2 ==> 32 <= x && x < 64) && (k == 3
        ==> 16 <= x && x < 32) && (k == 4 ==> 8 <= x && x < 16) && (k == 5 ==> 4 <= x && x < 8) && (k == 6 ==> 2 <= x
        && x < 4) && (k == 7 ==> x == 1)) by (bit_vector)
        requires
            x == o ^ target_byte(o, y, k),
            k < 8,
    ;
}

proof fn lemma_leading_zeros_at(s: Seq<u8>, byte: int)
    requires
        0 <= byte < s.len(),
        forall|i: int| 0 <= i < byte ==> s[i] == 0,
        s[byte] != 0,
    ensures
        spec_leading_zeros(s) == 8 * byte + byte_leading_zeros(s[byte]),
    decreases byte,
{
    if byte > 0 {
        let t = s.drop_first();
        assert forall|i: int| 0 <= i < byte - 1 implies t[i] == 0 by {
            assert(t[i] == s[i + 1]);
        }
        lemma_leading_zeros_at(t, byte - 1);
        assert(s[0] == 0);
    }
}

/// A refresh target made for bucket `idx` lies in that bucket.
pub proof fn lemma_bucket_target_in_bucket(own: Seq<u8>, idx: int, random: Seq<u8>)
    requires
        own.len() == 20,
        random.len() == 20,
        0 <= idx < NUM_BUCKETS,
    ensures
        spec_bucket_index(own, spec_bucket_target(own, idx, random)) == idx,
{
    let t = spec_bucket_target(own, idx, random);
    let d = NUM_BUCKETS - 1 - idx;
    let byte = d / 8;
    let k = (d % 8) as u8;
    let x = Seq::new(20, |i: int| own[i] ^ t[i]);
    assert forall|i: int| 0 <= i < byte implies x[i] == 0 by {
        assert(own[i] ^ own[i] == 0) by (bit_vector);
    }
    lemma_target_byte_lz(own[byte], random[byte], k);
    lemma_leading_zeros_at(x, byte);
}

/// Builds the refresh target of bucket `idx` from a random id (see
/// `spec_bucket_target`).
pub fn bucket_target(own_id: &[u8; 20], bucket_idx: usize, random: [u8; 20]) -> (r: [u8; 20])
    requires
        bucket_idx < NUM_BUCKETS,
    ensures
        r@ == spec_bucket_target(own_id@, bucket_idx as int, random@),
        spec_bucket_index(own_id@, r@) == bucket_idx,
{
    let d = NUM_BUCKETS - 1 - bucket_idx;
    let byte = d / 8;
    let k = (d % 8) as u8;
    let mut target = random;
    let mut i: usize = 0;
    while i < byte
        invariant
            i <= byte < 20,
            forall|j: int| 0 <= j < i ==> target@[j] == own_id@[j],
            forall|j: int| i <= j < 20 ==> target@[j] == random@[j],
        decreases byte - i,
    {
        target.set(i, own_id[i]);
        i = i + 1;
    }
    let bit: u8 = 0x80u8 >> k;
    proof {
        assert(bit >= 1) by (bit_vector)
            requires
                bit == 0x80u8 >> k,
                k < 8,
        ;
    }
    let low: u8 = bit - 1;
    let high: u8 = !low & !bit;
    let o = own_id[byte];
    target.set(byte, (o & high) | (!o & bit) | (random[byte] & low));
    proof {
        assert(target@ =~= spec_bucket_target(own_id@, bucket_idx as int, random@));
        lemma_bucket_target_in_bucket(own_id@, bucket_idx as int, random@);
    }
    target
}

/// A random target in bucket `bucket_idx`, or nothing for a bucket past
/// the last or when the random source fails.
pub fn random_target_for_bucket(own_id: &[u8; 20], bucket_idx: usize) -> (r: Option<[u8; 20]>)
    ensures
        bucket_idx >= NUM_BUCKETS ==> r is None,
        r matches Some(t) ==> bucket_idx < NUM_BUCKETS && spec_bucket_index(own_id@, t@) == bucket_idx,
{
    if bucket_idx >= NUM_BUCKETS {
        return None;
    }
    match crate::krpc::secure_random_id() {
        Some(random) => Some(bucket_target(own_id, bucket_idx, random)),
        None => None,
    }
}

} // verus!

verus! {

// ---------------------------------------------------------------------
// Which bucket to refresh
// ---------------------------------------------------------------------

/// How long a bucket may go without hearing from a node before it is
/// refreshed, in milliseconds.
pub const BUCKET_REFRESH_INTERVAL_MS: u64 = 900_000;

/// How long to wait before trying a bucket's refresh again, in
/// milliseconds.
pub const BUCKET_REFRESH_RETRY_INTERVAL_MS: u64 = 60_000;

/// The time from `t` to `now`, nothing when `t` is later.
pub open spec fn elapsed_since(now: u64, t: u64) -> int {
    if now >= t {
        now - t
    } else {
        0
    }
}

/// A bucket is due for a refresh when it holds a node, has not heard from
/// one for `BUCKET_REFRESH_INTERVAL_MS` and was not tried for
/// `BUCKET_REFRESH_RETRY_INTERVAL_MS`.
pub open spec fn bucket_due(t: TableModel, attempted: Seq<u64>, b: int, now: u64) -> bool {
    &&& count_where(t.1, same_bucket_fn(t.0, b)) > 0
    &&& elapsed_since(now, t.2[b]) >= BUCKET_REFRESH_INTERVAL_MS
    &&& elapsed_since(now, attempted[b]) >= BUCKET_REFRESH_RETRY_INTERVAL_MS
}

/// Among the first `k` buckets that are due, the first whose refresh was
/// tried least recently.
pub open spec fn due_bucket(t: TableModel, attempted: Seq<u64>, now: u64, k: int) -> Option<int>
    decreases k,
{
    if k <= 0 {
        None
    } else {
        let b = due_bucket(t, attempted, now, k - 1);
        if bucket_due(t, attempted, k - 1, now) {
            match b {
                None => Some(k - 1),
                Some(j) => if attempted[k - 1] < attempted[j] {
                    Some(k - 1)
                } else {
                    b
                },
            }
        } else {
            b
        }
    }
}

proof fn lemma_due_bucket_range(t: TableModel, attempted: Seq<u64>, now: u64, k: int)
    requires
        0 <= k,
    ensures
        due_bucket(t, attempted, now, k) matches Some(j) ==> 0 <= j < k,
    decreases k,
{
    if k > 0 {
        lemma_due_bucket_range(t, attempted, now, k - 1);
    }
}

impl RoutingTable {
    /// The bucket to refresh next at `now` (see `due_bucket`), if any.
    pub fn bucket_needing_refresh(&self, now: u64) -> (r: Option<usize>)
        requires
            self.wf(),
        ensures
            match due_bucket(self.model(), self.attempted(), now, NUM_BUCKETS as int) {
                Some(j) => r matches Some(b) && b == j,
                None => r is None,
            },
    {
        let mut best: Option<usize> = None;
        let mut b: usize = 0;
        while b < NUM_BUCKETS
            invariant
                b <= NUM_BUCKETS,
                self.wf(),
                match due_bucket(self.model(), self.attempted(), now, b as int) {
                    Some(j) => best matches Some(x) && x == j,
                    None => best is None,
                },
            decreases NUM_BUCKETS - b,
        {
            proof {
                lemma_due_bucket_range(self.model(), self.attempted(), now, b as int);
            }
            let refreshed = self.refreshed_at[b];
            let attempted = self.refresh_attempted_at[b];
            let since_refresh: u64 = if now >= refreshed {
                now - refreshed
            } else {
                0
            };
            let since_attempt: u64 = if now >= attempted {
                now - attempted
            } else {
                0
            };
            if since_refresh >= BUCKET_REFRESH_INTERVAL_MS && since_attempt >= BUCKET_REFRESH_RETRY_INTERVAL_MS
                && self.count_in_bucket(b) > 0 {
                match best {
                    None => {
                        best = Some(b);
                    },
                    Some(j) => {
                        if attempted < self.refresh_attempted_at[j] {
                            best = Some(b);
                        }
                    },
                }
            }
            b = b + 1;
        }
        best
    }

    /// Marks bucket `idx` as having heard from a node at `now`; a bucket
    /// past the last is ignored.
    pub fn mark_bucket_refreshed(&mut self, idx: usize, now: u64)
        requires
            old(self).wf(),
        ensures
            final(self).wf(),
            final(self).attempted() == old(self).attempted(),
            idx < NUM_BUCKETS ==> final(self).model() == ({
                let (own, nodes, refreshed, failures) = old(self).model();
                (own, nodes, refreshed.update(idx as int, now), failures)
            }),
            idx >= NUM_BUCKETS ==> final(self).model() == old(self).model(),
    {
        if idx < self.refreshed_at.len() {
            self.refreshed_at.set(idx, now);
            proof {
                let t = old(self).model();
                assert forall|b: int| 0 <= b < NUM_BUCKETS implies count_where(self.nodes@, #[trigger] same_bucket_fn(
                    self.own_id@,
                    b,
                )) <= K by {
                    assert(table_wf(t));
                }
            }
        }
    }

    /// Marks a refresh of bucket `idx` as tried at `now`; a bucket past the
    /// last is ignored.
    pub fn mark_bucket_refresh_attempted(&mut self, idx: usize, now: u64)
        requires
            old(self).wf(),
        ensures
            final(self).wf(),
            final(self).model() == old(self).model(),
            idx < NUM_BUCKETS ==> final(self).attempted() == old(self).attempted().update(idx as int, now),
            idx >= NUM_BUCKETS ==> final(self).attempted() == old(self).attempted(),
    {
        if idx < self.refresh_attempted_at.len() {
            self.refresh_attempted_at.set(idx, now);
        }
    }
}

} // verus!

verus! {

// ---------------------------------------------------------------------
// Candidates waiting for a place in a full bucket
// ---------------------------------------------------------------------

/// Most candidates waiting for a place.
pub const MAX_DEFERRED_REPLACEMENTS: usize = 128;

/// How long a waiting candidate stays of use, in milliseconds.
pub const DEFERRED_REPLACEMENT_TTL_MS: u64 = 300_000;

/// A waiting candidate already has the node's id or endpoint.
pub open spec fn queued_clash(q: Seq<TableNode>, c: TableNode) -> bool {
    exists|i: int| 0 <= i < q.len() && (q[i].id@ == c.id@ || q[i].addr == c.addr)
}

/// The waiting candidates heard from within `DEFERRED_REPLACEMENT_TTL_MS`
/// of `now`.
pub open spec fn live_candidates(q: Seq<TableNode>, now: u64) -> Seq<TableNode>
    decreases q.len(),
{
    if q.len() == 0 {
        Seq::empty()
    } else {
        let r = live_candidates(q.drop_last(), now);
        if elapsed_since(now, q.last().last_seen) <= DEFERRED_REPLACEMENT_TTL_MS {
            r.push(q.last())
        } else {
            r
        }
    }
}

/// Among the first `k` nodes, the first heard from least recently.
pub open spec fn oldest_node(q: Seq<TableNode>, k: int) -> int
    decreases k,
{
    if k <= 1 {
        0
    } else {
        let b = oldest_node(q, k - 1);
        if q[k - 1].last_seen < q[b].last_seen {
            k - 1
        } else {
            b
        }
    }
}

proof fn lemma_oldest_node_range(q: Seq<TableNode>, k: int)
    requires
        1 <= k <= q.len(),
    ensures
        0 <= oldest_node(q, k) < k,
    decreases k,
{
    if k > 1 {
        lemma_oldest_node_range(q, k - 1);
    }
}

proof fn lemma_live_len(q: Seq<TableNode>, now: u64)
    ensures
        live_candidates(q, now).len() <= q.len(),
    decreases q.len(),
{
    if q.len() > 0 {
        lemma_live_len(q.drop_last(), now);
    }
}

/// Queueing a candidate (with its endpoint normalized) to wait for a place:
/// one whose id or endpoint is already waiting is dropped; otherwise the
/// stale candidates leave, the oldest one makes room when the queue is
/// full, and the candidate joins at the end.
pub open spec fn spec_queue_deferred(q: Seq<TableNode>, cand: TableNode, now: u64) -> Seq<TableNode> {
    let c = TableNode {
        id: cand.id,
        addr: DhtAddr { ip: spec_normalize_ip(cand.addr.ip), port: cand.addr.port },
        last_seen: cand.last_seen,
    };
    if queued_clash(q, c) {
        q
    } else {
        let l = live_candidates(q, now);
        let l2 = if l.len() >= MAX_DEFERRED_REPLACEMENTS {
            let o = oldest_node(l, l.len() as int);
            l.update(o, l.last()).drop_last()
        } else {
            l
        };
        l2.push(c)
    }
}

/// Queues a candidate to wait for a place (see `spec_queue_deferred`); a
/// queue within its limit stays within it.
pub fn queue_deferred_replacement(queue: &mut Vec<TableNode>, candidate: TableNode, now: u64)
    ensures
        final(queue)@ == spec_queue_deferred(old(queue)@, candidate, now),
        old(queue)@.len() <= MAX_DEFERRED_REPLACEMENTS ==> final(queue)@.len() <= MAX_DEFERRED_REPLACEMENTS,
{
    let c = TableNode { id: candidate.id, addr: normalize_dht_addr(candidate.addr), last_seen: candidate.last_seen };
    let mut i: usize = 0;
    while i < queue.len()
        invariant
            i <= queue@.len(),
            queue@ == old(queue)@,
            c == (TableNode {
                id: candidate.id,
                addr: DhtAddr { ip: spec_normalize_ip(candidate.addr.ip), port: candidate.addr.port },
                last_seen: candidate.last_seen,
            }),
            forall|j: int| 0 <= j < i ==> !(queue@[j].id@ == c.id@ || queue@[j].addr == c.addr),
        decreases queue@.len() - i,
    {
        if id_eq(&queue[i].id, &c.id) || addr_eq(queue[i].addr, c.addr) {
            assert(queued_clash(queue@, c) && queue@[i as int] == queue[i as int]);
            return;
        }
        i = i + 1;
    }
    let ghost q = queue@;
    let mut live: Vec<TableNode> = Vec::new();
    let mut k: usize = 0;
    assert(q.subrange(0, 0) =~= Seq::<TableNode>::empty());
    while k < queue.len()
        invariant
            q == queue@,
            k <= q.len(),
            live@ == live_candidates(q.subrange(0, k as int), now),
        decreases q.len() - k,
    {
        assert(q.subrange(0, k + 1).drop_last() =~= q.subrange(0, k as int));
        let n = queue[k];
        let age: u64 = if now >= n.last_seen {
            now - n.last_seen
        } else {
            0
        };
        if age <= DEFERRED_REPLACEMENT_TTL_MS {
            live.push(n);
        }
        k = k + 1;
    }
    assert(q.subrange(0, k as int) =~= q);
    proof {
        lemma_live_len(q, now);
    }
    if live.len() >= MAX_DEFERRED_REPLACEMENTS {
        let mut b: usize = 0;
        let mut j: usize = 1;
        while j < live.len()
            invariant
                1 <= j <= live@.len(),
                b == oldest_node(live@, j as int),
                b < j,
            decreases live@.len() - j,
        {
            if live[j].last_seen < live[b].last_seen {
                b = j;
            }
            j = j + 1;
        }
        let _ = live.swap_remove(b);
    }
    live.push(c);
    *queue = live;
}

} // verus!
