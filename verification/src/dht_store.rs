use vstd::prelude::*;

use crate::dht::{
    addr_eq, id_eq, ip_eq, normalize_dht_addr, normalize_dht_ip, same_network_prefix, spec_normalize_ip,
    spec_same_network_prefix, DhtAddr, DhtIp,
};

verus! {

// ---------------------------------------------------------------------
// Peers announced to this node
// ---------------------------------------------------------------------

/// Most peers kept for one torrent.
pub const MAX_PEERS_PER_TORRENT: usize = 256;

/// Most torrents peers are kept for.
pub const MAX_PEER_STORE_TORRENTS: usize = 1024;

/// Most endpoints of one address kept for one torrent.
pub const MAX_PEER_ENDPOINTS_PER_IP: usize = 2;

/// Most endpoints of one network kept for one torrent.
pub const MAX_PEER_ENDPOINTS_PER_PREFIX: usize = 16;

/// Most torrents one address may be stored for.
pub const MAX_STORED_SWARMS_PER_IP: usize = 32;

/// How long an announced peer is kept, in milliseconds.
pub const PEER_STORE_TTL_MS: u64 = 1_800_000;

/// An announced peer and when it last announced, in milliseconds.
#[derive(Clone, Copy, Debug)]
pub struct StoredPeer {
    pub addr: DhtAddr,
    pub last_seen: u64,
}

/// The peers of one torrent; `last_seen` is when one of them last
/// announced (none for a swarm that was opened but took no peer).
pub struct Swarm {
    pub info_hash: [u8; 20],
    pub peers: Vec<StoredPeer>,
    pub last_seen: Option<u64>,
}

/// Peers announced to this node, by torrent.
pub struct PeerStore {
    swarms: Vec<Swarm>,
}

/// A swarm as a value: its info hash, its peers and its time.
pub type SwarmModel = (Seq<u8>, Seq<StoredPeer>, Option<u64>);

pub open spec fn swarm_model(s: Swarm) -> SwarmModel {
    (s.info_hash@, s.peers@, s.last_seen)
}

pub open spec fn swarms_model(v: Seq<Swarm>) -> Seq<SwarmModel> {
    v.map_values(|s: Swarm| swarm_model(s))
}

/// No two swarms of one torrent, at most `MAX_PEER_STORE_TORRENTS`
/// swarms, at most `MAX_PEERS_PER_TORRENT` peers in each.
pub open spec fn store_wf(m: Seq<SwarmModel>) -> bool {
    &&& m.len() <= MAX_PEER_STORE_TORRENTS
    &&& forall|i: int, j: int| 0 <= i < j < m.len() ==> (#[trigger] m[i]).0 != (#[trigger] m[j]).0
    &&& forall|i: int| 0 <= i < m.len() ==> (#[trigger] m[i]).1.len() <= MAX_PEERS_PER_TORRENT
}

/// A peer still within `PEER_STORE_TTL_MS` of its last announce.
pub open spec fn peer_fresh(p: StoredPeer, now: u64) -> bool {
    now <= p.last_seen || now - p.last_seen <= PEER_STORE_TTL_MS
}

pub open spec fn fresh_peers(ps: Seq<StoredPeer>, now: u64) -> Seq<StoredPeer>
    decreases ps.len(),
{
    if ps.len() == 0 {
        Seq::empty()
    } else {
        let r = fresh_peers(ps.drop_last(), now);
        if peer_fresh(ps.last(), now) {
            r.push(ps.last())
        } else {
            r
        }
    }
}

/// The latest announce among the peers.
pub open spec fn latest_seen(ps: Seq<StoredPeer>) -> u64
    decreases ps.len(),
{
    if ps.len() == 0 {
        0
    } else {
        let r = latest_seen(ps.drop_last());
        if ps.last().last_seen > r {
            ps.last().last_seen
        } else {
            r
        }
    }
}

/// The first swarm of a torrent from position `i` on.
pub open spec fn find_swarm(m: Seq<SwarmModel>, hash: Seq<u8>, i: int) -> Option<int>
    decreases m.len() - i,
{
    if i < 0 || i >= m.len() {
        None
    } else if m[i].0 == hash {
        Some(i)
    } else {
        find_swarm(m, hash, i + 1)
    }
}

/// The first peer at an endpoint from position `i` on.
pub open spec fn find_peer(ps: Seq<StoredPeer>, a: DhtAddr, i: int) -> Option<int>
    decreases ps.len() - i,
{
    if i < 0 || i >= ps.len() {
        None
    } else if ps[i].addr == a {
        Some(i)
    } else {
        find_peer(ps, a, i + 1)
    }
}

/// The peers at an address.
pub open spec fn count_ip(ps: Seq<StoredPeer>, ip: DhtIp) -> nat
    decreases ps.len(),
{
    if ps.len() == 0 {
        0
    } else {
        count_ip(ps.drop_last(), ip) + if spec_normalize_ip(ps.last().addr.ip) == ip {
            1nat
        } else {
            0nat
        }
    }
}

/// The peers in the network of an endpoint.
pub open spec fn count_prefix(ps: Seq<StoredPeer>, a: DhtAddr) -> nat
    decreases ps.len(),
{
    if ps.len() == 0 {
        0
    } else {
        count_prefix(ps.drop_last(), a) + if spec_same_network_prefix(ps.last().addr, a) {
            1nat
        } else {
            0nat
        }
    }
}

/// The swarms that hold a peer at an address.
pub open spec fn swarms_with_ip(m: Seq<SwarmModel>, ip: DhtIp) -> nat
    decreases m.len(),
{
    if m.len() == 0 {
        0
    } else {
        swarms_with_ip(m.drop_last(), ip) + if count_ip(m.last().1, ip) > 0 {
            1nat
        } else {
            0nat
        }
    }
}

/// Among the first `k` peers, the first that announced least recently.
pub open spec fn oldest_peer(ps: Seq<StoredPeer>, k: int) -> int
    decreases k,
{
    if k <= 1 {
        0
    } else {
        let b = oldest_peer(ps, k - 1);
        if ps[k - 1].last_seen < ps[b].last_seen {
            k - 1
        } else {
            b
        }
    }
}

/// Among the first `k` swarms that have a time, the first with the
/// earliest one.
pub open spec fn oldest_swarm(m: Seq<SwarmModel>, k: int) -> Option<int>
    decreases k,
{
    if k <= 0 {
        None
    } else {
        let b = oldest_swarm(m, k - 1);
        match m[k - 1].2 {
            None => b,
            Some(t) => match b {
                None => Some(k - 1),
                Some(j) => match m[j].2 {
                    Some(u) => if t < u {
                        Some(k - 1)
                    } else {
                        b
                    },
                    None => Some(k - 1),
                },
            },
        }
    }
}

/// The swarm given up to make room: the one whose last announce is the
/// earliest, or the first when none has one.
pub open spec fn evict_index(m: Seq<SwarmModel>) -> int {
    match oldest_swarm(m, m.len() as int) {
        Some(j) => j,
        None => 0,
    }
}

/// The store with the expired peers of one torrent dropped, and the swarm
/// dropped when none is left.
pub open spec fn spec_prune_swarm(m: Seq<SwarmModel>, hash: Seq<u8>, now: u64) -> Seq<SwarmModel> {
    match find_swarm(m, hash, 0) {
        None => m,
        Some(i) => {
            let ps = fresh_peers(m[i].1, now);
            if ps.len() == 0 {
                m.remove(i)
            } else {
                m.update(i, (hash, ps, Some(latest_seen(ps))))
            }
        },
    }
}

/// What admitting a peer does, after the torrent's expired peers are
/// dropped; the endpoint is normalized.
pub open spec fn spec_admit_pruned(m: Seq<SwarmModel>, hash: Seq<u8>, addr: DhtAddr, now: u64) -> (
    Seq<SwarmModel>,
    bool,
) {
    let found = find_swarm(m, hash, 0);
    if found is Some && find_peer(m[found->0].1, addr, 0) is Some {
        let i = found->0;
        let j = find_peer(m[i].1, addr, 0)->0;
        (m.update(i, (hash, m[i].1.update(j, StoredPeer { addr: m[i].1[j].addr, last_seen: now }), Some(now))), false)
    } else {
        let ip = addr.ip;
        let in_swarm = found is Some && count_ip(m[found->0].1, ip) > 0;
        if swarms_with_ip(m, ip) >= MAX_STORED_SWARMS_PER_IP && !in_swarm {
            (m, false)
        } else {
            let m2 = if found is None && m.len() >= MAX_PEER_STORE_TORRENTS {
                m.remove(evict_index(m))
            } else {
                m
            };
            let found2 = find_swarm(m2, hash, 0);
            if found2 is None && m2.len() >= MAX_PEER_STORE_TORRENTS {
                (m2, false)
            } else {
                let m3 = if found2 is None {
                    m2.push((hash, Seq::<StoredPeer>::empty(), None::<u64>))
                } else {
                    m2
                };
                let i = if found2 is None {
                    m2.len() as int
                } else {
                    found2->0
                };
                let ps = m3[i].1;
                if count_ip(ps, ip) >= MAX_PEER_ENDPOINTS_PER_IP || count_prefix(ps, addr)
                    >= MAX_PEER_ENDPOINTS_PER_PREFIX {
                    (m3, false)
                } else {
                    let ps2 = if ps.len() >= MAX_PEERS_PER_TORRENT {
                        let k = oldest_peer(ps, ps.len() as int);
                        ps.update(k, ps.last()).drop_last()
                    } else {
                        ps
                    };
                    (m3.update(i, (hash, ps2.push(StoredPeer { addr, last_seen: now }), Some(now))), true)
                }
            }
        }
    }
}

/// Admitting the peer at `addr` for a torrent at time `now`: its expired
/// peers are dropped first; a known endpoint only refreshes its time; a new
/// one is refused when its address already stands in
/// `MAX_STORED_SWARMS_PER_IP` other torrents, when the store is full of
/// other torrents even after giving up the oldest, or when the torrent
/// holds `MAX_PEER_ENDPOINTS_PER_IP` peers of its address or
/// `MAX_PEER_ENDPOINTS_PER_PREFIX` of its network; a full torrent gives up
/// its oldest peer. True when a peer was added.
pub open spec fn spec_admit(m: Seq<SwarmModel>, hash: Seq<u8>, addr: DhtAddr, now: u64) -> (
    Seq<SwarmModel>,
    bool,
) {
    spec_admit_pruned(
        spec_prune_swarm(m, hash, now),
        hash,
        DhtAddr { ip: spec_normalize_ip(addr.ip), port: addr.port },
        now,
    )
}

} // verus!

verus! {

proof fn lemma_find_swarm_from(m: Seq<SwarmModel>, hash: Seq<u8>, i: int)
    requires
        0 <= i <= m.len(),
        forall|j: int| 0 <= j < i ==> (#[trigger] m[j]).0 != hash,
    ensures
        find_swarm(m, hash, 0) == find_swarm(m, hash, i),
    decreases i,
{
    if i > 0 {
        lemma_find_swarm_from(m, hash, i - 1);
    }
}

proof fn lemma_find_swarm_result(m: Seq<SwarmModel>, hash: Seq<u8>, i: int)
    requires
        0 <= i,
    ensures
        find_swarm(m, hash, i) matches Some(k) ==> i <= k < m.len() && m[k].0 == hash,
        find_swarm(m, hash, i) is None ==> forall|j: int| i <= j < m.len() ==> (#[trigger] m[j]).0 != hash,
    decreases m.len() - i,
{
    if i < m.len() {
        lemma_find_swarm_result(m, hash, i + 1);
    }
}

proof fn lemma_find_peer_from(ps: Seq<StoredPeer>, a: DhtAddr, i: int)
    requires
        0 <= i <= ps.len(),
        forall|j: int| 0 <= j < i ==> (#[trigger] ps[j]).addr != a,
    ensures
        find_peer(ps, a, 0) == find_peer(ps, a, i),
    decreases i,
{
    if i > 0 {
        lemma_find_peer_from(ps, a, i - 1);
    }
}

proof fn lemma_find_peer_result(ps: Seq<StoredPeer>, a: DhtAddr, i: int)
    requires
        0 <= i,
    ensures
        find_peer(ps, a, i) matches Some(k) ==> i <= k < ps.len() && ps[k].addr == a,
    decreases ps.len() - i,
{
    if i < ps.len() {
        lemma_find_peer_result(ps, a, i + 1);
    }
}

proof fn lemma_oldest_peer_range(ps: Seq<StoredPeer>, k: int)
    requires
        1 <= k <= ps.len(),
    ensures
        0 <= oldest_peer(ps, k) < k,
    decreases k,
{
    if k > 1 {
        lemma_oldest_peer_range(ps, k - 1);
    }
}

proof fn lemma_oldest_swarm_range(m: Seq<SwarmModel>, k: int)
    requires
        0 <= k <= m.len(),
    ensures
        oldest_swarm(m, k) matches Some(j) ==> 0 <= j < k && m[j].2 is Some,
    decreases k,
{
    if k > 0 {
        lemma_oldest_swarm_range(m, k - 1);
    }
}

fn find_swarm_index(swarms: &Vec<Swarm>, hash: &[u8; 20]) -> (r: Option<usize>)
    ensures
        match find_swarm(swarms_model(swarms@), hash@, 0) {
            Some(i) => r is Some && r->0 == i,
            None => r is None,
        },
{
    let ghost m = swarms_model(swarms@);
    let mut i: usize = 0;
    while i < swarms.len()
        invariant
            i <= swarms@.len(),
            m == swarms_model(swarms@),
            forall|j: int| 0 <= j < i ==> (#[trigger] m[j]).0 != hash@,
        decreases swarms@.len() - i,
    {
        if id_eq(&swarms[i].info_hash, hash) {
            proof {
                lemma_find_swarm_from(m, hash@, i as int);
            }
            return Some(i);
        }
        i = i + 1;
    }
    proof {
        lemma_find_swarm_from(m, hash@, i as int);
    }
    None
}

fn find_peer_index(ps: &[StoredPeer], a: DhtAddr) -> (r: Option<usize>)
    ensures
        match find_peer(ps@, a, 0) {
            Some(i) => r is Some && r->0 == i,
            None => r is None,
        },
{
    let mut i: usize = 0;
    while i < ps.len()
        invariant
            i <= ps@.len(),
            forall|j: int| 0 <= j < i ==> (#[trigger] ps@[j]).addr != a,
        decreases ps@.len() - i,
    {
        if addr_eq(ps[i].addr, a) {
            proof {
                lemma_find_peer_from(ps@, a, i as int);
            }
            return Some(i);
        }
        i = i + 1;
    }
    proof {
        lemma_find_peer_from(ps@, a, i as int);
    }
    None
}

fn count_ip_exec(ps: &[StoredPeer], ip: DhtIp) -> (r: usize)
    ensures
        r == count_ip(ps@, ip),
{
    let mut r: usize = 0;
    let mut k: usize = 0;
    assert(ps@.subrange(0, 0) =~= Seq::<StoredPeer>::empty());
    while k < ps.len()
        invariant
            k <= ps@.len(),
            r <= k,
            r == count_ip(ps@.subrange(0, k as int), ip),
        decreases ps@.len() - k,
    {
        assert(ps@.subrange(0, k + 1).drop_last() =~= ps@.subrange(0, k as int));
        if ip_eq(normalize_dht_ip(ps[k].addr.ip), ip) {
            r = r + 1;
        }
        k = k + 1;
    }
    assert(ps@.subrange(0, k as int) =~= ps@);
    r
}

fn count_prefix_exec(ps: &[StoredPeer], a: DhtAddr) -> (r: usize)
    ensures
        r == count_prefix(ps@, a),
{
    let mut r: usize = 0;
    let mut k: usize = 0;
    assert(ps@.subrange(0, 0) =~= Seq::<StoredPeer>::empty());
    while k < ps.len()
        invariant
            k <= ps@.len(),
            r <= k,
            r == count_prefix(ps@.subrange(0, k as int), a),
        decreases ps@.len() - k,
    {
        assert(ps@.subrange(0, k + 1).drop_last() =~= ps@.subrange(0, k as int));
        if same_network_prefix(ps[k].addr, a) {
            r = r + 1;
        }
        k = k + 1;
    }
    assert(ps@.subrange(0, k as int) =~= ps@);
    r
}

fn swarms_with_ip_exec(swarms: &Vec<Swarm>, ip: DhtIp) -> (r: usize)
    ensures
        r == swarms_with_ip(swarms_model(swarms@), ip),
{
    let ghost m = swarms_model(swarms@);
    let mut r: usize = 0;
    let mut k: usize = 0;
    assert(m.subrange(0, 0) =~= Seq::<SwarmModel>::empty());
    while k < swarms.len()
        invariant
            k <= swarms@.len(),
            m == swarms_model(swarms@),
            r <= k,
            r == swarms_with_ip(m.subrange(0, k as int), ip),
        decreases swarms@.len() - k,
    {
        assert(m.subrange(0, k + 1).drop_last() =~= m.subrange(0, k as int));
        if count_ip_exec(swarms[k].peers.as_slice(), ip) > 0 {
            r = r + 1;
        }
        k = k + 1;
    }
    assert(m.subrange(0, k as int) =~= m);
    r
}

fn oldest_peer_index(ps: &[StoredPeer]) -> (r: usize)
    requires
        ps@.len() > 0,
    ensures
        r == oldest_peer(ps@, ps@.len() as int),
        r < ps@.len(),
{
    let mut b: usize = 0;
    let mut k: usize = 1;
    while k < ps.len()
        invariant
            1 <= k <= ps@.len(),
            b == oldest_peer(ps@, k as int),
            b < k,
        decreases ps@.len() - k,
    {
        if ps[k].last_seen < ps[b].last_seen {
            b = k;
        }
        k = k + 1;
    }
    b
}

fn evict_index_exec(swarms: &Vec<Swarm>) -> (r: usize)
    requires
        swarms@.len() > 0,
    ensures
        r == evict_index(swarms_model(swarms@)),
        r < swarms@.len(),
{
    let ghost m = swarms_model(swarms@);
    let mut best: Option<usize> = None;
    let mut k: usize = 0;
    while k < swarms.len()
        invariant
            k <= swarms@.len(),
            m == swarms_model(swarms@),
            match oldest_swarm(m, k as int) {
                Some(j) => best == Some(j as usize),
                None => best is None,
            },
        decreases swarms@.len() - k,
    {
        proof {
            lemma_oldest_swarm_range(m, k as int);
        }
        match swarms[k].last_seen {
            None => {},
            Some(t) => match best {
                None => {
                    best = Some(k);
                },
                Some(j) => match swarms[j].last_seen {
                    Some(u) => {
                        if t < u {
                            best = Some(k);
                        }
                    },
                    None => {
                        best = Some(k);
                    },
                },
            },
        }
        k = k + 1;
    }
    proof {
        lemma_oldest_swarm_range(m, k as int);
    }
    match best {
        Some(j) => j,
        None => 0,
    }
}

/// The announced peers still fresh at `now`, and the latest announce among
/// them.
fn fresh_of(ps: &[StoredPeer], now: u64) -> (r: (Vec<StoredPeer>, u64))
    ensures
        r.0@ == fresh_peers(ps@, now),
        r.1 == latest_seen(fresh_peers(ps@, now)),
{
    let mut kept: Vec<StoredPeer> = Vec::new();
    let mut latest: u64 = 0;
    let mut k: usize = 0;
    assert(ps@.subrange(0, 0) =~= Seq::<StoredPeer>::empty());
    while k < ps.len()
        invariant
            k <= ps@.len(),
            kept@ == fresh_peers(ps@.subrange(0, k as int), now),
            latest == latest_seen(kept@),
        decreases ps@.len() - k,
    {
        assert(ps@.subrange(0, k + 1).drop_last() =~= ps@.subrange(0, k as int));
        let p = ps[k];
        if now <= p.last_seen || now - p.last_seen <= PEER_STORE_TTL_MS {
            proof {
                assert(kept@.push(p).drop_last() =~= kept@);
            }
            kept.push(p);
            if p.last_seen > latest {
                latest = p.last_seen;
            }
        }
        k = k + 1;
    }
    assert(ps@.subrange(0, k as int) =~= ps@);
    (kept, latest)
}

} // verus!

verus! {

/// The store with every swarm's expired peers dropped, and the swarms left
/// without peers dropped.
pub open spec fn spec_prune_all(m: Seq<SwarmModel>, now: u64) -> Seq<SwarmModel>
    decreases m.len(),
{
    if m.len() == 0 {
        Seq::empty()
    } else {
        let r = spec_prune_all(m.drop_last(), now);
        let ps = fresh_peers(m.last().1, now);
        if ps.len() == 0 {
            r
        } else {
            r.push((m.last().0, ps, Some(latest_seen(ps))))
        }
    }
}

proof fn lemma_fresh_len(ps: Seq<StoredPeer>, now: u64)
    ensures
        fresh_peers(ps, now).len() <= ps.len(),
    decreases ps.len(),
{
    if ps.len() > 0 {
        lemma_fresh_len(ps.drop_last(), now);
    }
}

proof fn lemma_prune_all_wf(m: Seq<SwarmModel>, now: u64)
    requires
        store_wf(m),
    ensures
        store_wf(spec_prune_all(m, now)),
        spec_prune_all(m, now).len() <= m.len(),
        forall|i: int| 0 <= i < spec_prune_all(m, now).len() ==> exists|j: int| 0 <= j < m.len() && (#[trigger] spec_prune_all(m, now)[i]).0 == m[j].0,
    decreases m.len(),
{
    if m.len() > 0 {
        let t = m.drop_last();
        assert(store_wf(t)) by {
            assert forall|i: int, j: int| 0 <= i < j < t.len() implies (#[trigger] t[i]).0 != (#[trigger] t[j]).0 by {
                assert(m[i] == t[i] && m[j] == t[j]);
            }
            assert forall|i: int| 0 <= i < t.len() implies (#[trigger] t[i]).1.len() <= MAX_PEERS_PER_TORRENT by {
                assert(m[i] == t[i]);
            }
        }
        lemma_prune_all_wf(t, now);
        lemma_fresh_len(m.last().1, now);
        assert(m[m.len() - 1].1.len() <= MAX_PEERS_PER_TORRENT);
        let r = spec_prune_all(t, now);
        assert forall|i: int| 0 <= i < r.len() implies (#[trigger] r[i]).0 != m.last().0 by {
            let j = choose|j: int| 0 <= j < t.len() && r[i].0 == t[j].0;
            assert(m[j] == t[j]);
        }
        let res = spec_prune_all(m, now);
        assert forall|i: int| 0 <= i < res.len() implies exists|j: int| 0 <= j < m.len() && (#[trigger] res[i]).0 == m[j].0 by {
            if i < r.len() {
                let j = choose|j: int| 0 <= j < t.len() && r[i].0 == t[j].0;
                assert(m[j] == t[j]);
            } else {
                assert(res[i].0 == m[m.len() - 1].0);
            }
        }
    }
}

impl PeerStore {
    /// The swarms, in order.
    pub closed spec fn model(&self) -> Seq<SwarmModel> {
        swarms_model(self.swarms@)
    }

    /// The store's limits hold (see `store_wf`).
    pub closed spec fn wf(&self) -> bool {
        store_wf(self.model())
    }

    /// An empty store.
    pub fn new() -> (r: Self)
        ensures
            r.model() == Seq::<SwarmModel>::empty(),
            r.wf(),
    {
        let r = PeerStore { swarms: Vec::new() };
        assert(r.model() =~= Seq::<SwarmModel>::empty());
        r
    }

    /// The peers stored for a torrent, if it has a swarm.
    pub fn get(&self, info_hash: &[u8; 20]) -> (r: Option<&[StoredPeer]>)
        ensures
            match find_swarm(self.model(), info_hash@, 0) {
                Some(i) => r matches Some(s) && s@ == self.model()[i].1,
                None => r is None,
            },
    {
        proof {
            lemma_find_swarm_result(self.model(), info_hash@, 0);
        }
        match find_swarm_index(&self.swarms, info_hash) {
            Some(i) => {
                let sl = self.swarms[i].peers.as_slice();
                proof {
                    assert(self.model()[i as int] == swarm_model(self.swarms@[i as int]));
                    assert(sl@ == self.model()[i as int].1);
                    assert(find_swarm(self.model(), info_hash@, 0) == Some(i as int));
                }
                Some(sl)
            },
            None => None,
        }
    }

    /// How many torrents have a swarm.
    pub fn swarm_count(&self) -> (r: usize)
        ensures
            r == self.model().len(),
    {
        self.swarms.len()
    }

    /// Drops a torrent's swarm and hands back its peers.
    pub fn remove(&mut self, info_hash: &[u8; 20]) -> (r: Option<Vec<StoredPeer>>)
        requires
            old(self).wf(),
        ensures
            final(self).wf(),
            match find_swarm(old(self).model(), info_hash@, 0) {
                Some(i) => r matches Some(v) && v@ == old(self).model()[i].1 && final(self).model() == old(
                    self,
                ).model().remove(i),
                None => r is None && final(self).model() == old(self).model(),
            },
    {
        let ghost m = self.model();
        proof {
            lemma_find_swarm_result(m, info_hash@, 0);
        }
        match find_swarm_index(&self.swarms, info_hash) {
            Some(i) => {
                let s = self.swarms.remove(i);
                proof {
                    assert(self.model() =~= m.remove(i as int));
                    assert forall|a: int, b: int| 0 <= a < b < self.model().len() implies (#[trigger] self.model()[a]).0
                        != (#[trigger] self.model()[b]).0 by {
                        if a < i {
                            if b < i {
                                assert(m[b] == self.model()[b]);
                            } else {
                                assert(m[b + 1] == self.model()[b]);
                            }
                        } else {
                            assert(m[a + 1] == self.model()[a]);
                            assert(m[b + 1] == self.model()[b]);
                        }
                    }
                    assert forall|a: int| 0 <= a < self.model().len() implies (#[trigger] self.model()[a]).1.len()
                        <= MAX_PEERS_PER_TORRENT by {
                        if a < i {
                            assert(m[a] == self.model()[a]);
                        } else {
                            assert(m[a + 1] == self.model()[a]);
                        }
                    }
                }
                Some(s.peers)
            },
            None => None,
        }
    }

    /// Drops the expired peers of the swarm at `i`, and the swarm when none
    /// is left.
    fn prune_at(&mut self, i: usize, now: u64)
        requires
            old(self).wf(),
            i < old(self).model().len(),
        ensures
            final(self).wf(),
            final(self).model() == ({
                let m = old(self).model();
                let ps = fresh_peers(m[i as int].1, now);
                if ps.len() == 0 {
                    m.remove(i as int)
                } else {
                    m.update(i as int, (m[i as int].0, ps, Some(latest_seen(ps))))
                }
            }),
    {
        let ghost m = self.model();
        let s = self.swarms.remove(i);
        let (kept, latest) = fresh_of(s.peers.as_slice(), now);
        proof {
            lemma_fresh_len(s.peers@, now);
        }
        if kept.len() > 0 {
            self.swarms.insert(i, Swarm { info_hash: s.info_hash, peers: kept, last_seen: Some(latest) });
        }
        proof {
            let ps = fresh_peers(m[i as int].1, now);
            let res = if ps.len() == 0 {
                m.remove(i as int)
            } else {
                m.update(i as int, (m[i as int].0, ps, Some(latest_seen(ps))))
            };
            assert(self.model() =~= res);
            assert forall|a: int, b: int| 0 <= a < b < res.len() implies (#[trigger] res[a]).0
                != (#[trigger] res[b]).0 by {
                if ps.len() == 0 {
                    if a < i {
                        if b < i {
                            assert(m[b] == res[b]);
                        } else {
                            assert(m[b + 1] == res[b]);
                        }
                    } else {
                        assert(m[a + 1] == res[a]);
                        assert(m[b + 1] == res[b]);
                    }
                } else {
                    assert(res[a].0 == m[a].0 && res[b].0 == m[b].0);
                }
            }
            assert forall|a: int| 0 <= a < res.len() implies (#[trigger] res[a]).1.len() <= MAX_PEERS_PER_TORRENT by {
                if ps.len() == 0 {
                    if a < i {
                        assert(m[a] == res[a]);
                    } else {
                        assert(m[a + 1] == res[a]);
                    }
                } else if a != i {
                    assert(m[a] == res[a]);
                }
            }
        }
    }

    /// Drops the expired peers of one torrent (see `spec_prune_swarm`).
    pub fn prune_swarm(&mut self, info_hash: &[u8; 20], now: u64)
        requires
            old(self).wf(),
        ensures
            final(self).wf(),
            final(self).model() == spec_prune_swarm(old(self).model(), info_hash@, now),
    {
        proof {
            lemma_find_swarm_result(self.model(), info_hash@, 0);
        }
        if let Some(i) = find_swarm_index(&self.swarms, info_hash) {
            self.prune_at(i, now);
        }
    }

    /// Drops the expired peers of every torrent (see `spec_prune_all`).
    pub fn prune_expired(&mut self, now: u64)
        requires
            old(self).wf(),
        ensures
            final(self).wf(),
            final(self).model() == spec_prune_all(old(self).model(), now),
    {
        let ghost m = self.model();
        let mut out: Vec<Swarm> = Vec::new();
        let mut k: usize = 0;
        let n = self.swarms.len();
        assert(m.subrange(0, 0) =~= Seq::<SwarmModel>::empty());
        while self.swarms.len() > 0
            invariant
                n == m.len(),
                k + self.swarms@.len() == m.len(),
                swarms_model(self.swarms@) == m.subrange(k as int, m.len() as int),
                swarms_model(out@) == spec_prune_all(m.subrange(0, k as int), now),
            decreases self.swarms@.len(),
        {
            let ghost before = self.swarms@;
            let ghost out_before = out@;
            let s = self.swarms.remove(0);
            proof {
                assert(m.subrange(0, k + 1).drop_last() =~= m.subrange(0, k as int));
                assert(swarms_model(before)[0] == m[k as int]);
                assert(swarm_model(s) == m[k as int]);
                assert(m.subrange(0, k + 1).last() == m[k as int]);
                assert forall|j: int| 0 <= j < self.swarms@.len() implies swarms_model(self.swarms@)[j]
                    == m.subrange(k + 1, m.len() as int)[j] by {
                    assert(self.swarms@[j] == before[j + 1]);
                    assert(swarms_model(before)[j + 1] == m[k + 1 + j]);
                }
                assert(swarms_model(self.swarms@) =~= m.subrange(k + 1, m.len() as int));
            }
            let (kept, latest) = fresh_of(s.peers.as_slice(), now);
            if kept.len() > 0 {
                out.push(Swarm { info_hash: s.info_hash, peers: kept, last_seen: Some(latest) });
                proof {
                    assert(swarms_model(out@) =~= swarms_model(out_before).push(
                        (s.info_hash@, kept@, Some(latest)),
                    ));
                }
            }
            proof {
                assert(swarms_model(out@) =~= spec_prune_all(m.subrange(0, k + 1), now));
            }
            k = k + 1;
        }
        self.swarms = out;
        proof {
            assert(m.subrange(0, k as int) =~= m);
            lemma_prune_all_wf(m, now);
        }
    }

    /// Gives up the swarm with the earliest last announce.
    fn evict_oldest_swarm(&mut self)
        requires
            old(self).wf(),
            old(self).model().len() > 0,
        ensures
            final(self).wf(),
            final(self).model() == old(self).model().remove(evict_index(old(self).model())),
    {
        let i = evict_index_exec(&self.swarms);
        let ghost m = self.model();
        let _ = self.swarms.remove(i);
        proof {
            assert(self.model() =~= m.remove(i as int));
            let res = m.remove(i as int);
            assert forall|a: int, b: int| 0 <= a < b < res.len() implies (#[trigger] res[a]).0
                != (#[trigger] res[b]).0 by {
                if a < i {
                    if b < i {
                        assert(m[b] == res[b]);
                    } else {
                        assert(m[b + 1] == res[b]);
                    }
                } else {
                    assert(m[a + 1] == res[a]);
                    assert(m[b + 1] == res[b]);
                }
            }
            assert forall|a: int| 0 <= a < res.len() implies (#[trigger] res[a]).1.len() <= MAX_PEERS_PER_TORRENT by {
                if a < i {
                    assert(m[a] == res[a]);
                } else {
                    assert(m[a + 1] == res[a]);
                }
            }
        }
    }
}

} // verus!

verus! {

proof fn lemma_insert_after_remove<T>(v: Seq<T>, i: int, x: T)
    requires
        0 <= i < v.len(),
    ensures
        v.remove(i).insert(i, x) == v.update(i, x),
{
    assert(v.remove(i).insert(i, x) =~= v.update(i, x));
}

/// Replacing one swarm by one of the same torrent with no more peers than
/// the limit keeps the store's limits.
proof fn lemma_update_wf(m: Seq<SwarmModel>, i: int, x: SwarmModel)
    requires
        store_wf(m),
        0 <= i < m.len(),
        x.0 == m[i].0,
        x.1.len() <= MAX_PEERS_PER_TORRENT,
    ensures
        store_wf(m.update(i, x)),
{
    let r = m.update(i, x);
    assert forall|a: int, b: int| 0 <= a < b < r.len() implies (#[trigger] r[a]).0 != (#[trigger] r[b]).0 by {
        assert(r[a].0 == m[a].0 && r[b].0 == m[b].0);
    }
    assert forall|a: int| 0 <= a < r.len() implies (#[trigger] r[a]).1.len() <= MAX_PEERS_PER_TORRENT by {
        if a != i {
            assert(r[a] == m[a]);
        }
    }
}

/// Adding a swarm of a torrent the store does not hold yet keeps its
/// limits while there is room.
proof fn lemma_push_wf(m: Seq<SwarmModel>, hash: Seq<u8>)
    requires
        store_wf(m),
        m.len() < MAX_PEER_STORE_TORRENTS,
        find_swarm(m, hash, 0) is None,
    ensures
        store_wf(m.push((hash, Seq::<StoredPeer>::empty(), None::<u64>))),
{
    lemma_find_swarm_result(m, hash, 0);
    let r = m.push((hash, Seq::<StoredPeer>::empty(), None::<u64>));
    assert forall|a: int, b: int| 0 <= a < b < r.len() implies (#[trigger] r[a]).0 != (#[trigger] r[b]).0 by {
        assert(r[a] == m[a]);
        if b < m.len() {
            assert(r[b] == m[b]);
        }
    }
    assert forall|a: int| 0 <= a < r.len() implies (#[trigger] r[a]).1.len() <= MAX_PEERS_PER_TORRENT by {
        if a < m.len() {
            assert(r[a] == m[a]);
        }
    }
}

impl PeerStore {
    /// Admits the peer at an already normalized `addr` once the torrent's
    /// expired peers are dropped (see `spec_admit_pruned`).
    fn admit_pruned(&mut self, info_hash: [u8; 20], addr: DhtAddr, now: u64) -> (r: bool)
        requires
            old(self).wf(),
        ensures
            final(self).wf(),
            (final(self).model(), r) == spec_admit_pruned(old(self).model(), info_hash@, addr, now),
    {
        let ghost m = self.model();
        proof {
            lemma_find_swarm_result(m, info_hash@, 0);
        }
        let found = find_swarm_index(&self.swarms, &info_hash);
        if let Some(i) = found {
            proof {
                lemma_find_peer_result(m[i as int].1, addr, 0);
                assert(m[i as int] == swarm_model(self.swarms@[i as int]));
            }
            let fp = find_peer_index(self.swarms[i].peers.as_slice(), addr);
            if let Some(j) = fp {
                let mut s = self.swarms.remove(i);
                let old_addr = s.peers[j].addr;
                let ghost ps = s.peers@;
                s.peers.set(j, StoredPeer { addr: old_addr, last_seen: now });
                s.last_seen = Some(now);
                let ghost x = swarm_model(s);
                self.swarms.insert(i, s);
                proof {
                    assert(swarms_model(self.swarms@) =~= m.remove(i as int).insert(i as int, x));
                    lemma_insert_after_remove(m, i as int, x);
                    assert(x == (info_hash@, m[i as int].1.update(j as int, StoredPeer { addr: m[i as int].1[j as int].addr, last_seen: now }), Some(now)));
                    lemma_update_wf(m, i as int, x);
                }
                return false;
            }
        }
        let ip = addr.ip;
        let in_swarm = match found {
            Some(i) => {
                proof {
                    assert(m[i as int] == swarm_model(self.swarms@[i as int]));
                }
                count_ip_exec(self.swarms[i].peers.as_slice(), ip) > 0
            },
            None => false,
        };
        if swarms_with_ip_exec(&self.swarms, ip) >= MAX_STORED_SWARMS_PER_IP && !in_swarm {
            return false;
        }
        if found.is_none() && self.swarms.len() >= MAX_PEER_STORE_TORRENTS {
            self.evict_oldest_swarm();
        }
        let ghost m2 = self.model();
        proof {
            lemma_find_swarm_result(m2, info_hash@, 0);
        }
        let found2 = find_swarm_index(&self.swarms, &info_hash);
        if found2.is_none() && self.swarms.len() >= MAX_PEER_STORE_TORRENTS {
            return false;
        }
        let i = match found2 {
            Some(i) => i,
            None => {
                proof {
                    lemma_push_wf(m2, info_hash@);
                }
                self.swarms.push(Swarm { info_hash, peers: Vec::new(), last_seen: None });
                proof {
                    assert(self.model() =~= m2.push((info_hash@, Seq::<StoredPeer>::empty(), None::<u64>)));
                }
                self.swarms.len() - 1
            },
        };
        let ghost m3 = self.model();
        proof {
            assert(m3[i as int] == swarm_model(self.swarms@[i as int]));
        }
        let mut s = self.swarms.remove(i);
        let ghost ps = s.peers@;
        if count_ip_exec(s.peers.as_slice(), ip) >= MAX_PEER_ENDPOINTS_PER_IP || count_prefix_exec(
            s.peers.as_slice(),
            addr,
        ) >= MAX_PEER_ENDPOINTS_PER_PREFIX {
            self.swarms.insert(i, s);
            proof {
                assert(self.model() =~= m3);
            }
            return false;
        }
        if s.peers.len() >= MAX_PEERS_PER_TORRENT {
            let k = oldest_peer_index(s.peers.as_slice());
            let _ = s.peers.swap_remove(k);
        }
        s.peers.push(StoredPeer { addr, last_seen: now });
        s.last_seen = Some(now);
        let ghost x = swarm_model(s);
        self.swarms.insert(i, s);
        proof {
            assert(swarms_model(self.swarms@) =~= m3.remove(i as int).insert(i as int, x));
            lemma_insert_after_remove(m3, i as int, x);
            lemma_update_wf(m3, i as int, x);
        }
        true
    }

    /// Admits the peer at `addr` for a torrent at time `now` (see
    /// `spec_admit`); true when a peer was added.
    pub fn admit_peer(&mut self, info_hash: [u8; 20], addr: DhtAddr, now: u64) -> (r: bool)
        requires
            old(self).wf(),
        ensures
            final(self).wf(),
            (final(self).model(), r) == spec_admit(old(self).model(), info_hash@, addr, now),
    {
        let addr = normalize_dht_addr(addr);
        self.prune_swarm(&info_hash, now);
        self.admit_pruned(info_hash, addr, now)
    }
}

/// Admits a peer that announced itself (see `PeerStore::admit_peer`).
pub fn admit_announced_peer(peer_store: &mut PeerStore, info_hash: [u8; 20], addr: DhtAddr, now: u64) -> (r: bool)
    requires
        old(peer_store).wf(),
    ensures
        final(peer_store).wf(),
        (final(peer_store).model(), r) == spec_admit(old(peer_store).model(), info_hash@, addr, now),
{
    peer_store.admit_peer(info_hash, addr, now)
}

/// Drops every expired peer (see `PeerStore::prune_expired`).
pub fn prune_peer_store(peer_store: &mut PeerStore, now: u64)
    requires
        old(peer_store).wf(),
    ensures
        final(peer_store).wf(),
        final(peer_store).model() == spec_prune_all(old(peer_store).model(), now),
{
    peer_store.prune_expired(now)
}

} // verus!

verus! {

// ---------------------------------------------------------------------
// How far one source can reach into the store
// ---------------------------------------------------------------------

/// The peers that satisfy `f`.
pub open spec fn count_peers_where(ps: Seq<StoredPeer>, f: spec_fn(StoredPeer) -> bool) -> nat
    decreases ps.len(),
{
    if ps.len() == 0 {
        0
    } else {
        count_peers_where(ps.drop_last(), f) + if f(ps.last()) {
            1nat
        } else {
            0nat
        }
    }
}

pub open spec fn ip_pred(ip: DhtIp) -> spec_fn(StoredPeer) -> bool {
    |p: StoredPeer| spec_normalize_ip(p.addr.ip) == ip
}

pub open spec fn prefix_pred(a: DhtAddr) -> spec_fn(StoredPeer) -> bool {
    |p: StoredPeer| spec_same_network_prefix(p.addr, a)
}

proof fn lemma_count_ip_is(ps: Seq<StoredPeer>, ip: DhtIp)
    ensures
        count_ip(ps, ip) == count_peers_where(ps, ip_pred(ip)),
    decreases ps.len(),
{
    if ps.len() > 0 {
        lemma_count_ip_is(ps.drop_last(), ip);
    }
}

proof fn lemma_count_prefix_is(ps: Seq<StoredPeer>, a: DhtAddr)
    ensures
        count_prefix(ps, a) == count_peers_where(ps, prefix_pred(a)),
    decreases ps.len(),
{
    if ps.len() > 0 {
        lemma_count_prefix_is(ps.drop_last(), a);
    }
}

proof fn lemma_count_update(ps: Seq<StoredPeer>, j: int, x: StoredPeer, f: spec_fn(StoredPeer) -> bool)
    requires
        0 <= j < ps.len(),
    ensures
        count_peers_where(ps.update(j, x), f) + (if f(ps[j]) {
            1int
        } else {
            0int
        }) == count_peers_where(ps, f) + (if f(x) {
            1int
        } else {
            0int
        }),
    decreases ps.len(),
{
    let u = ps.update(j, x);
    if j == ps.len() - 1 {
        assert(u.drop_last() =~= ps.drop_last());
    } else {
        assert(u.drop_last() =~= ps.drop_last().update(j, x));
        lemma_count_update(ps.drop_last(), j, x, f);
    }
}

proof fn lemma_count_fresh(ps: Seq<StoredPeer>, now: u64, f: spec_fn(StoredPeer) -> bool)
    ensures
        count_peers_where(fresh_peers(ps, now), f) <= count_peers_where(ps, f),
    decreases ps.len(),
{
    if ps.len() > 0 {
        lemma_count_fresh(ps.drop_last(), now, f);
        let r = fresh_peers(ps.drop_last(), now);
        assert(r.push(ps.last()).drop_last() =~= r);
    }
}

/// Dropping the peer at `k` the way `Vec::swap_remove` does takes its
/// count off.
proof fn lemma_count_swap_remove(ps: Seq<StoredPeer>, k: int, f: spec_fn(StoredPeer) -> bool)
    requires
        0 <= k < ps.len(),
    ensures
        count_peers_where(ps.update(k, ps.last()).drop_last(), f) + (if f(ps[k]) {
            1int
        } else {
            0int
        }) == count_peers_where(ps, f),
{
    lemma_count_update(ps, k, ps.last(), f);
    let u = ps.update(k, ps.last());
    assert(u.last() == ps.last());
}

/// The swarms that satisfy `f`.
pub open spec fn count_swarms_where(m: Seq<SwarmModel>, f: spec_fn(SwarmModel) -> bool) -> nat
    decreases m.len(),
{
    if m.len() == 0 {
        0
    } else {
        count_swarms_where(m.drop_last(), f) + if f(m.last()) {
            1nat
        } else {
            0nat
        }
    }
}

pub open spec fn holds_ip(ip: DhtIp) -> spec_fn(SwarmModel) -> bool {
    |s: SwarmModel| count_ip(s.1, ip) > 0
}

proof fn lemma_swarms_with_ip_is(m: Seq<SwarmModel>, ip: DhtIp)
    ensures
        swarms_with_ip(m, ip) == count_swarms_where(m, holds_ip(ip)),
    decreases m.len(),
{
    if m.len() > 0 {
        lemma_swarms_with_ip_is(m.drop_last(), ip);
    }
}

proof fn lemma_swarms_update(m: Seq<SwarmModel>, i: int, x: SwarmModel, f: spec_fn(SwarmModel) -> bool)
    requires
        0 <= i < m.len(),
    ensures
        count_swarms_where(m.update(i, x), f) + (if f(m[i]) {
            1int
        } else {
            0int
        }) == count_swarms_where(m, f) + (if f(x) {
            1int
        } else {
            0int
        }),
    decreases m.len(),
{
    let u = m.update(i, x);
    if i == m.len() - 1 {
        assert(u.drop_last() =~= m.drop_last());
    } else {
        assert(u.drop_last() =~= m.drop_last().update(i, x));
        lemma_swarms_update(m.drop_last(), i, x, f);
    }
}

proof fn lemma_swarms_remove(m: Seq<SwarmModel>, i: int, f: spec_fn(SwarmModel) -> bool)
    requires
        0 <= i < m.len(),
    ensures
        count_swarms_where(m.remove(i), f) + (if f(m[i]) {
            1int
        } else {
            0int
        }) == count_swarms_where(m, f),
    decreases m.len(),
{
    if i == m.len() - 1 {
        assert(m.remove(i) =~= m.drop_last());
    } else {
        assert(m.remove(i).drop_last() =~= m.drop_last().remove(i));
        assert(m.remove(i).last() == m.last());
        lemma_swarms_remove(m.drop_last(), i, f);
    }
}

/// Every torrent holds at most `MAX_PEER_ENDPOINTS_PER_IP` peers of one
/// address and `MAX_PEER_ENDPOINTS_PER_PREFIX` of one network.
pub open spec fn swarm_caps(ps: Seq<StoredPeer>) -> bool {
    &&& forall|ip: DhtIp| #[trigger] count_ip(ps, ip) <= MAX_PEER_ENDPOINTS_PER_IP
    &&& forall|a: DhtAddr| #[trigger] count_prefix(ps, a) <= MAX_PEER_ENDPOINTS_PER_PREFIX
}

/// No source reaches further into the store than the limits allow: per
/// torrent (see `swarm_caps`), and in at most `MAX_STORED_SWARMS_PER_IP`
/// torrents per address.
pub open spec fn caps_hold(m: Seq<SwarmModel>) -> bool {
    &&& forall|i: int| 0 <= i < m.len() ==> swarm_caps(#[trigger] m[i].1)
    &&& forall|ip: DhtIp| #[trigger] swarms_with_ip(m, ip) <= MAX_STORED_SWARMS_PER_IP
}

proof fn lemma_caps_remove(m: Seq<SwarmModel>, i: int)
    requires
        caps_hold(m),
        0 <= i < m.len(),
    ensures
        caps_hold(m.remove(i)),
{
    let r = m.remove(i);
    assert forall|a: int| 0 <= a < r.len() implies swarm_caps(#[trigger] r[a].1) by {
        if a < i {
            assert(r[a] == m[a]);
        } else {
            assert(r[a] == m[a + 1]);
        }
    }
    assert forall|ip: DhtIp| #[trigger] swarms_with_ip(r, ip) <= MAX_STORED_SWARMS_PER_IP by {
        lemma_swarms_with_ip_is(r, ip);
        lemma_swarms_with_ip_is(m, ip);
        lemma_swarms_remove(m, i, holds_ip(ip));
        assert(swarms_with_ip(m, ip) <= MAX_STORED_SWARMS_PER_IP);
    }
}

/// Replacing a swarm by one whose counts are no larger keeps the caps.
proof fn lemma_caps_shrink(m: Seq<SwarmModel>, i: int, x: SwarmModel)
    requires
        caps_hold(m),
        0 <= i < m.len(),
        forall|ip: DhtIp| count_ip(x.1, ip) <= count_ip(m[i].1, ip),
        forall|a: DhtAddr| count_prefix(x.1, a) <= count_prefix(m[i].1, a),
    ensures
        caps_hold(m.update(i, x)),
{
    let r = m.update(i, x);
    assert(swarm_caps(m[i].1));
    assert forall|a: int| 0 <= a < r.len() implies swarm_caps(#[trigger] r[a].1) by {
        if a != i {
            assert(r[a] == m[a]);
        } else {
            assert forall|ip: DhtIp| #[trigger] count_ip(x.1, ip) <= MAX_PEER_ENDPOINTS_PER_IP by {
                assert(count_ip(m[i].1, ip) <= MAX_PEER_ENDPOINTS_PER_IP);
            }
            assert forall|b: DhtAddr| #[trigger] count_prefix(x.1, b) <= MAX_PEER_ENDPOINTS_PER_PREFIX by {
                assert(count_prefix(m[i].1, b) <= MAX_PEER_ENDPOINTS_PER_PREFIX);
            }
        }
    }
    assert forall|ip: DhtIp| #[trigger] swarms_with_ip(r, ip) <= MAX_STORED_SWARMS_PER_IP by {
        lemma_swarms_with_ip_is(r, ip);
        lemma_swarms_with_ip_is(m, ip);
        lemma_swarms_update(m, i, x, holds_ip(ip));
        assert(count_ip(x.1, ip) <= count_ip(m[i].1, ip));
        assert(swarms_with_ip(m, ip) <= MAX_STORED_SWARMS_PER_IP);
    }
}

proof fn lemma_caps_prune(m: Seq<SwarmModel>, hash: Seq<u8>, now: u64)
    requires
        caps_hold(m),
    ensures
        caps_hold(spec_prune_swarm(m, hash, now)),
{
    lemma_find_swarm_result(m, hash, 0);
    if let Some(i) = find_swarm(m, hash, 0) {
        let ps = fresh_peers(m[i].1, now);
        if ps.len() == 0 {
            lemma_caps_remove(m, i);
        } else {
            assert forall|ip: DhtIp| count_ip(ps, ip) <= count_ip(m[i].1, ip) by {
                lemma_count_ip_is(ps, ip);
                lemma_count_ip_is(m[i].1, ip);
                lemma_count_fresh(m[i].1, now, ip_pred(ip));
            }
            assert forall|a: DhtAddr| count_prefix(ps, a) <= count_prefix(m[i].1, a) by {
                lemma_count_prefix_is(ps, a);
                lemma_count_prefix_is(m[i].1, a);
                lemma_count_fresh(m[i].1, now, prefix_pred(a));
            }
            lemma_caps_shrink(m, i, (hash, ps, Some(latest_seen(ps))));
        }
    }
}

} // verus!

verus! {

proof fn lemma_find_swarm_absent(m: Seq<SwarmModel>, r: Seq<SwarmModel>, hash: Seq<u8>)
    requires
        find_swarm(m, hash, 0) is None,
        forall|a: int| 0 <= a < r.len() ==> exists|b: int| 0 <= b < m.len() && #[trigger] r[a] == m[b],
    ensures
        find_swarm(r, hash, 0) is None,
{
    lemma_find_swarm_result(m, hash, 0);
    lemma_find_swarm_result(r, hash, 0);
    if let Some(k) = find_swarm(r, hash, 0) {
        let b = choose|b: int| 0 <= b < m.len() && r[k] == m[b];
        assert(m[b].0 == hash);
    }
}

proof fn lemma_caps_push_empty(m: Seq<SwarmModel>, hash: Seq<u8>)
    requires
        caps_hold(m),
    ensures
        caps_hold(m.push((hash, Seq::<StoredPeer>::empty(), None::<u64>))),
        forall|ip: DhtIp| #[trigger] swarms_with_ip(m.push((hash, Seq::<StoredPeer>::empty(), None::<u64>)), ip)
            == swarms_with_ip(m, ip),
{
    let x = (hash, Seq::<StoredPeer>::empty(), None::<u64>);
    let r = m.push(x);
    assert(r.drop_last() =~= m);
    assert forall|a: int| 0 <= a < r.len() implies swarm_caps(#[trigger] r[a].1) by {
        if a < m.len() {
            assert(r[a] == m[a]);
        }
    }
    assert forall|ip: DhtIp| #[trigger] swarms_with_ip(r, ip) == swarms_with_ip(m, ip) by {
        assert(count_ip(x.1, ip) == 0);
    }
}

/// Admitting an already normalized endpoint into a pruned store keeps the
/// caps.
proof fn lemma_caps_admit_pruned(m: Seq<SwarmModel>, hash: Seq<u8>, addr: DhtAddr, now: u64)
    requires
        caps_hold(m),
        spec_normalize_ip(addr.ip) == addr.ip,
    ensures
        caps_hold(spec_admit_pruned(m, hash, addr, now).0),
{
    let found = find_swarm(m, hash, 0);
    lemma_find_swarm_result(m, hash, 0);
    if found is Some && find_peer(m[found->0].1, addr, 0) is Some {
        let i = found->0;
        let ps = m[i].1;
        let j = find_peer(ps, addr, 0)->0;
        lemma_find_peer_result(ps, addr, 0);
        let y = StoredPeer { addr: ps[j].addr, last_seen: now };
        assert forall|ip: DhtIp| count_ip(ps.update(j, y), ip) <= count_ip(ps, ip) by {
            lemma_count_ip_is(ps.update(j, y), ip);
            lemma_count_ip_is(ps, ip);
            lemma_count_update(ps, j, y, ip_pred(ip));
        }
        assert forall|a: DhtAddr| count_prefix(ps.update(j, y), a) <= count_prefix(ps, a) by {
            lemma_count_prefix_is(ps.update(j, y), a);
            lemma_count_prefix_is(ps, a);
            lemma_count_update(ps, j, y, prefix_pred(a));
        }
        lemma_caps_shrink(m, i, (hash, ps.update(j, y), Some(now)));
    } else {
        let ip = addr.ip;
        let in_swarm = found is Some && count_ip(m[found->0].1, ip) > 0;
        if !(swarms_with_ip(m, ip) >= MAX_STORED_SWARMS_PER_IP && !in_swarm) {
            let m2 = if found is None && m.len() >= MAX_PEER_STORE_TORRENTS {
                m.remove(evict_index(m))
            } else {
                m
            };
            if found is None && m.len() >= MAX_PEER_STORE_TORRENTS {
                let e = evict_index(m);
                lemma_oldest_swarm_range(m, m.len() as int);
                lemma_caps_remove(m, e);
                lemma_swarms_with_ip_is(m, ip);
                lemma_swarms_with_ip_is(m2, ip);
                lemma_swarms_remove(m, e, holds_ip(ip));
                assert forall|a: int| 0 <= a < m2.len() implies exists|b: int| 0 <= b < m.len() && #[trigger] m2[a]
                    == m[b] by {
                    if a < e {
                        assert(m2[a] == m[a]);
                    } else {
                        assert(m2[a] == m[a + 1]);
                    }
                }
                lemma_find_swarm_absent(m, m2, hash);
            }
            assert(caps_hold(m2));
            assert(swarms_with_ip(m2, ip) <= swarms_with_ip(m, ip));
            let found2 = find_swarm(m2, hash, 0);
            lemma_find_swarm_result(m2, hash, 0);
            if !(found2 is None && m2.len() >= MAX_PEER_STORE_TORRENTS) {
                let m3 = if found2 is None {
                    m2.push((hash, Seq::<StoredPeer>::empty(), None::<u64>))
                } else {
                    m2
                };
                let i = if found2 is None {
                    m2.len() as int
                } else {
                    found2->0
                };
                if found2 is None {
                    lemma_caps_push_empty(m2, hash);
                }
                assert(caps_hold(m3));
                let ps = m3[i].1;
                assert(swarm_caps(ps));
                if !(count_ip(ps, ip) >= MAX_PEER_ENDPOINTS_PER_IP || count_prefix(ps, addr)
                    >= MAX_PEER_ENDPOINTS_PER_PREFIX) {
                    let ps2 = if ps.len() >= MAX_PEERS_PER_TORRENT {
                        let k = oldest_peer(ps, ps.len() as int);
                        ps.update(k, ps.last()).drop_last()
                    } else {
                        ps
                    };
                    let np = StoredPeer { addr, last_seen: now };
                    let nps = ps2.push(np);
                    assert(nps.drop_last() =~= ps2);
                    assert forall|q: DhtIp| count_ip(ps2, q) <= count_ip(ps, q) by {
                        if ps.len() >= MAX_PEERS_PER_TORRENT {
                            let k = oldest_peer(ps, ps.len() as int);
                            lemma_oldest_peer_range(ps, ps.len() as int);
                            lemma_count_ip_is(ps2, q);
                            lemma_count_ip_is(ps, q);
                            lemma_count_swap_remove(ps, k, ip_pred(q));
                        }
                    }
                    assert forall|b: DhtAddr| count_prefix(ps2, b) <= count_prefix(ps, b) by {
                        if ps.len() >= MAX_PEERS_PER_TORRENT {
                            let k = oldest_peer(ps, ps.len() as int);
                            lemma_oldest_peer_range(ps, ps.len() as int);
                            lemma_count_prefix_is(ps2, b);
                            lemma_count_prefix_is(ps, b);
                            lemma_count_swap_remove(ps, k, prefix_pred(b));
                        }
                    }
                    let x = (hash, nps, Some(now));
                    let r = m3.update(i, x);
                    assert forall|a: int| 0 <= a < r.len() implies swarm_caps(#[trigger] r[a].1) by {
                        if a != i {
                            assert(r[a] == m3[a]);
                        } else {
                            assert forall|q: DhtIp| #[trigger] count_ip(nps, q) <= MAX_PEER_ENDPOINTS_PER_IP by {
                                assert(count_ip(ps2, q) <= count_ip(ps, q));
                                assert(count_ip(ps, q) <= MAX_PEER_ENDPOINTS_PER_IP);
                            }
                            assert forall|b: DhtAddr| #[trigger] count_prefix(nps, b) <= MAX_PEER_ENDPOINTS_PER_PREFIX by {
                                assert(count_prefix(ps2, b) <= count_prefix(ps, b));
                                assert(count_prefix(ps, b) <= MAX_PEER_ENDPOINTS_PER_PREFIX);
                                if spec_same_network_prefix(addr, b) {
                                    assert forall|p: StoredPeer| #[trigger] prefix_pred(b)(p) == prefix_pred(addr)(p) by {
                                        crate::dht::lemma_prefix_equiv(p.addr, b, addr);
                                    }
                                    assert(prefix_pred(b) =~= prefix_pred(addr));
                                    lemma_count_prefix_is(ps, b);
                                    lemma_count_prefix_is(ps, addr);
                                }
                            }
                        }
                    }
                    assert forall|q: DhtIp| #[trigger] swarms_with_ip(r, q) <= MAX_STORED_SWARMS_PER_IP by {
                        lemma_swarms_with_ip_is(r, q);
                        lemma_swarms_with_ip_is(m3, q);
                        lemma_swarms_update(m3, i, x, holds_ip(q));
                        assert(swarms_with_ip(m3, q) <= MAX_STORED_SWARMS_PER_IP);
                        if q != ip {
                            assert(count_ip(nps, q) == count_ip(ps2, q));
                            assert(count_ip(ps2, q) <= count_ip(ps, q));
                        } else if count_ip(ps, q) == 0 {
                            if found is Some {
                                assert(m2 == m);
                                assert(found2 == found);
                            } else {
                                assert(swarms_with_ip(m3, q) == swarms_with_ip(m2, q));
                            }
                            assert(swarms_with_ip(m3, q) < MAX_STORED_SWARMS_PER_IP);
                        }
                    }
                }
            }
        }
    }
}

/// Admitting a peer never lets one source reach further into the store
/// than the limits allow: at most `MAX_PEER_ENDPOINTS_PER_IP` peers of an
/// address and `MAX_PEER_ENDPOINTS_PER_PREFIX` of a network per torrent, and
/// an address in at most `MAX_STORED_SWARMS_PER_IP` torrents.
pub proof fn lemma_admit_keeps_caps(m: Seq<SwarmModel>, hash: Seq<u8>, addr: DhtAddr, now: u64)
    requires
        caps_hold(m),
    ensures
        caps_hold(spec_admit(m, hash, addr, now).0),
{
    lemma_caps_prune(m, hash, now);
    crate::dht::lemma_normalize_ip_idempotent(addr.ip);
    lemma_caps_admit_pruned(
        spec_prune_swarm(m, hash, now),
        hash,
        DhtAddr { ip: spec_normalize_ip(addr.ip), port: addr.port },
        now,
    );
}

} // verus!
