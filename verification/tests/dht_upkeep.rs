use rustorrent::bencode::Value;
use rustorrent::dht::{bucket_index, DhtAddr, DhtIp, Node, RoutingTable, TableNode};
use rustorrent::krpc::{
    absorb_refresh_answer, close_refresh, maintain_deferred, next_refresh_query, refresh_expired,
    schedule_node_verifications, sort_by_distance, start_refresh, DeferredStep, PendingKind, PendingQuery,
    RefreshLookup, RefreshStep,
};

fn v4(a: u8, b: u8, c: u8, d: u8, port: u16) -> DhtAddr {
    DhtAddr { ip: DhtIp::V4([a, b, c, d]), port }
}

fn mapped(a: u8, b: u8, c: u8, d: u8, port: u16) -> DhtAddr {
    let mut o = [0u8; 16];
    o[10] = 0xff;
    o[11] = 0xff;
    o[12] = a;
    o[13] = b;
    o[14] = c;
    o[15] = d;
    DhtAddr { ip: DhtIp::V6(o), port }
}

fn node(id: u8, addr: DhtAddr) -> Node {
    Node { id: [id; 20], addr }
}

fn awaiting(addr: DhtAddr) -> PendingQuery {
    PendingQuery { tx: b"w".to_vec(), addr, expected_id: None, kind: PendingKind::FindNode, sent_at: 0 }
}

#[test]
fn verification_probes_skip_ourselves_bad_endpoints_and_duplicates() {
    let rt = RoutingTable::new([0u8; 20], 0);
    let candidates = vec![
        node(0, v4(127, 0, 0, 5, 1)),
        node(1, v4(127, 0, 0, 6, 0)),
        node(2, v4(127, 0, 1, 7, 6881)),
        node(3, mapped(127, 0, 1, 7, 6881)),
        node(4, v4(8, 8, 8, 8, 6881)),
        node(5, v4(127, 0, 2, 9, 6881)),
        node(6, mapped(127, 0, 3, 1, 6881)),
    ];
    let chosen = schedule_node_verifications(&candidates, true, 16, &rt, &[awaiting(v4(127, 0, 2, 9, 6881))], &[0u8; 20]);
    assert_eq!(chosen, vec![node(2, v4(127, 0, 1, 7, 6881)), node(6, v4(127, 0, 3, 1, 6881))]);
    // Without local scope, loopback candidates are not probed at all.
    assert!(schedule_node_verifications(&candidates, false, 16, &rt, &[], &[0u8; 20]).is_empty());
    // At most `max` candidates are looked at.
    assert_eq!(schedule_node_verifications(&candidates, true, 3, &rt, &[], &[0u8; 20]), vec![node(2, v4(127, 0, 1, 7, 6881))]);
}

#[test]
fn deferred_candidates_enter_free_buckets_or_wait_for_a_probe() {
    let mut rt = RoutingTable::new([0u8; 20], 0);
    let mut queue: Vec<TableNode> = Vec::new();
    assert!(matches!(maintain_deferred(&mut queue, &mut rt, &[], 10), DeferredStep::Idle));

    let first = TableNode { id: [0x80; 20], addr: v4(127, 0, 9, 1, 6881), last_seen: 5 };
    queue.push(first);
    assert!(matches!(maintain_deferred(&mut queue, &mut rt, &[], 10), DeferredStep::Inserted));
    assert!(queue.is_empty());
    assert!(rt.contains_endpoint(first.addr));

    queue.push(first);
    assert!(matches!(maintain_deferred(&mut queue, &mut rt, &[], 10), DeferredStep::Dropped));
    assert!(queue.is_empty());

    // A candidate older than the time to live leaves the queue unseen.
    queue.push(TableNode { id: [0x81; 20], addr: v4(127, 0, 9, 2, 6881), last_seen: 0 });
    assert!(matches!(maintain_deferred(&mut queue, &mut rt, &[], 300_001), DeferredStep::Idle));
    assert!(queue.is_empty());
}

#[test]
fn a_full_bucket_of_questionable_nodes_gets_a_probe() {
    let mut rt = RoutingTable::new([0u8; 20], 0);
    for i in 0..8u8 {
        let mut id = [0x80u8; 20];
        id[19] = i;
        assert!(rt.insert_verified(TableNode { id, addr: v4(127, 0, 10 + i, 1, 6881), last_seen: 0 }));
    }
    let candidate = TableNode { id: [0xff; 20], addr: v4(127, 0, 100, 1, 6881), last_seen: 1_000_000 };
    let mut queue = vec![candidate];
    match maintain_deferred(&mut queue, &mut rt, &[], 1_000_000) {
        DeferredStep::Probe { incumbent, candidate: c } => {
            assert_eq!(c.id, [0xff; 20]);
            assert_eq!(incumbent.id[0], 0x80);
        }
        _ => panic!("a full bucket of questionable nodes must be probed"),
    }
    assert!(queue.is_empty());

    // The same bucket heard from recently is healthy: the candidate is dropped.
    let mut fresh = RoutingTable::new([0u8; 20], 0);
    for i in 0..8u8 {
        let mut id = [0x80u8; 20];
        id[19] = i;
        assert!(fresh.insert_verified(TableNode { id, addr: v4(127, 0, 10 + i, 1, 6881), last_seen: 999_000 }));
    }
    let mut queue = vec![candidate];
    assert!(matches!(maintain_deferred(&mut queue, &mut fresh, &[], 1_000_000), DeferredStep::Healthy));
    assert!(queue.is_empty());
}

#[test]
fn nodes_sort_by_distance_to_the_target() {
    let target = [0x0fu8; 20];
    let sorted = sort_by_distance(vec![node(0xf0, v4(1, 1, 1, 1, 1)), node(0x0e, v4(2, 2, 2, 2, 2)), node(0x00, v4(3, 3, 3, 3, 3))], &target);
    let ids: Vec<u8> = sorted.iter().map(|n| n.id[0]).collect();
    assert_eq!(ids, vec![0x0e, 0x00, 0xf0]);
}

#[test]
fn a_refresh_lookup_asks_its_candidates_and_finishes() {
    let mut rt = RoutingTable::new([0u8; 20], 0);
    let member = TableNode { id: [0x80; 20], addr: v4(127, 0, 9, 1, 6881), last_seen: 0 };
    assert!(rt.insert_verified(member));
    let idx = bucket_index(&[0u8; 20], &member.id);
    // Too early: no bucket is due.
    assert!(start_refresh(&mut rt, 10).is_none());

    let now = 900_000;
    let mut lookup: RefreshLookup = start_refresh(&mut rt, now).expect("the bucket is due");
    assert_eq!(lookup.bucket_idx, idx);
    assert_eq!(bucket_index(&[0u8; 20], &lookup.target), idx);
    assert_eq!(lookup.deadline, now + 120_000);
    assert_eq!(lookup.candidates, vec![Node { id: member.id, addr: member.addr }]);
    // The attempt was recorded: no second lookup of the bucket within a minute.
    assert!(start_refresh(&mut rt, now + 1).is_none());

    match next_refresh_query(&mut lookup, &rt, &[]) {
        RefreshStep::Ask(n) => assert_eq!(n.addr, member.addr),
        _ => panic!("the candidate must be asked"),
    }
    assert_eq!(lookup.queried, vec![member.addr]);
    lookup.outstanding = 1;
    assert!(matches!(next_refresh_query(&mut lookup, &rt, &[]), RefreshStep::Wait));

    let mut nodes = vec![0xc0u8; 20];
    nodes.extend_from_slice(&[127, 0, 11, 1, 0x1a, 0xe1]);
    let answer = vec![(b"id".to_vec(), Value::Bytes(vec![0x80; 20])), (b"nodes".to_vec(), Value::Bytes(nodes))];
    absorb_refresh_answer(&mut lookup, &answer, member.addr, &[0u8; 20]);
    assert_eq!(lookup.outstanding, 0);
    assert_eq!(lookup.authenticated, 1);
    assert_eq!(lookup.candidates.len(), 2);

    match next_refresh_query(&mut lookup, &rt, &[]) {
        RefreshStep::Ask(n) => assert_eq!(n.addr, v4(127, 0, 11, 1, 6881)),
        _ => panic!("the new candidate must be asked"),
    }
    assert!(matches!(next_refresh_query(&mut lookup, &rt, &[]), RefreshStep::Finished));
    assert!(!refresh_expired(&lookup, now + 119_999));
    assert!(refresh_expired(&lookup, now + 120_000));

    close_refresh(&mut rt, &lookup, now + 10);
    // Refreshed at `now + 10`: not due again before another fifteen minutes.
    assert!(start_refresh(&mut rt, now + 120_000).is_none());
}

#[test]
fn a_refresh_lookup_waits_for_an_awaited_candidate() {
    let mut lookup = RefreshLookup {
        bucket_idx: 0,
        target: [0u8; 20],
        candidates: vec![node(1, v4(127, 0, 0, 1, 1))],
        queried: Vec::new(),
        outstanding: 0,
        authenticated: 0,
        deadline: 10,
    };
    let rt = RoutingTable::new([0u8; 20], 0);
    assert!(matches!(next_refresh_query(&mut lookup, &rt, &[awaiting(v4(127, 0, 0, 1, 1))]), RefreshStep::Wait));
    assert!(lookup.queried.is_empty());
}
