use rustorrent::bencode::{parse, Value};
use rustorrent::dht::{encode_peer, make_token, DhtAddr, DhtIp, RoutingTable, TableNode};
use rustorrent::dht_store::{PeerStore, MAX_STORED_SWARMS_PER_IP, PEER_STORE_TTL_MS};
use rustorrent::krpc::{
    build_announce_peer_query, build_find_node_query, build_get_peers_query, build_ping_query, build_response,
    answer_peers, dict_get, handle_query, accept_response, expire_pending, fail_query, match_response, pick_query_node, FailOutcome, requested_node_families, FollowUp, PendingKind, PendingQuery,
    ResponseMatch, TokenSecrets,
};

fn v4(a: u8, b: u8, c: u8, d: u8, port: u16) -> DhtAddr {
    DhtAddr { ip: DhtIp::V4([a, b, c, d]), port }
}

fn mapped(a: u8, b: u8, c: u8, d: u8, port: u16) -> DhtAddr {
    let mut o = [0u8; 16];
    o[10] = 0xff;
    o[11] = 0xff;
    o[12] = a;
    o[13] = b;
    o[14] = c;
    o[15] = d;
    DhtAddr { ip: DhtIp::V6(o), port }
}

fn bytes(b: &[u8]) -> Value {
    Value::Bytes(b.to_vec())
}

fn entry(k: &[u8], v: Value) -> (Vec<u8>, Value) {
    (k.to_vec(), v)
}

fn secrets() -> TokenSecrets {
    TokenSecrets { current: [8u8; 20], previous: None, rotated_at: 0 }
}

fn decode(b: &[u8]) -> Vec<(Vec<u8>, Value)> {
    match parse(b).unwrap() {
        Value::Dict(d) => d,
        _ => panic!("expected a dictionary"),
    }
}

fn r_fields(b: &[u8]) -> Vec<(Vec<u8>, Value)> {
    match dict_get(&decode(b), b"r") {
        Some(Value::Dict(r)) => r.clone(),
        _ => panic!("expected an answer"),
    }
}

#[test]
fn peer_store_coalesces_duplicates_and_caps_source_influence() {
    let mut store = PeerStore::new();
    let hash = [1u8; 20];
    assert!(store.admit_peer(hash, v4(10, 0, 0, 1, 6001), 1000));
    assert!(!store.admit_peer(hash, v4(10, 0, 0, 1, 6001), 1000));
    assert!(store.admit_peer(hash, v4(10, 0, 0, 1, 6002), 1000));
    assert!(!store.admit_peer(hash, v4(10, 0, 0, 1, 6003), 1000));

    let mut source_limited = PeerStore::new();
    for index in 0..MAX_STORED_SWARMS_PER_IP {
        let mut info_hash = [0u8; 20];
        info_hash[..8].copy_from_slice(&(index as u64).to_be_bytes());
        assert!(source_limited.admit_peer(info_hash, v4(10, 0, 0, 9, 6881), 1000));
    }
    assert!(!source_limited.admit_peer([0xffu8; 20], v4(10, 0, 0, 9, 6881), 1000));
}

#[test]
fn peer_store_normalizes_mapped_peers_and_expires_old_ones() {
    let mut store = PeerStore::new();
    let hash = [2u8; 20];
    assert!(store.admit_peer(hash, mapped(10, 0, 0, 1, 6001), 1000));
    assert!(!store.admit_peer(hash, v4(10, 0, 0, 1, 6001), 2000));
    assert_eq!(store.get(&hash).unwrap()[0].addr, v4(10, 0, 0, 1, 6001));
    assert_eq!(store.get(&hash).unwrap()[0].last_seen, 2000);
    store.prune_expired(2000 + PEER_STORE_TTL_MS + 1);
    assert!(store.get(&hash).is_none());
    assert_eq!(store.swarm_count(), 0);
    assert!(store.admit_peer(hash, v4(10, 0, 0, 1, 6001), 5000));
    assert!(store.remove(&hash).is_some());
    assert!(store.get(&hash).is_none());
}

#[test]
fn bep32_want_controls_returned_node_families() {
    let requester_v4 = v4(127, 0, 0, 1, 6881);
    assert_eq!(requested_node_families(&[], requester_v4), (true, false));
    let wants_both = vec![entry(b"want", Value::List(vec![bytes(b"n6"), bytes(b"n4")]))];
    assert_eq!(requested_node_families(&wants_both, requester_v4), (true, true));
    let wants_v6 = vec![entry(b"want", Value::List(vec![bytes(b"n6")]))];
    assert_eq!(requested_node_families(&wants_v6, requester_v4), (false, true));
    assert_eq!(requested_node_families(&[], mapped(127, 0, 0, 1, 6881)), (true, false));
}

#[test]
fn dht_response_reports_the_requesters_observed_compact_address() {
    let requester = v4(127, 0, 0, 1, 51413);
    let encoded = build_response(&[9u8; 20], b"tx", Vec::new(), requester);
    let response = decode(&encoded);
    assert_eq!(dict_get(&response, b"ip"), Some(&Value::Bytes(encode_peer(requester))));
    assert_eq!(dict_get(&response, b"t"), Some(&bytes(b"tx")));
    assert_eq!(dict_get(&response, b"y"), Some(&bytes(b"r")));
    assert_eq!(r_fields(&encoded), vec![entry(b"id", bytes(&[9u8; 20]))]);
}

#[test]
fn queries_are_encoded_with_sorted_keys() {
    assert_eq!(build_ping_query(&[1u8; 20], b"aa"), {
        let mut v = b"d1:ad2:id20:".to_vec();
        v.extend_from_slice(&[1u8; 20]);
        v.extend_from_slice(b"e1:q4:ping1:t2:aa1:y1:qe");
        v
    });
    let q = decode(&build_get_peers_query(&[1u8; 20], [2u8; 20], b"t1"));
    assert_eq!(dict_get(&q, b"q"), Some(&bytes(b"get_peers")));
    let q = decode(&build_find_node_query(&[1u8; 20], &[3u8; 20], b"t1"));
    assert_eq!(dict_get(&q, b"q"), Some(&bytes(b"find_node")));
    let q = decode(&build_announce_peer_query(&[1u8; 20], [2u8; 20], 6881, b"tok", b"t1"));
    match dict_get(&q, b"a") {
        Some(Value::Dict(a)) => {
            assert_eq!(dict_get(a, b"port"), Some(&Value::Int(6881)));
            assert_eq!(dict_get(a, b"token"), Some(&bytes(b"tok")));
        },
        _ => panic!("expected arguments"),
    }
}

#[test]
fn token_rotation_accepts_only_current_and_previous_secrets() {
    let addr = v4(127, 0, 0, 1, 6881);
    let oldest = [1u8; 20];
    let previous = [2u8; 20];
    let current = [3u8; 20];
    let secrets = TokenSecrets { current, previous: Some(previous), rotated_at: 0 };
    assert!(secrets.verify(&addr, &make_token(&current, &addr)));
    assert!(secrets.verify(&addr, &make_token(&previous, &addr)));
    assert!(!secrets.verify(&addr, &make_token(&oldest, &addr)));
}

#[test]
fn rotation_waits_for_the_interval_and_keeps_the_previous_secret() {
    let mut secrets = TokenSecrets { current: [3u8; 20], previous: None, rotated_at: 1000 };
    secrets.rotate_with(Some([4u8; 20]), 1000 + 299_999);
    assert_eq!(secrets.current, [3u8; 20]);
    assert_eq!(secrets.previous, None);
    secrets.rotate_with(Some([4u8; 20]), 1000 + 300_000);
    assert_eq!(secrets.current, [4u8; 20]);
    assert_eq!(secrets.previous, Some([3u8; 20]));
    assert_eq!(secrets.rotated_at, 301_000);
    secrets.rotate_with(None, 1_000_000);
    assert_eq!(secrets.current, [4u8; 20]);
    assert_eq!(secrets.rotated_at, 1_000_000);
}

#[test]
fn queries_without_a_valid_sender_id_receive_no_response() {
    let query = vec![
        entry(b"t", bytes(b"ping")),
        entry(b"q", bytes(b"ping")),
        entry(b"a", Value::Dict(Vec::new())),
    ];
    let mut rt = RoutingTable::new([0u8; 20], 0);
    let mut store = PeerStore::new();
    let reply = handle_query(&query, v4(127, 0, 0, 1, 6881), &[9u8; 20], &secrets(), &mut rt, &mut store, 0);
    assert!(reply.response.is_none());
    assert!(reply.announced.is_none());
    assert_eq!(rt.node_count(), 0);
}

#[test]
fn ping_is_answered_and_announce_needs_our_token() {
    let requester = v4(10, 0, 0, 7, 40000);
    let mut rt = RoutingTable::new([0u8; 20], 0);
    let mut store = PeerStore::new();
    let ping = vec![
        entry(b"a", Value::Dict(vec![entry(b"id", bytes(&[5u8; 20]))])),
        entry(b"q", bytes(b"ping")),
        entry(b"t", bytes(b"aa")),
        entry(b"y", bytes(b"q")),
    ];
    let reply = handle_query(&ping, requester, &[9u8; 20], &secrets(), &mut rt, &mut store, 0);
    assert_eq!(r_fields(&reply.response.unwrap()), vec![entry(b"id", bytes(&[9u8; 20]))]);

    let get_peers = vec![
        entry(b"a", Value::Dict(vec![entry(b"id", bytes(&[5u8; 20])), entry(b"info_hash", bytes(&[7u8; 20]))])),
        entry(b"q", bytes(b"get_peers")),
        entry(b"t", bytes(b"bb")),
    ];
    let reply = handle_query(&get_peers, requester, &[9u8; 20], &secrets(), &mut rt, &mut store, 0);
    let fields = r_fields(&reply.response.unwrap());
    let token = make_token(&[8u8; 20], &requester);
    assert_eq!(dict_get(&fields, b"token"), Some(&bytes(&token)));
    assert_eq!(dict_get(&fields, b"nodes"), Some(&bytes(b"")));

    let announce = |tok: &[u8]| {
        vec![
            entry(
                b"a",
                Value::Dict(vec![
                    entry(b"id", bytes(&[5u8; 20])),
                    entry(b"implied_port", Value::Int(1)),
                    entry(b"info_hash", bytes(&[7u8; 20])),
                    entry(b"port", Value::Int(6881)),
                    entry(b"token", bytes(tok)),
                ]),
            ),
            entry(b"q", bytes(b"announce_peer")),
            entry(b"t", bytes(b"cc")),
        ]
    };
    let reply = handle_query(&announce(b"bad!"), requester, &[9u8; 20], &secrets(), &mut rt, &mut store, 0);
    assert!(reply.response.is_none());
    assert!(store.get(&[7u8; 20]).is_none());
    let reply = handle_query(&announce(&token), requester, &[9u8; 20], &secrets(), &mut rt, &mut store, 0);
    assert!(reply.response.is_some());
    assert_eq!(reply.announced, Some(([7u8; 20], v4(10, 0, 0, 7, 40000))));

    let reply = handle_query(&get_peers, v4(10, 0, 0, 8, 1), &[9u8; 20], &secrets(), &mut rt, &mut store, 0);
    let fields = r_fields(&reply.response.unwrap());
    assert_eq!(dict_get(&fields, b"values"), Some(&Value::List(vec![bytes(&encode_peer(requester))])));
}

fn response(tx: &[u8], id: &[u8]) -> Vec<(Vec<u8>, Value)> {
    vec![
        (b"r".to_vec(), Value::Dict(vec![(b"id".to_vec(), Value::Bytes(id.to_vec()))])),
        (b"t".to_vec(), Value::Bytes(tx.to_vec())),
        (b"y".to_vec(), Value::Bytes(b"r".to_vec())),
    ]
}

#[test]
fn responses_are_matched_to_pending_queries() {
    let local = v4(127, 0, 0, 1, 6881);
    let pending = vec![
        PendingQuery { tx: b"aa".to_vec(), addr: local, expected_id: None, kind: PendingKind::FindNode, sent_at: 0 },
        PendingQuery { tx: b"bb".to_vec(), addr: local, expected_id: Some([7u8; 20]), kind: PendingKind::VerifyNode, sent_at: 0 },
        PendingQuery { tx: b"cc".to_vec(), addr: v4(127, 0, 0, 2, 6881), expected_id: None, kind: PendingKind::FindNode, sent_at: 0 },
    ];
    assert_eq!(match_response(&response(b"aa", &[5u8; 20]), local, &pending), ResponseMatch::Accept(0, [5u8; 20]));
    assert_eq!(match_response(&response(b"bb", &[5u8; 20]), local, &pending), ResponseMatch::Reject(1));
    assert_eq!(match_response(&response(b"bb", &[7u8; 20]), local, &pending), ResponseMatch::Accept(1, [7u8; 20]));
    assert_eq!(match_response(&response(b"cc", &[5u8; 20]), local, &pending), ResponseMatch::Ignore);
    assert_eq!(match_response(&response(b"zz", &[5u8; 20]), local, &pending), ResponseMatch::Ignore);
    assert_eq!(match_response(&response(b"aa", &[5u8; 19]), local, &pending), ResponseMatch::Ignore);
    assert_eq!(match_response(&response(b"", &[5u8; 20]), local, &pending), ResponseMatch::Ignore);
    let global = v4(8, 8, 8, 8, 6881);
    let far = vec![PendingQuery { tx: b"aa".to_vec(), addr: global, expected_id: None, kind: PendingKind::FindNode, sent_at: 0 }];
    assert_eq!(match_response(&response(b"aa", &[0u8; 20]), global, &far), ResponseMatch::Reject(0));
}

fn compact(a: u8, b: u8, c: u8, d: u8, port: u16) -> Value {
    Value::Bytes(vec![a, b, c, d, (port >> 8) as u8, port as u8])
}

#[test]
fn answer_peers_are_sorted_unique_and_in_scope() {
    let responder = v4(1, 1, 1, 1, 6881);
    let r = vec![(
        b"values".to_vec(),
        Value::List(vec![
            compact(9, 9, 9, 9, 1),
            compact(8, 8, 8, 8, 6881),
            compact(8, 8, 8, 8, 6881),
            compact(8, 8, 8, 8, 7),
            compact(127, 0, 0, 1, 80),
            compact(8, 8, 4, 4, 0),
            Value::Bytes(vec![1, 2, 3, 4, 5]),
            Value::Int(3),
        ]),
    )];
    assert_eq!(
        answer_peers(&r, responder),
        vec![v4(8, 8, 8, 8, 7), v4(8, 8, 8, 8, 6881), v4(9, 9, 9, 9, 1)]
    );
    assert!(answer_peers(&[], responder).is_empty());

    let many: Vec<Value> = (0..300u16).rev().map(|i| compact(8, 8, (i >> 8) as u8, i as u8, 100)).collect();
    let got = answer_peers(&[(b"values".to_vec(), Value::List(many))], responder);
    assert_eq!(got.len(), 256);
    assert_eq!(got[0], v4(8, 8, 0, 0, 100));
    assert_eq!(got[255], v4(8, 8, 0, 255, 100));
}

#[test]
fn accepted_responses_update_the_table_and_yield_follow_ups() {
    let local = v4(127, 0, 0, 1, 6881);
    let mut rt = RoutingTable::new([0u8; 20], 0);
    let mut deferred: Vec<TableNode> = Vec::new();
    let mut nodes = vec![3u8; 20];
    nodes.extend_from_slice(&[127, 0, 0, 2, 0x1a, 0xe1]);
    let r = vec![
        (b"id".to_vec(), Value::Bytes(vec![5u8; 20])),
        (b"nodes".to_vec(), Value::Bytes(nodes)),
        (b"token".to_vec(), Value::Bytes(b"tok".to_vec())),
        (b"values".to_vec(), Value::List(vec![compact(127, 0, 0, 9, 80)])),
    ];
    let query = PendingQuery { tx: b"aa".to_vec(), addr: local, expected_id: None, kind: PendingKind::GetPeers([9u8; 20]), sent_at: 0 };
    match accept_response(&r, &query, [5u8; 20], &mut rt, &mut deferred, 10) {
        FollowUp::Lookup { candidates, peers: Some((hash, peers, token)) } => {
            assert_eq!(candidates.len(), 1);
            assert_eq!(candidates[0].id, [3u8; 20]);
            assert_eq!(candidates[0].addr, v4(127, 0, 0, 2, 6881));
            assert_eq!(hash, [9u8; 20]);
            assert_eq!(peers, vec![v4(127, 0, 0, 9, 80)]);
            assert_eq!(token, Some(b"tok".to_vec()));
        }
        _ => panic!("a peer lookup answer must yield a lookup step"),
    }
    assert_eq!(rt.node_count(), 1);
    assert!(rt.contains_endpoint(local));
    assert!(deferred.is_empty());

    let refresh = PendingQuery { tx: b"bb".to_vec(), addr: local, expected_id: None, kind: PendingKind::RefreshBucket(4), sent_at: 0 };
    assert!(matches!(accept_response(&r, &refresh, [5u8; 20], &mut rt, &mut deferred, 11), FollowUp::Refresh(4)));
    let candidate = TableNode { id: [8u8; 20], addr: v4(127, 0, 0, 3, 1), last_seen: 12 };
    let replace = PendingQuery { tx: b"cc".to_vec(), addr: local, expected_id: None, kind: PendingKind::ReplaceNode { candidate, attempt: 0, probe_started_at: 0 }, sent_at: 0 };
    assert!(matches!(accept_response(&r, &replace, [5u8; 20], &mut rt, &mut deferred, 12), FollowUp::Done));
    assert_eq!(deferred.len(), 1);
    assert_eq!(deferred[0].id, [8u8; 20]);
}

#[test]
fn lookups_go_round_the_closest_nodes_skipping_awaited_ones() {
    let nodes: Vec<TableNode> =
        (1..=3u8).map(|i| TableNode { id: [i; 20], addr: v4(10, 0, 0, i, 6881), last_seen: 0 }).collect();
    assert_eq!(pick_query_node(&nodes, &[], 0), Some(0));
    assert_eq!(pick_query_node(&nodes, &[], 4), Some(1));
    let busy = vec![PendingQuery { tx: b"x".to_vec(), addr: v4(10, 0, 0, 2, 6881), expected_id: None, kind: PendingKind::FindNode, sent_at: 0 }];
    assert_eq!(pick_query_node(&nodes, &busy, 1), Some(2));
    assert_eq!(pick_query_node(&nodes[1..2], &busy, 0), None);
    assert_eq!(pick_query_node(&[], &[], 0), None);
    let full: Vec<PendingQuery> = (0..1024u16)
        .map(|i| PendingQuery { tx: i.to_be_bytes().to_vec(), addr: v4(9, 9, 9, 9, i + 1), expected_id: None, kind: PendingKind::FindNode, sent_at: 0 })
        .collect();
    assert_eq!(pick_query_node(&nodes, &full, 0), None);
}

#[test]
fn failed_queries_retry_replace_or_defer() {
    let mut rt = RoutingTable::new([0u8; 20], 0);
    let mut deferred: Vec<TableNode> = Vec::new();
    let incumbent = v4(127, 0, 0, 1, 6881);
    let candidate = TableNode { id: [8u8; 20], addr: v4(127, 0, 0, 3, 1), last_seen: 5 };
    let probe = |attempt: u8| PendingQuery {
        tx: b"p".to_vec(),
        addr: incumbent,
        expected_id: Some([4u8; 20]),
        kind: PendingKind::ReplaceNode { candidate, attempt, probe_started_at: 100 },
        sent_at: 100,
    };
    // The incumbent is not in the table, so no second probe: the candidate waits.
    assert!(matches!(fail_query(&mut rt, &probe(0), &mut deferred, 0, 200), FailOutcome::Deferred));
    assert_eq!(deferred.len(), 1);

    let refresh = PendingQuery { tx: b"r".to_vec(), addr: incumbent, expected_id: None, kind: PendingKind::RefreshBucket(9), sent_at: 1 };
    assert!(matches!(fail_query(&mut rt, &refresh, &mut deferred, 0, 200), FailOutcome::RefreshMissed(9)));
    let lookup = PendingQuery { tx: b"l".to_vec(), addr: incumbent, expected_id: None, kind: PendingKind::FindNode, sent_at: 1 };
    assert!(matches!(fail_query(&mut rt, &lookup, &mut deferred, 0, 200), FailOutcome::Recorded));
    assert_eq!(deferred.len(), 1);
}

#[test]
fn pending_queries_expire_after_thirty_seconds() {
    let q = |tx: u8, sent_at: u64| PendingQuery {
        tx: vec![tx],
        addr: v4(127, 0, 0, 1, 1),
        expected_id: None,
        kind: PendingKind::FindNode,
        sent_at,
    };
    let (kept, expired) = expire_pending(vec![q(1, 0), q(2, 20_000), q(3, 50_000), q(4, 19_999)], 50_000);
    let kept: Vec<u8> = kept.iter().map(|p| p.tx[0]).collect();
    let expired: Vec<u8> = expired.iter().map(|p| p.tx[0]).collect();
    assert_eq!(kept, vec![2, 3]);
    assert_eq!(expired, vec![1, 4]);
}
