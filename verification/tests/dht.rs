use rustorrent::dht::{
    acquire_bootstrap_resolver_slot, bucket_index, crc32c, decode_nodes, decode_nodes6, decode_peer_value,
    decode_peers, dht_address_scope_allowed, encode_peer, encode_peers, is_global_dht_address,
    is_local_dht_address, leading_zeros, make_token, node_id_matches_address, normalize_dht_ip,
    same_network_prefix, verify_token, xor_distance, DhtAddr, DhtIp, RoutingTable, TableNode, MAX_NODES_PER_PREFIX,
};
use rustorrent::dht::{
    QueryRateLimiter, MAX_QUERIES_PER_WINDOW_GLOBAL, MAX_QUERIES_PER_WINDOW_IP, MAX_QUERIES_PER_WINDOW_PREFIX,
    QUERY_RATE_WINDOW_MS,
};
use rustorrent::dht::{decode_legacy_nodes, decode_nodes_type_prefixed, encode_saved_nodes, node_cache_candidates};
use rustorrent::dht::{
    bucket_target, queue_deferred_replacement, random_target_for_bucket, BUCKET_REFRESH_INTERVAL_MS,
    DEFERRED_REPLACEMENT_TTL_MS, MAX_DEFERRED_REPLACEMENTS,
};
use std::sync::atomic::AtomicBool;

fn v4(a: u8, b: u8, c: u8, d: u8, port: u16) -> DhtAddr {
    DhtAddr { ip: DhtIp::V4([a, b, c, d]), port }
}

fn v6(segments: [u16; 8], port: u16) -> DhtAddr {
    let mut o = [0u8; 16];
    for (i, s) in segments.iter().enumerate() {
        o[2 * i] = (s >> 8) as u8;
        o[2 * i + 1] = *s as u8;
    }
    DhtAddr { ip: DhtIp::V6(o), port }
}

fn mapped(a: u8, b: u8, c: u8, d: u8, port: u16) -> DhtAddr {
    v6([0, 0, 0, 0, 0, 0xffff, ((a as u16) << 8) | b as u16, ((c as u16) << 8) | d as u16], port)
}

fn node_id_from_hex(hex: &str) -> [u8; 20] {
    assert_eq!(hex.len(), 40);
    let mut id = [0u8; 20];
    for (index, byte) in id.iter_mut().enumerate() {
        *byte = u8::from_str_radix(&hex[index * 2..index * 2 + 2], 16).unwrap();
    }
    id
}

#[test]
fn distance_helpers_work_for_extremes() {
    let a = [0u8; 20];
    let mut b = [0u8; 20];
    b[0] = 0x10;
    let dist = xor_distance(&a, &b);
    assert_eq!(dist[0], 0x10);
    assert_eq!(leading_zeros(&dist), 3);
    assert_eq!(leading_zeros(&[0u8; 20]), 160);
}

#[test]
fn resolver_slots_are_independent_per_bootstrap_host() {
    let first = AtomicBool::new(false);
    let second = AtomicBool::new(false);
    assert!(acquire_bootstrap_resolver_slot(&first));
    assert!(!acquire_bootstrap_resolver_slot(&first));
    assert!(acquire_bootstrap_resolver_slot(&second));
}

#[test]
fn bep42_official_ipv4_vectors_are_accepted() {
    let vectors = [
        (v4(124, 31, 75, 21, 6881), "5fbfbff10c5d6a4ec8a88e4c6ab4c28b95eee401"),
        (v4(21, 75, 31, 124, 6881), "5a3ce9c14e7a08645677bbd1cfe7d8f956d53256"),
        (v4(65, 23, 51, 170, 6881), "a5d43220bc8f112a3d426c84764f8c2a1150e616"),
        (v4(84, 124, 73, 14, 6881), "1b0321dd1bb1fe518101ceef99462b947a01ff41"),
        (v4(43, 213, 53, 83, 6881), "e56f6cbf5b7c4be0237986d5243b87aa6d51305a"),
    ];
    for (addr, id) in vectors {
        assert!(node_id_matches_address(&node_id_from_hex(id), addr));
    }

    let addr = v4(124, 31, 75, 21, 6881);
    let mut tampered = node_id_from_hex("5fbfbff10c5d6a4ec8a88e4c6ab4c28b95eee401");
    tampered[0] ^= 0x80;
    assert!(!node_id_matches_address(&tampered, addr));
    assert!(node_id_matches_address(&[0xabu8; 20], v4(127, 0, 0, 1, 6881)));
    assert!(node_id_matches_address(
        &node_id_from_hex("5fbfbff10c5d6a4ec8a88e4c6ab4c28b95eee401"),
        mapped(124, 31, 75, 21, 6881)
    ));
    assert!(same_network_prefix(v4(124, 31, 75, 1, 1), mapped(124, 31, 75, 2, 2)));
}

#[test]
fn dht_scope_rejects_ipv6_translation_and_special_use_ranges() {
    assert!(is_global_dht_address(v6([0x2001, 0x4860, 0x4860, 0, 0, 0, 0, 0x8888], 0).ip));
    assert!(is_global_dht_address(mapped(8, 8, 8, 8, 0).ip));
    assert!(is_local_dht_address(mapped(192, 168, 1, 1, 0).ip));
    for special in [
        [0x64, 0xff9b, 0, 0, 0, 0, 0xc0a8, 0x1],
        [0x64, 0xff9b, 1, 0, 0, 0, 0xc0a8, 0x1],
        [0, 0, 0, 0, 0, 0, 0xc0a8, 0x0101],
        [0x2001, 0xdb8, 0, 0, 0, 0, 0, 1],
        [0x2002, 0xc0a8, 0x101, 0, 0, 0, 0, 1],
        [0x3fff, 0, 0, 0, 0, 0, 0, 1],
    ] {
        assert!(!is_global_dht_address(v6(special, 0).ip), "{special:?}");
    }
}

#[test]
fn peer_codec_roundtrip_skips_ipv6_and_trailing_bytes() {
    let peers = vec![
        v4(127, 0, 0, 1, 6881),
        v4(10, 0, 0, 2, 80),
        v6([0x2001, 0xdb8, 0, 0, 0, 0, 0, 1], 51413),
    ];
    let encoded = encode_peers(&peers);
    assert_eq!(encoded.len(), 12);
    let mut encoded_with_trailing = encoded.clone();
    encoded_with_trailing.push(0xFF);
    let decoded = decode_peers(&encoded_with_trailing);
    assert_eq!(decoded.len(), 2);
    assert_eq!(decoded[0], v4(127, 0, 0, 1, 6881));
    assert_eq!(decoded[1], v4(10, 0, 0, 2, 80));
}

#[test]
fn decode_nodes_ignores_partial_tail() {
    let mut bytes = Vec::new();
    bytes.extend_from_slice(&[1u8; 20]);
    bytes.extend_from_slice(&[192, 0, 2, 10]);
    bytes.extend_from_slice(&6881u16.to_be_bytes());
    bytes.extend_from_slice(&[9, 9, 9]);

    let nodes = decode_nodes(&bytes);
    assert_eq!(nodes.len(), 1);
    assert_eq!(nodes[0].addr, v4(192, 0, 2, 10, 6881));
    assert_eq!(nodes[0].id, [1u8; 20]);
}

#[test]
fn token_verification_depends_on_address() {
    let secret = [7u8; 20];
    let addr_a = v4(203, 0, 113, 2, 51413);
    let addr_b = v4(203, 0, 113, 3, 51413);
    let token = make_token(&secret, &addr_a);
    assert!(verify_token(&secret, &addr_a, &token));
    assert!(!verify_token(&secret, &addr_b, &token));
    assert!(!verify_token(&secret, &addr_a, &[token[0], token[1], token[2]]));
    assert!(!verify_token(&secret, &addr_a, &[token[0], token[1], token[2], token[3], 0]));
}

#[test]
fn token_ignores_the_port_and_mapping() {
    let secret = [3u8; 20];
    let token = make_token(&secret, &v4(8, 8, 4, 4, 1));
    assert_eq!(token, make_token(&secret, &v4(8, 8, 4, 4, 2)));
    assert_eq!(token, make_token(&secret, &mapped(8, 8, 4, 4, 3)));
}

#[test]
fn bucket_index_counts_shared_prefix_bits() {
    let own = [0u8; 20];
    let mut id = [0u8; 20];
    id[0] = 0x80;
    assert_eq!(bucket_index(&own, &id), 159);
    id[0] = 0x01;
    assert_eq!(bucket_index(&own, &id), 152);
    assert_eq!(bucket_index(&own, &own), 159);
    let mut last = [0u8; 20];
    last[19] = 1;
    assert_eq!(bucket_index(&own, &last), 0);
}

#[test]
fn crc32c_matches_the_standard_check_value() {
    assert_eq!(crc32c(b"123456789"), 0xe306_9283);
    assert_eq!(crc32c(b""), 0);
}

#[test]
fn mapped_addresses_normalize_to_ipv4() {
    assert_eq!(normalize_dht_ip(mapped(1, 2, 3, 4, 0).ip), DhtIp::V4([1, 2, 3, 4]));
    let plain = v6([0x2001, 0x4860, 0, 0, 0, 0, 0, 1], 0).ip;
    assert_eq!(normalize_dht_ip(plain), plain);
}

#[test]
fn peer_values_and_nodes6_decode_normalized() {
    let mut six = vec![8, 8, 8, 8];
    six.extend_from_slice(&6881u16.to_be_bytes());
    assert_eq!(decode_peer_value(&six), Some(v4(8, 8, 8, 8, 6881)));
    assert_eq!(decode_peer_value(&[8, 8, 8, 8, 0, 0]), None);
    assert_eq!(decode_peer_value(&[1, 2, 3]), None);
    let mapped_peer = encode_peer(mapped(9, 9, 9, 9, 7));
    assert_eq!(mapped_peer, vec![9, 9, 9, 9, 0, 7]);
    let mut eighteen = vec![0u8; 10];
    eighteen.extend_from_slice(&[0xff, 0xff, 1, 2, 3, 4, 0, 9]);
    assert_eq!(decode_peer_value(&eighteen), Some(v4(1, 2, 3, 4, 9)));

    let mut record = vec![5u8; 20];
    record.extend_from_slice(&[0x20, 0x01, 0x48, 0x60, 0, 0, 0, 0, 0, 0, 0, 0, 0, 0, 0, 1]);
    record.extend_from_slice(&[0x1a, 0xe1]);
    record.push(0);
    let nodes = decode_nodes6(&record);
    assert_eq!(nodes.len(), 1);
    assert_eq!(nodes[0].addr, v6([0x2001, 0x4860, 0, 0, 0, 0, 0, 1], 6881));
}

#[test]
fn scope_rules_keep_public_responders_away_from_local_nodes() {
    let local = v4(192, 168, 1, 5, 1);
    let public = v4(8, 8, 8, 8, 1);
    assert!(dht_address_scope_allowed(local, public));
    assert!(dht_address_scope_allowed(local, local));
    assert!(dht_address_scope_allowed(public, public));
    assert!(!dht_address_scope_allowed(public, local));
    assert!(!dht_address_scope_allowed(v4(0, 0, 0, 0, 1), public));
}

fn node(id_byte: u8, ip: [u8; 4], port: u16) -> TableNode {
    let mut id = [0u8; 20];
    id[0] = id_byte;
    TableNode { id, addr: v4(ip[0], ip[1], ip[2], ip[3], port), last_seen: 1 }
}

#[test]
fn routing_table_returns_closest_nodes_and_encoded_limit() {
    let mut rt = RoutingTable::new([0u8; 20], 0);
    for i in 1..=10u8 {
        rt.insert(node(i, [10, i, 0, 1], 6000 + i as u16));
    }

    let target = [0u8; 20];
    let closest = rt.closest(&target, 3);
    assert_eq!(closest.len(), 3);
    assert!(closest[0].id[0] <= closest[1].id[0]);

    let encoded = rt.encode_closest_nodes(&target, v4(127, 0, 0, 1, 6881));
    assert_eq!(encoded.len(), 26 * 8);
}

#[test]
fn routing_table_limits_endpoint_and_network_concentration() {
    let mut rt = RoutingTable::new([0u8; 20], 0);
    for i in 1..=8u8 {
        rt.insert(node(i, [10, 42, 7, i], 6000 + i as u16));
    }
    assert_eq!(rt.node_count(), MAX_NODES_PER_PREFIX);

    let duplicate_endpoint = node(99, [10, 42, 7, 1], 6001);
    rt.insert(duplicate_endpoint);
    assert_eq!(rt.node_count(), MAX_NODES_PER_PREFIX);

    rt.insert(node(100, [10, 43, 7, 1], 7001));
    assert_eq!(rt.node_count(), MAX_NODES_PER_PREFIX + 1);
}

#[test]
fn ipv4_compact_nodes_do_not_include_partial_ipv6_records() {
    let mut rt = RoutingTable::new([0u8; 20], 0);
    rt.insert(node(1, [8, 8, 8, 1], 6881));
    let mut ipv6_id = [0u8; 20];
    ipv6_id[0] = 2;
    rt.insert(TableNode { id: ipv6_id, addr: v6([0x2001, 0xdb8, 0, 0, 0, 0, 0, 1], 6881), last_seen: 1 });
    let encoded = rt.encode_closest_nodes(&[0u8; 20], v4(127, 0, 0, 1, 6881));
    assert_eq!(encoded.len(), 26);
    assert_eq!(decode_nodes(&encoded).len(), 1);
}

#[test]
fn closest_nodes_come_nearest_first_and_ids_are_unique() {
    let mut rt = RoutingTable::new([0u8; 20], 0);
    for i in [9u8, 3, 7, 1, 5] {
        rt.insert(node(i, [i, 1, 1, 1], 7000));
    }
    let again = node(3, [3, 1, 1, 1], 7000);
    rt.insert(again);
    assert_eq!(rt.node_count(), 5);
    let moved = node(3, [4, 1, 1, 1], 7000);
    rt.insert(moved);
    assert_eq!(rt.node_count(), 5);
    let order: Vec<u8> = rt.closest(&[0u8; 20], 10).iter().map(|n| n.id[0]).collect();
    assert_eq!(order, vec![1, 3, 5, 7, 9]);
    let mut near = [0u8; 20];
    near[0] = 8;
    let order: Vec<u8> = rt.closest(&near, 2).iter().map(|n| n.id[0]).collect();
    assert_eq!(order, vec![9, 1]);
}

#[test]
fn nodes_are_dropped_after_two_failures_and_refresh_resets_them() {
    let mut rt = RoutingTable::new([0u8; 20], 0);
    let n = node(1, [10, 0, 0, 1], 6881);
    rt.insert(n);
    rt.record_query_failure(n.addr, 5);
    assert_eq!(rt.node_count(), 1);
    assert!(rt.refresh_verified(&n.id, n.addr, 10));
    rt.record_query_failure(n.addr, 5);
    assert_eq!(rt.node_count(), 1);
    rt.record_query_failure(n.addr, 20);
    assert_eq!(rt.node_count(), 1);
    rt.record_query_failure(n.addr, 20);
    assert_eq!(rt.node_count(), 0);
    assert!(!rt.refresh_verified(&n.id, n.addr, 30));
}

#[test]
fn own_id_port_zero_and_unspecified_nodes_are_ignored() {
    let own = [7u8; 20];
    let mut rt = RoutingTable::new(own, 0);
    rt.insert(TableNode { id: own, addr: v4(1, 2, 3, 4, 5), last_seen: 1 });
    rt.insert(node(1, [1, 2, 3, 4], 0));
    rt.insert(node(2, [0, 0, 0, 0], 5));
    assert_eq!(rt.node_count(), 0);
    assert!(!rt.insert_verified(node(3, [8, 8, 8, 8], 5)));
    assert!(rt.insert_verified(node(4, [10, 0, 0, 1], 5)));
    assert!(rt.contains_endpoint(v4(10, 0, 0, 1, 5)));
}

#[test]
fn type_prefixed_decoder_rejects_partial_records() {
    let mut bytes = Vec::new();
    bytes.push(4u8);
    bytes.extend_from_slice(&[1u8; 10]);
    assert!(decode_nodes_type_prefixed(&bytes).is_none());
}

#[test]
fn legacy_data_starting_with_4_does_not_require_type_format() {
    let mut legacy = Vec::new();
    let mut id = [0u8; 20];
    id[0] = 4;
    legacy.extend_from_slice(&id);
    legacy.extend_from_slice(&[192, 0, 2, 7]);
    legacy.extend_from_slice(&7000u16.to_be_bytes());

    let parsed_prefixed = decode_nodes_type_prefixed(&legacy);
    assert!(parsed_prefixed.is_none());

    let parsed_legacy = decode_legacy_nodes(&legacy);
    assert_eq!(parsed_legacy.len(), 1);
    assert_eq!(parsed_legacy[0].id[0], 4);
    assert_eq!(parsed_legacy[0].addr, v4(192, 0, 2, 7, 7000));
}

#[test]
fn node_cache_roundtrip_keeps_only_public_valid_nodes() {
    let public = v4(124, 31, 75, 21, 6881);
    let nodes = vec![
        TableNode { id: node_id_from_hex("5fbfbff10c5d6a4ec8a88e4c6ab4c28b95eee401"), addr: public, last_seen: 1 },
        node(7, [10, 0, 0, 7], 6881),
    ];
    let data = encode_saved_nodes(&nodes);
    assert!(data.starts_with(b"DHTN\x01"));
    assert_eq!(data.len(), 5 + 2 * 27);
    let candidates = node_cache_candidates(&data);
    assert_eq!(candidates.len(), 1);
    assert_eq!(candidates[0].addr, public);
    let mut truncated = data.clone();
    truncated.pop();
    assert!(node_cache_candidates(&truncated).is_empty());
}

#[test]
fn query_rate_limiter_caps_sources_prefixes_and_global_load() {
    let now = 1_000_000u64;
    let mut per_source = QueryRateLimiter::new(now);
    for port in 1..=MAX_QUERIES_PER_WINDOW_IP {
        assert!(per_source.allow_at(v4(10, 1, 2, 3, port as u16), now));
    }
    assert!(!per_source.allow_at(v4(10, 1, 2, 3, 9999), now));
    assert!(per_source.allow_at(v4(10, 1, 2, 3, 9999), now + QUERY_RATE_WINDOW_MS));

    let mut per_prefix = QueryRateLimiter::new(now);
    for host in 1..=4u8 {
        for port in 1..=MAX_QUERIES_PER_WINDOW_IP {
            assert!(per_prefix.allow_at(v4(10, 9, 8, host, port as u16), now));
        }
    }
    assert_eq!(MAX_QUERIES_PER_WINDOW_PREFIX, 4 * MAX_QUERIES_PER_WINDOW_IP);
    assert!(!per_prefix.allow_at(v4(10, 9, 8, 5, 1), now));

    let mut global = QueryRateLimiter::new(now);
    for index in 0..MAX_QUERIES_PER_WINDOW_GLOBAL {
        let second = (index / 256) as u8;
        let third = (index % 256) as u8;
        assert!(global.allow_at(v4(11, second, third, 1, 6881), now));
    }
    assert!(!global.allow_at(v4(12, 0, 0, 1, 6881), now));
}

#[test]
fn questionable_incumbent_is_replaced_only_if_unchanged_since_the_probe() {
    let candidate_id = node_id_from_hex("5fbfbff10c5d6a4ec8a88e4c6ab4c28b95eee401");
    let candidate = TableNode { id: candidate_id, addr: v4(124, 31, 75, 21, 6881), last_seen: 10 };
    let incumbent = node(0x40, [10, 0, 0, 1], 1);
    let mut rt = RoutingTable::new([0u8; 20], 0);
    rt.insert(incumbent);
    assert!(rt.incumbent_unchanged_since(incumbent.id, incumbent.addr, 5));
    assert!(!rt.incumbent_unchanged_since(incumbent.id, incumbent.addr, 0));
    assert!(!rt.replace_questionable(incumbent.id, incumbent.addr, 0, candidate));
    let mut tampered = candidate;
    tampered.id[0] ^= 0x80;
    assert!(!rt.replace_questionable(incumbent.id, incumbent.addr, 5, tampered));
    assert!(rt.replace_questionable(incumbent.id, incumbent.addr, 5, candidate));
    let nodes = rt.all_nodes();
    assert_eq!(nodes.len(), 1);
    assert_eq!(nodes[0].id, candidate_id);
    assert_eq!(nodes[0].addr, v4(124, 31, 75, 21, 6881));
    assert!(!rt.replace_questionable(incumbent.id, incumbent.addr, 5, candidate));
}

#[test]
fn bucket_refresh_targets_stay_inside_the_selected_distance_range() {
    let own_id = [0x5au8; 20];
    for bucket_idx in [0, 1, 7, 8, 79, 158, 159] {
        let target = random_target_for_bucket(&own_id, bucket_idx).unwrap();
        assert_eq!(bucket_index(&own_id, &target), bucket_idx);
    }
    assert!(random_target_for_bucket(&own_id, 160).is_none());

    let now: u64 = 10_000_000;
    let mut rt = RoutingTable::new(own_id, now);
    let mut id = [0u8; 20];
    id[0] = 0x80;
    rt.insert(TableNode { id, addr: v4(127, 0, 0, 1, 6881), last_seen: now });
    let idx = bucket_index(&own_id, &id);
    rt.mark_bucket_refreshed(idx, now - BUCKET_REFRESH_INTERVAL_MS);
    rt.mark_bucket_refresh_attempted(idx, now - BUCKET_REFRESH_INTERVAL_MS);
    assert_eq!(rt.bucket_needing_refresh(now), Some(idx));
    rt.mark_bucket_refreshed(idx, now);
    assert_eq!(rt.bucket_needing_refresh(now), None);
}

#[test]
fn failed_bucket_refresh_attempt_does_not_starve_other_stale_buckets() {
    let now: u64 = 10_000_000;
    let stale = now - BUCKET_REFRESH_INTERVAL_MS;
    let older_attempt = now - BUCKET_REFRESH_INTERVAL_MS * 2;
    let newer_attempt = now - (BUCKET_REFRESH_INTERVAL_MS + 1000);
    let mut near_id = [0u8; 20];
    near_id[19] = 1;
    let mut far_id = [0u8; 20];
    far_id[0] = 0x80;
    let mut rt = RoutingTable::new([0u8; 20], now);
    rt.insert(TableNode { id: near_id, addr: v4(127, 0, 0, 1, 6881), last_seen: now });
    rt.insert(TableNode { id: far_id, addr: v4(10, 1, 0, 1, 6881), last_seen: now });
    let near_bucket = bucket_index(&[0u8; 20], &near_id);
    let far_bucket = bucket_index(&[0u8; 20], &far_id);
    rt.mark_bucket_refreshed(near_bucket, stale);
    rt.mark_bucket_refreshed(far_bucket, stale);
    rt.mark_bucket_refresh_attempted(near_bucket, older_attempt);
    rt.mark_bucket_refresh_attempted(far_bucket, newer_attempt);

    assert_eq!(rt.bucket_needing_refresh(now), Some(near_bucket));
    rt.mark_bucket_refresh_attempted(near_bucket, now);
    assert_eq!(rt.bucket_needing_refresh(now), Some(far_bucket));
}

#[test]
fn bucket_target_keeps_the_prefix_and_flips_one_bit() {
    let own_id = [0u8; 20];
    let target = bucket_target(&own_id, 159, [0xffu8; 20]);
    assert_eq!(target[0], 0xff);
    let target = bucket_target(&own_id, 150, [0xffu8; 20]);
    assert_eq!(target[0], 0);
    assert_eq!(target[1], 0x7f);
    assert_eq!(bucket_index(&own_id, &target), 150);
    let target = bucket_target(&own_id, 0, [0x00u8; 20]);
    assert_eq!(target[19], 1);
    assert_eq!(bucket_index(&own_id, &target), 0);
}

#[test]
fn deferred_replacements_skip_duplicates_expire_and_stay_bounded() {
    let now: u64 = 10_000_000;
    let mut queue: Vec<TableNode> = Vec::new();
    let first = TableNode { id: [1u8; 20], addr: mapped(10, 0, 0, 1, 6881), last_seen: now };
    queue_deferred_replacement(&mut queue, first, now);
    assert_eq!(queue.len(), 1);
    assert_eq!(queue[0].addr, v4(10, 0, 0, 1, 6881));
    queue_deferred_replacement(&mut queue, TableNode { id: [2u8; 20], addr: v4(10, 0, 0, 1, 6881), last_seen: now }, now);
    queue_deferred_replacement(&mut queue, TableNode { id: [1u8; 20], addr: v4(10, 0, 0, 2, 1), last_seen: now }, now);
    assert_eq!(queue.len(), 1);
    let later = now + DEFERRED_REPLACEMENT_TTL_MS + 1;
    queue_deferred_replacement(&mut queue, TableNode { id: [3u8; 20], addr: v4(10, 0, 0, 3, 1), last_seen: later }, later);
    assert_eq!(queue.len(), 1);
    assert_eq!(queue[0].id, [3u8; 20]);
    for i in 0..(MAX_DEFERRED_REPLACEMENTS + 5) {
        let mut id = [4u8; 20];
        id[0] = (i / 256) as u8;
        id[1] = (i % 256) as u8;
        queue_deferred_replacement(&mut queue, TableNode { id, addr: v4(11, 0, (i / 256) as u8, (i % 256) as u8, 1), last_seen: later + i as u64 }, later);
        assert!(queue.len() <= MAX_DEFERRED_REPLACEMENTS);
    }
    assert!(queue.iter().all(|n| n.id != [3u8; 20]));
}
