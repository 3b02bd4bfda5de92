use num_bigint::BigUint;
use num_traits::Num;
use rustorrent::mse::{
    build_step3, build_step4, dh_private_key, dh_public_in_range, dh_public_key, dh_shared_secret, initiator_mode,
    mse_prime, initiator_step, responder_step, InitiatorStep, ResponderStep, parse_step3_header, parse_step4_header, CryptoMode, MAX_PAD_LEN,
    derive_keys, find_info_hash, find_sync_pattern, fit_be_bytes, select_crypto, sha1_bytes,
    xor_hash, CipherState, Rc4,
};

#[test]
fn xor_and_key_derivation_are_consistent() {
    let a = [0xAAu8; 20];
    let b = [0x0Fu8; 20];
    let x = xor_hash(&a, &b);
    assert_eq!(x, [0xA5u8; 20]);

    let shared = [3u8; 96];
    let info_hash = [9u8; 20];
    let (i_enc, i_dec) = derive_keys(&shared, &info_hash, true);
    let (r_enc, r_dec) = derive_keys(&shared, &info_hash, false);
    assert_eq!(i_enc, r_dec);
    assert_eq!(i_dec, r_enc);
}

#[test]
fn to_fixed_bytes_pads_and_truncates() {
    let small = BigUint::from(0x1234u32);
    let padded = fit_be_bytes(&small.to_bytes_be(), 4);
    assert_eq!(padded, vec![0x00, 0x00, 0x12, 0x34]);

    let large = BigUint::from_str_radix("1122334455", 16).unwrap();
    let truncated = fit_be_bytes(&large.to_bytes_be(), 3);
    assert_eq!(truncated, vec![0x33, 0x44, 0x55]);
}

#[test]
fn synchronization_pattern_cannot_bypass_padding_limit() {
    let pattern = b"marker";
    let mut data = vec![0u8; 520];
    data[512..518].copy_from_slice(pattern);
    assert_eq!(find_sync_pattern(&data, pattern, 0, 512), Some(512));

    let mut too_late = vec![0u8; 521];
    too_late[513..519].copy_from_slice(pattern);
    assert_eq!(find_sync_pattern(&too_late, pattern, 0, 512), None);
}

#[test]
fn cipher_state_roundtrip() {
    let mut cipher = CipherState::new(b"key", b"key");
    let mut data = b"hello world".to_vec();
    let original = data.clone();
    cipher.encrypt(&mut data);
    assert_ne!(data, original);
    cipher.decrypt(&mut data);
    assert_eq!(data, original);
}

#[test]
fn find_info_hash_matches_req2_digest() {
    let target = [7u8; 20];
    let other = [8u8; 20];
    let req2_target = sha1_bytes(b"req2", &target);
    let found = find_info_hash(&[other, target], &req2_target);
    assert_eq!(found, Some(target));
}

#[test]
fn rc4_matches_the_published_test_vector() {
    let mut rc4 = Rc4::new(b"Key");
    let mut data = b"Plaintext".to_vec();
    rc4.apply(&mut data);
    assert_eq!(data, [0xBB, 0xF3, 0x16, 0xE8, 0xD9, 0x40, 0xAF, 0x0A, 0xD3]);
}

#[test]
fn sync_search_window_and_crypto_selection() {
    assert_eq!(find_sync_pattern(b"abcabc", b"bc", 2, 10), Some(4));
    assert_eq!(find_sync_pattern(b"abcabc", b"", 0, 10), None);
    assert_eq!(find_sync_pattern(b"ab", b"abc", 0, 10), None);
    assert_eq!(find_sync_pattern(b"abcabc", b"bc", 5, 10), None);
    assert_eq!(select_crypto(3, false), Some(2));
    assert_eq!(select_crypto(1, true), Some(1));
    assert_eq!(select_crypto(1, false), None);
    assert_eq!(fit_be_bytes(&[1, 2, 3], 5), vec![0, 0, 1, 2, 3]);
    assert_eq!(find_info_hash(&[[1u8; 20]], &[0u8; 20]), None);
    assert_ne!(sha1_bytes(b"keyA", b"x"), sha1_bytes(b"keyB", b"x"));
}

#[test]
fn dh_public_range_excludes_small_and_large_keys() {
    assert!(!dh_public_in_range(&[0u8; 96]));
    let mut one = [0u8; 96];
    one[95] = 1;
    assert!(!dh_public_in_range(&one));
    let mut two = [0u8; 96];
    two[95] = 2;
    assert!(dh_public_in_range(&two));
    let p = mse_prime();
    assert!(!dh_public_in_range(&p));
    let mut p_minus_one = p;
    p_minus_one[95] = 0xfe;
    assert!(!dh_public_in_range(&p_minus_one));
    let mut p_minus_two = p;
    p_minus_two[95] = 0xfd;
    assert!(dh_public_in_range(&p_minus_two));
}

#[test]
fn dh_shared_secret_agrees_on_both_sides() {
    let a = [0x11u8; 20];
    let b = [0x5au8; 20];
    let pub_a = dh_public_key(&a);
    let pub_b = dh_public_key(&b);
    assert_eq!(pub_a.len(), 96);
    assert_ne!(pub_a, pub_b);
    let s_a = dh_shared_secret(&pub_b, &a);
    let s_b = dh_shared_secret(&pub_a, &b);
    assert_eq!(s_a.len(), 96);
    assert_eq!(s_a, s_b);
    let small = dh_public_key(&[1u8]);
    let mut expected = vec![0u8; 96];
    expected[95] = 2;
    assert_eq!(small, expected);
}

#[test]
fn step_headers_check_vc_and_padding() {
    let mut head = [0u8; 14];
    head[11] = 2;
    assert_eq!(parse_step3_header(head), Ok((2, 0)));
    head[12] = 0x02;
    head[13] = 0x00;
    assert_eq!(parse_step3_header(head), Ok((2, MAX_PAD_LEN)));
    head[13] = 0x01;
    assert_eq!(parse_step3_header(head), Err("mse PadC too large".to_string()));
    head[0] = 1;
    assert_eq!(parse_step3_header(head), Err("mse vc verification failed".to_string()));
    assert_eq!(parse_step4_header([0, 0, 0, 2, 0, 3]), Ok((2, 3)));
    assert_eq!(parse_step4_header([0, 0, 0, 1, 2, 1]), Err("mse PadD too large".to_string()));
    assert_eq!(initiator_mode(2, false), Some(CryptoMode::Rc4));
    assert_eq!(initiator_mode(1, true), Some(CryptoMode::Plaintext));
    assert_eq!(initiator_mode(1, false), None);
    assert_eq!(initiator_mode(3, true), None);
}

#[test]
fn step_messages_decrypt_on_the_other_side() {
    let mut enc = Rc4::new(b"responder key");
    let mut dec = Rc4::new(b"responder key");
    let msg = build_step4(&mut enc, 2);
    assert_eq!(msg.len(), 14);
    let mut plain = msg.clone();
    dec.apply(&mut plain);
    assert_eq!(plain, vec![0, 0, 0, 0, 0, 0, 0, 0, 0, 0, 0, 2, 0, 0]);

    let shared = [4u8; 96];
    let info_hash = [6u8; 20];
    let mut enc = Rc4::new(b"initiator key");
    let mut dec = Rc4::new(b"initiator key");
    let msg = build_step3(&shared, &info_hash, &mut enc, 3, b"hi");
    assert_eq!(msg.len(), 20 + 20 + 16 + 2);
    assert_eq!(&msg[..20], &sha1_bytes(b"req1", &shared)[..]);
    let x = xor_hash(&sha1_bytes(b"req2", &info_hash), &sha1_bytes(b"req3", &shared));
    assert_eq!(&msg[20..40], &x[..]);
    let mut tail = msg[40..].to_vec();
    dec.apply(&mut tail);
    assert_eq!(tail, vec![0, 0, 0, 0, 0, 0, 0, 0, 0, 0, 0, 3, 0, 0, 0, 2, b'h', b'i']);
}

#[test]
fn handshake_steps_agree_end_to_end() {
    let shared = [4u8; 96];
    let info_hash = [6u8; 20];
    let (i_enc, i_dec) = derive_keys(&shared, &info_hash, true);
    let mut enc = Rc4::new(&i_enc);
    enc.discard(1024);
    let step3 = build_step3(&shared, &info_hash, &mut enc, 3, b"hi");
    let mut tail = b"tail".to_vec();
    enc.apply(&mut tail);
    let mut received = vec![9u8, 9, 9];
    received.extend_from_slice(&step3);
    received.extend_from_slice(&tail);

    let hashes = [[1u8; 20], info_hash];
    assert!(matches!(responder_step(&shared, &hashes, false, &received[..20]), ResponderStep::NeedMore));
    assert!(matches!(responder_step(&shared, &hashes, false, &received[..50]), ResponderStep::NeedMore));
    match responder_step(&shared, &[[1u8; 20]], false, &received) {
        ResponderStep::Fail(e) => assert_eq!(e, "mse unknown info hash"),
        _ => panic!("expected an unknown torrent"),
    }
    assert!(matches!(responder_step(&shared, &hashes, false, &[0u8; 533]), ResponderStep::Fail(_)));
    let done = match responder_step(&shared, &hashes, false, &received) {
        ResponderStep::Done(done) => done,
        _ => panic!("expected the handshake to finish"),
    };
    assert_eq!(done.info_hash, info_hash);
    assert_eq!(done.mode, CryptoMode::Rc4);
    assert_eq!(done.initial_payload, b"hi".to_vec());
    assert_eq!(done.rest, b"tail".to_vec());
    let mut cipher = done.cipher.unwrap();
    let mut answer = b"xyz".to_vec();
    cipher.encrypt(&mut answer);

    let mut back = vec![7u8, 7];
    back.extend_from_slice(&done.reply);
    back.extend_from_slice(&answer);
    assert!(matches!(initiator_step(&i_dec, false, &back[..10]), InitiatorStep::NeedMore));
    match initiator_step(&i_dec, false, &back) {
        InitiatorStep::Done { mode, rest, .. } => {
            assert_eq!(mode, CryptoMode::Rc4);
            assert_eq!(rest, b"xyz".to_vec());
        }
        _ => panic!("expected the reply to be accepted"),
    }
    match initiator_step(&i_dec, false, &[0u8; 521]) {
        InitiatorStep::Fail(e) => assert_eq!(e, "mse vc sync failed"),
        _ => panic!("expected no sync"),
    }
}

#[test]
fn private_exponent_lies_in_the_group_range() {
    let zero = dh_private_key(&[0u8; 96]);
    assert_eq!(num_bigint::BigUint::from_bytes_be(&zero), num_bigint::BigUint::from(2u8));
    let p = num_bigint::BigUint::from_bytes_be(&mse_prime());
    let max = dh_private_key(&[0xffu8; 96]);
    let value = num_bigint::BigUint::from_bytes_be(&max);
    assert!(value >= num_bigint::BigUint::from(2u8));
    assert!(value <= &p - num_bigint::BigUint::from(2u8));
    let mut three_less = mse_prime();
    three_less[95] = 0xfc;
    assert_eq!(num_bigint::BigUint::from_bytes_be(&dh_private_key(&three_less)), num_bigint::BigUint::from(2u8));
}
