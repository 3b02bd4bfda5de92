use rustorrent::piece::{
    BlockState, Error, PieceBuffer, PieceBufferBudget, PieceBufferBudgets, PieceHash, PieceManager,
    BLOCK_LEN, PRIORITY_HIGH, PRIORITY_LOW, PRIORITY_NORMAL, PRIORITY_SKIP,
};
use rustorrent::sha1;
use rustorrent::sha256;
use rustorrent::torrent::{FileInfo, FileTreeEntry, InfoDict, TorrentMeta};
use std::sync::Arc;
use std::time::{Duration, Instant};

fn priority_meta() -> TorrentMeta {
    TorrentMeta {
        announce: None,
        announce_list: Vec::new(),
        url_list: Vec::new(),
        httpseeds: Vec::new(),
        info_hash: [0u8; 20],
        info_hash_v2: None,
        piece_layers: Vec::new(),
        meta_version: 1,
        info: InfoDict {
            name: b"test".to_vec(),
            piece_length: 16,
            pieces: vec![[1u8; 20], [2u8; 20]],
            length: Some(32),
            files: Vec::new(),
            private: false,
            file_tree: Vec::new(),
        },
    }
}

fn dummy_meta(pieces: usize, piece_length: u64, total_length: u64) -> TorrentMeta {
    let mut hashes = Vec::with_capacity(pieces);
    for i in 0..pieces {
        let mut hash = [0u8; 20];
        hash[0] = i as u8;
        hashes.push(hash);
    }
    TorrentMeta {
        announce: None,
        announce_list: Vec::new(),
        url_list: Vec::new(),
        httpseeds: Vec::new(),
        info_hash: [0u8; 20],
        info_hash_v2: None,
        piece_layers: Vec::new(),
        meta_version: 1,
        info: InfoDict {
            name: b"dummy".to_vec(),
            piece_length,
            pieces: hashes,
            length: Some(total_length),
            files: Vec::new(),
            private: false,
            file_tree: Vec::new(),
        },
    }
}

#[test]
fn prefers_high_priority_piece() {
    let meta = priority_meta();
    let mut manager = PieceManager::new(&meta).unwrap();
    manager
        .set_piece_priorities(&[PRIORITY_LOW, PRIORITY_HIGH])
        .unwrap();
    let bitfield = vec![0b1100_0000];
    let selected = manager.reserve_piece_for_peer(1, &bitfield, false);
    assert_eq!(selected, Some(1));
}

#[test]
fn selects_rarest_piece() {
    let meta = dummy_meta(3, 16 * 1024, 48 * 1024);
    let mut manager = PieceManager::new(&meta).unwrap();
    let mut bitfield = vec![0b1010_0000];
    manager.apply_peer_bitfield(&bitfield).unwrap();

    let req = manager.select_next_request(&bitfield).unwrap();
    assert_eq!(req.index, 0);

    bitfield[0] = 0b1110_0000;
    manager.apply_peer_bitfield(&bitfield).unwrap();
    let req = manager.select_next_request(&bitfield).unwrap();
    assert_eq!(req.index, 1);
}

#[test]
fn last_piece_shorter() {
    let meta = dummy_meta(2, 16 * 1024, 20 * 1024);
    let manager = PieceManager::new(&meta).unwrap();
    assert_eq!(manager.piece_length(0), Some(16 * 1024));
    assert_eq!(manager.piece_length(1), Some(4 * 1024));
}

#[test]
fn rejects_an_extra_zero_length_piece() {
    let meta = dummy_meta(2, 16 * 1024, 16 * 1024);
    assert!(matches!(
        PieceManager::new(&meta),
        Err(Error::InvalidPieces)
    ));
}

#[test]
fn apply_peer_bitfield_rejects_extra_bits() {
    let meta = dummy_meta(9, 16 * 1024, 9 * 16 * 1024);
    let mut manager = PieceManager::new(&meta).unwrap();
    let bitfield = [0xFF, 0x40];
    assert!(matches!(
        manager.apply_peer_bitfield(&bitfield),
        Err(Error::InvalidBitfield)
    ));
}

#[test]
fn sequential_mode_prefers_lowest_index_piece() {
    let meta = dummy_meta(3, 16 * 1024, 48 * 1024);
    let mut manager = PieceManager::new(&meta).unwrap();
    manager.set_sequential(true);
    manager.mark_piece_complete(0).unwrap();
    let bitfield = [0b1110_0000];
    assert_eq!(manager.reserve_piece_for_peer(7, &bitfield, false), Some(1));
}

#[test]
fn skipping_piece_clears_existing_reservation() {
    let meta = dummy_meta(2, 16 * 1024, 32 * 1024);
    let mut manager = PieceManager::new(&meta).unwrap();
    let bitfield = [0b1100_0000];
    assert_eq!(manager.reserve_piece_for_peer(1, &bitfield, false), Some(0));
    manager
        .set_piece_priorities(&[PRIORITY_SKIP, PRIORITY_NORMAL])
        .unwrap();
    assert_eq!(manager.reserve_piece_for_peer(2, &bitfield, false), Some(1));
}

#[test]
fn next_request_for_piece_allows_duplicate_when_enabled() {
    let meta = dummy_meta(1, 16 * 1024, 16 * 1024);
    let mut manager = PieceManager::new(&meta).unwrap();
    let first = manager.next_request_for_piece(0, false).unwrap();
    assert_eq!(first.begin, 0);
    assert!(manager.next_request_for_piece(0, false).is_none());
    let duplicate = manager.next_request_for_piece(0, true).unwrap();
    assert_eq!(duplicate.begin, 0);
    assert_eq!(duplicate.length, first.length);
}

#[test]
fn mark_block_complete_validates_alignment_and_size() {
    let meta = dummy_meta(1, 16 * 1024, 16 * 1024);
    let mut manager = PieceManager::new(&meta).unwrap();
    assert!(matches!(
        manager.mark_block_complete(0, 1, 16 * 1024),
        Err(Error::InvalidBlock)
    ));
    assert!(matches!(
        manager.mark_block_complete(0, 0, 8),
        Err(Error::InvalidBlock)
    ));
    assert!(manager.mark_block_complete(0, 0, 16 * 1024).unwrap());
    assert!(!manager.mark_block_complete(0, 0, 16 * 1024).unwrap());
}

#[test]
fn complete_requires_hash_verified_piece_not_only_received_blocks() {
    let meta = dummy_meta(1, 16 * 1024, 16 * 1024);
    let mut manager = PieceManager::new(&meta).unwrap();

    assert!(manager.mark_block_complete(0, 0, 16 * 1024).unwrap());

    assert!(!manager.is_piece_complete(0));
    assert!(!manager.is_complete());
    assert_eq!(manager.completed_pieces(), 0);

    manager.mark_piece_complete(0).unwrap();

    assert!(manager.is_piece_complete(0));
    assert!(manager.is_complete());
    assert_eq!(manager.completed_pieces(), 1);
}

#[test]
fn piece_buffer_tracks_completion_across_blocks() {
    let mut buffer = PieceBuffer::new(2, BLOCK_LEN + 4).unwrap();
    let first = vec![1u8; BLOCK_LEN as usize];
    let second = vec![2u8; 4];
    assert!(!buffer.add_block(0, &first).unwrap());
    assert!(buffer.add_block(BLOCK_LEN, &second).unwrap());
    assert!(buffer.is_complete());
    assert_eq!(&buffer.data()[BLOCK_LEN as usize..], second.as_slice());
}

#[test]
fn piece_buffer_budgets_backpressure_and_release_with_buffer_lifetime() {
    let allocation = BLOCK_LEN as usize + 1;
    let global = Arc::new(PieceBufferBudget::new(allocation));
    let torrent = Arc::new(PieceBufferBudget::new(allocation * 2));
    let budgets = PieceBufferBudgets::new(Arc::clone(&global), Arc::clone(&torrent));

    let first = PieceBuffer::try_new(0, BLOCK_LEN, &budgets)
        .unwrap()
        .unwrap();
    assert_eq!(global.used(), allocation);
    assert_eq!(torrent.used(), allocation);
    assert!(PieceBuffer::try_new(1, BLOCK_LEN, &budgets)
        .unwrap()
        .is_none());
    assert_eq!(global.used(), allocation);
    assert_eq!(torrent.used(), allocation);

    drop(first);
    assert_eq!(global.used(), 0);
    assert_eq!(torrent.used(), 0);
    let second = PieceBuffer::try_new(1, BLOCK_LEN, &budgets)
        .unwrap()
        .unwrap();
    drop(second);
    assert_eq!(global.used(), 0);
    assert_eq!(torrent.used(), 0);
}

#[test]
fn generic_piece_buffer_reservation_releases_both_budgets() {
    let global = Arc::new(PieceBufferBudget::new(32));
    let torrent = Arc::new(PieceBufferBudget::new(16));
    let budgets = PieceBufferBudgets::new(Arc::clone(&global), Arc::clone(&torrent));

    let reservation = budgets.try_reserve(12).unwrap();
    assert_eq!(global.used(), 12);
    assert_eq!(torrent.used(), 12);
    assert!(budgets.try_reserve(5).is_none());
    assert_eq!(global.used(), 12);
    assert_eq!(torrent.used(), 12);

    drop(reservation);
    assert_eq!(global.used(), 0);
    assert_eq!(torrent.used(), 0);
    assert!(budgets.try_reserve(0).is_none());
}

#[test]
fn priority_updates_are_atomic_on_validation_error() {
    let meta = dummy_meta(2, 16 * 1024, 32 * 1024);
    let mut manager = PieceManager::new(&meta).unwrap();
    assert!(matches!(
        manager.set_piece_priorities(&[PRIORITY_SKIP, PRIORITY_HIGH + 1]),
        Err(Error::InvalidPriority)
    ));
    assert_eq!(manager.piece_priority(0), Some(PRIORITY_NORMAL));
    assert!(manager.is_piece_wanted(0));
}

#[test]
fn v2_files_have_aligned_offsets_and_merkle_verification() {
    let first_data = b"abc";
    let second_data = b"hello";
    let meta = TorrentMeta {
        announce: None,
        announce_list: Vec::new(),
        url_list: Vec::new(),
        httpseeds: Vec::new(),
        info_hash: [0; 20],
        info_hash_v2: Some([0; 32]),
        piece_layers: Vec::new(),
        meta_version: 2,
        info: InfoDict {
            name: b"v2".to_vec(),
            piece_length: 64 * 1024,
            pieces: Vec::new(),
            length: None,
            files: Vec::new(),
            private: false,
            file_tree: vec![
                FileTreeEntry {
                    path: vec![b"a".to_vec()],
                    length: first_data.len() as u64,
                    pieces_root: Some(sha256::sha256(first_data)),
                },
                FileTreeEntry {
                    path: vec![b"b".to_vec()],
                    length: second_data.len() as u64,
                    pieces_root: Some(sha256::sha256(second_data)),
                },
            ],
        },
    };

    let manager = PieceManager::new(&meta).unwrap();
    assert_eq!(manager.piece_count(), 2);
    assert_eq!(manager.piece_offset(0), Some(0));
    assert_eq!(manager.piece_offset(1), Some(64 * 1024));
    assert_eq!(manager.piece_length(0), Some(3));
    assert_eq!(manager.piece_length(1), Some(5));
    assert!(manager.piece_hash(0).unwrap().verify(first_data));
    assert!(manager.piece_hash(1).unwrap().verify(second_data));
    assert!(!manager.piece_hash(1).unwrap().verify(b"HELLO"));
}

#[test]
fn hybrid_pieces_require_both_hash_families() {
    let mut first_piece = b"abc".to_vec();
    first_piece.resize(16 * 1024, 0);
    let second_piece = b"hello".to_vec();
    let meta = TorrentMeta {
        announce: None,
        announce_list: Vec::new(),
        url_list: Vec::new(),
        httpseeds: Vec::new(),
        info_hash: [0; 20],
        info_hash_v2: Some([0; 32]),
        piece_layers: Vec::new(),
        meta_version: 3,
        info: InfoDict {
            name: b"hybrid".to_vec(),
            piece_length: 16 * 1024,
            pieces: vec![sha1::sha1(&first_piece), sha1::sha1(&second_piece)],
            length: None,
            files: vec![
                FileInfo {
                    length: 3,
                    path: vec![b"a".to_vec()],
                    attr: Vec::new(),
                },
                FileInfo {
                    length: 16 * 1024 - 3,
                    path: vec![b".pad".to_vec(), b"16381".to_vec()],
                    attr: b"p".to_vec(),
                },
                FileInfo {
                    length: 5,
                    path: vec![b"b".to_vec()],
                    attr: Vec::new(),
                },
            ],
            private: false,
            file_tree: vec![
                FileTreeEntry {
                    path: vec![b"a".to_vec()],
                    length: 3,
                    pieces_root: Some(sha256::sha256(b"abc")),
                },
                FileTreeEntry {
                    path: vec![b"b".to_vec()],
                    length: 5,
                    pieces_root: Some(sha256::sha256(b"hello")),
                },
            ],
        },
    };

    let manager = PieceManager::new(&meta).unwrap();
    assert!(matches!(
        manager.piece_hash(0),
        Some(PieceHash::Hybrid { .. })
    ));
    assert!(manager.piece_hash(0).unwrap().verify(&first_piece));
    assert!(manager.piece_hash(1).unwrap().verify(&second_piece));

    let mut nonzero_padding = first_piece;
    *nonzero_padding.last_mut().unwrap() = 1;
    assert!(!manager.piece_hash(0).unwrap().verify(&nonzero_padding));
}

#[test]
fn known_digests_of_the_hash_wrappers() {
    assert_eq!(
        sha1::sha1(b"abc"),
        [
            0xa9, 0x99, 0x3e, 0x36, 0x47, 0x06, 0x81, 0x6a, 0xba, 0x3e, 0x25, 0x71, 0x78, 0x50,
            0xc2, 0x6c, 0x9c, 0xd0, 0xd8, 0x9d
        ]
    );
    assert_eq!(
        sha256::sha256(b"abc")[..4],
        [0xba, 0x78, 0x16, 0xbf]
    );
}

#[test]
fn merkle_root_pairs_block_hashes_and_pads_with_zero_leaves() {
    let data = vec![7u8; 16 * 1024 + 1];
    let left = sha256::sha256(&data[..16 * 1024]);
    let right = sha256::sha256(&data[16 * 1024..]);
    let mut both = left.to_vec();
    both.extend_from_slice(&right);
    assert_eq!(sha256::merkle_piece_root(&data, 32 * 1024), Some(sha256::sha256(&both)));

    let single = sha256::sha256(&data[..16]);
    let mut padded = single.to_vec();
    padded.extend_from_slice(&[0u8; 32]);
    assert_eq!(sha256::merkle_piece_root(&data[..16], 32 * 1024), Some(sha256::sha256(&padded)));

    assert_eq!(sha256::merkle_piece_root(&data, 16 * 1024), None);
    assert_eq!(sha256::merkle_piece_root(&data, 48 * 1024), None);
    assert_eq!(sha256::merkle_piece_root(&data, 0), None);
}

#[test]
fn block_bookkeeping_and_reservations() {
    let meta = dummy_meta(2, 32 * 1024, 40 * 1024);
    let mut manager = PieceManager::new(&meta).unwrap();
    assert_eq!(manager.remaining_blocks(), 3);
    assert_eq!(manager.wanted_bytes(), 40 * 1024);
    assert_eq!(manager.wanted_pieces(), 2);
    assert_eq!(manager.bitfield_len(), 1);
    assert_eq!(manager.next_missing_piece(), Some(0));

    let req = manager.next_request_for_piece(1, false).unwrap();
    assert_eq!((req.index, req.begin, req.length), (1, 0, 8 * 1024));
    manager.mark_block_missing(1, 0).unwrap();
    assert!(matches!(manager.mark_block_missing(1, 16 * 1024), Err(Error::InvalidBlock)));
    assert!(matches!(manager.mark_block_missing(2, 0), Err(Error::InvalidPiece)));

    assert!(manager.mark_piece_complete(1).unwrap());
    assert!(!manager.mark_piece_complete(1).unwrap());
    assert_eq!(manager.completed_bytes(), 8 * 1024);
    assert_eq!(manager.remaining_blocks(), 2);
    manager.reset_piece(1).unwrap();
    assert!(!manager.is_piece_complete(1));
    assert_eq!(manager.remaining_blocks(), 3);

    let bitfield = [0b1100_0000];
    assert!(manager.has_needed_piece(&bitfield));
    assert!(!manager.has_needed_piece(&[0, 0]));
    assert_eq!(manager.reserve_piece_for_peer(5, &bitfield, false), Some(0));
    assert_eq!(manager.reserve_piece_for_peer(6, &bitfield, false), Some(1));
    assert_eq!(manager.reserve_piece_for_peer(7, &bitfield, false), None);
    assert_eq!(manager.reserve_piece_for_peer(7, &bitfield, true), Some(0));
    manager.release_piece(9, 0);
    assert_eq!(manager.reserve_piece_for_peer(7, &bitfield, false), None);
    manager.release_piece(5, 0);
    assert_eq!(manager.reserve_piece_for_peer(7, &bitfield, false), Some(0));
    manager.clear_reservation(1);
    assert_eq!(manager.reserve_piece_for_peer(8, &bitfield, false), Some(1));

    manager.apply_have(1).unwrap();
    assert!(matches!(manager.apply_have(2), Err(Error::InvalidPiece)));
    manager.remove_peer_bitfield(&bitfield).unwrap();
    assert!(matches!(manager.remove_peer_bitfield(&[0, 0]), Err(Error::InvalidBitfield)));

    manager.reset_verified();
    assert_eq!(manager.completed_pieces(), 0);
}

#[test]
fn stale_reservations_can_be_stolen_by_another_peer() {
    let meta = dummy_meta(2, 16 * 1024, 32 * 1024);
    let mut manager = PieceManager::new(&meta).unwrap();
    let bitfield = [0b1000_0000];
    assert_eq!(manager.reserve_piece_for_peer(1, &bitfield, false), Some(0));
    assert_eq!(manager.steal_stale_piece(1, &bitfield, Duration::ZERO), None);
    assert_eq!(manager.steal_stale_piece(2, &bitfield, Duration::from_secs(3600)), None);
    let started = Instant::now();
    while started.elapsed() < Duration::from_millis(2) {}
    assert_eq!(manager.steal_stale_piece(2, &bitfield, Duration::from_millis(1)), Some(0));
    assert_eq!(manager.select_stale_piece(3, &bitfield, &[Some(5), None], 6, Instant::now()), None);
    assert_eq!(manager.select_stale_piece(3, &bitfield, &[Some(5), None], 5, Instant::now()), None);
    assert_eq!(manager.select_stale_piece(3, &bitfield, &[Some(5), None], 4, Instant::now()), Some(0));
    assert_eq!(manager.steal_stale_piece(3, &[0, 0], Duration::ZERO), None);
}

#[test]
fn v2_piece_length_must_be_a_power_of_two_block_multiple() {
    let mut meta = priority_meta();
    meta.meta_version = 2;
    meta.info.piece_length = 24 * 1024;
    assert!(matches!(PieceManager::new(&meta), Err(Error::InvalidPieceLength)));
    meta.info.piece_length = 0;
    assert!(matches!(PieceManager::new(&meta), Err(Error::InvalidPieceLength)));
    meta.meta_version = 4;
    meta.info.piece_length = 16;
    assert!(matches!(PieceManager::new(&meta), Err(Error::InvalidPieces)));
    let _ = BlockState::Requested;
}

#[test]
fn piece_buffer_rejects_bad_blocks() {
    let mut buffer = PieceBuffer::new(0, 10).unwrap();
    assert_eq!(buffer.index(), 0);
    assert_eq!(buffer.length(), 10);
    assert!(matches!(buffer.add_block(1, &[0; 9]), Err(Error::InvalidBlock)));
    assert!(matches!(buffer.add_block(0, &[0; 9]), Err(Error::InvalidBlock)));
    assert!(matches!(buffer.add_block(BLOCK_LEN, &[0; 10]), Err(Error::InvalidBlock)));
    assert!(buffer.add_block(0, &[5; 10]).unwrap());
    assert!(buffer.add_block(0, &[6; 10]).unwrap());
    assert_eq!(buffer.data(), &[5; 10]);
    assert!(matches!(PieceBuffer::new(0, 0), Err(Error::InvalidPieceLength)));
}
