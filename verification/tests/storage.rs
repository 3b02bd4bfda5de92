use rustorrent::storage::{
    build_layout, data_paths, data_paths_with_file_renames, files_touched, layouts_total_length,
    layouts_with_renames, plan_io, queue_bytes, read_overlaps_cache, root_path, validate_layout_paths,
    write_step, Error, FileLayout, WriteStep,
};
use rustorrent::torrent::{FileInfo, FileTreeEntry, InfoDict, TorrentMeta};

fn dummy_meta() -> TorrentMeta {
    TorrentMeta {
        announce: None,
        announce_list: Vec::new(),
        url_list: Vec::new(),
        httpseeds: Vec::new(),
        info_hash: [0u8; 20],
        info_hash_v2: None,
        piece_layers: Vec::new(),
        meta_version: 1,
        info: InfoDict {
            name: b"root".to_vec(),
            piece_length: 16384,
            pieces: vec![[0u8; 20]; 2],
            length: None,
            files: vec![
                FileInfo {
                    length: 3,
                    path: vec![b"a.txt".to_vec()],
                    attr: Vec::new(),
                },
                FileInfo {
                    length: 5,
                    path: vec![b"dir".to_vec(), b"b.bin".to_vec()],
                    attr: Vec::new(),
                },
            ],
            private: false,
            file_tree: Vec::new(),
        },
    }
}

fn dummy_meta_v2_tree() -> TorrentMeta {
    let mut meta = dummy_meta();
    meta.meta_version = 2;
    meta.info.files.clear();
    meta.info.file_tree = vec![
        FileTreeEntry {
            path: vec![b"a.txt".to_vec()],
            length: 3,
            pieces_root: None,
        },
        FileTreeEntry {
            path: vec![b"dir".to_vec(), b"b.bin".to_vec()],
            length: 5,
            pieces_root: None,
        },
    ];
    meta
}

fn single_file_meta() -> TorrentMeta {
    let mut meta = dummy_meta();
    meta.info.length = Some(3);
    meta.info.files.clear();
    meta
}

fn segs(parts: &[&str]) -> Vec<Vec<u8>> {
    parts.iter().map(|p| p.as_bytes().to_vec()).collect()
}

#[test]
fn builds_multi_file_layout() {
    let meta = dummy_meta();
    let layout = build_layout(&meta).unwrap();
    assert_eq!(layout.len(), 2);
    assert_eq!(layout[0].offset, 0);
    assert_eq!(layout[0].length, 3);
    assert_eq!(layout[1].offset, 3);
    assert_eq!(layout[1].length, 5);
    assert_eq!(layout[0].segments, segs(&["root", "a.txt"]));
    assert_eq!(layout[1].segments, segs(&["root", "dir", "b.bin"]));
}

#[test]
fn builds_v2_file_tree_layout() {
    let meta = dummy_meta_v2_tree();
    let layout = build_layout(&meta).unwrap();
    assert_eq!(layout.len(), 2);
    assert_eq!(layout[0].offset, 0);
    assert_eq!(layout[0].length, 3);
    assert_eq!(layout[1].offset, 16_384);
    assert_eq!(layout[1].length, 5);
}

#[test]
fn rejects_invalid_path_segments() {
    let mut meta = dummy_meta();
    meta.info.files[0].path = vec![b"..".to_vec()];
    let err = build_layout(&meta).unwrap_err();
    assert!(matches!(err, Error::InvalidPathSegment));
}

#[test]
fn rejects_roots_reserved_for_application_state() {
    for name in [b".rustorrent".as_slice(), b".RUSTORRENT.LOCK".as_slice()] {
        let mut meta = dummy_meta();
        meta.info.name = name.to_vec();
        assert!(matches!(build_layout(&meta), Err(Error::InvalidName)));
    }
}

#[test]
fn rejects_zero_total_length() {
    let mut meta = dummy_meta();
    meta.info.files[0].length = 0;
    meta.info.files[1].length = 0;
    let err = build_layout(&meta).unwrap_err();
    assert!(matches!(err, Error::InvalidLength));
}

#[test]
fn layout_rejects_duplicate_and_prefix_colliding_paths() {
    let mut duplicate = dummy_meta();
    duplicate.info.files[1].path = vec![b"a.txt".to_vec()];
    assert!(matches!(build_layout(&duplicate), Err(Error::InvalidFiles)));

    let mut prefix = dummy_meta();
    prefix.info.files[0].path = vec![b"node".to_vec()];
    prefix.info.files[1].path = vec![b"node".to_vec(), b"child".to_vec()];
    assert!(matches!(build_layout(&prefix), Err(Error::InvalidFiles)));
}

#[test]
fn malicious_search_plugin_layout_is_rejected_before_creation() {
    let mut meta = dummy_meta();
    meta.info.name = b".rustorrent".to_vec();
    meta.info.files = vec![FileInfo {
        length: 3,
        path: segs(&["search", "nova3", "engines", "evil.py"]),
        attr: Vec::new(),
    }];
    assert!(matches!(layouts_with_renames(&meta, &[]), Err(Error::InvalidName)));
}

#[test]
fn single_file_rename_cannot_enter_reserved_state_namespace() {
    let meta = single_file_meta();
    assert!(matches!(
        data_paths_with_file_renames(&meta, &[(0, ".rustorrent.lock".to_string())]),
        Err(Error::InvalidName)
    ));
}

#[test]
fn data_paths_include_saved_file_renames_without_creating_files() {
    let paths =
        data_paths_with_file_renames(&dummy_meta(), &[(0, "renamed.txt".to_string())]).unwrap();
    assert_eq!(paths[0], segs(&["root", "renamed.txt"]));
    assert_eq!(paths[1], segs(&["root", "dir", "b.bin"]));
}

#[test]
fn data_paths_without_renames_follow_the_layout() {
    let paths = data_paths(&dummy_meta()).unwrap();
    assert_eq!(paths, vec![segs(&["root", "a.txt"]), segs(&["root", "dir", "b.bin"])]);
    assert_eq!(root_path(&dummy_meta()).unwrap(), b"root".to_vec());
    let mut bad = dummy_meta();
    bad.info.name = b"a/b".to_vec();
    assert!(matches!(root_path(&bad), Err(Error::InvalidName)));
}

#[test]
fn renames_are_checked_in_order() {
    let meta = dummy_meta();
    let twice = [(0usize, "x".to_string()), (0usize, "y".to_string())];
    assert!(matches!(layouts_with_renames(&meta, &twice), Err(Error::InvalidFiles)));
    assert!(matches!(
        layouts_with_renames(&meta, &[(2, "x".to_string())]),
        Err(Error::OutOfBounds)
    ));
    assert!(matches!(
        layouts_with_renames(&meta, &[(1, "..".to_string())]),
        Err(Error::InvalidPathSegment)
    ));
    assert!(matches!(
        layouts_with_renames(&meta, &[(1, ".RUSTORRENT".to_string())]),
        Err(Error::InvalidName)
    ));
    let renamed = layouts_with_renames(&meta, &[(1, "dir".to_string())]).unwrap();
    assert_eq!(renamed[1].segments, segs(&["root", "dir", "dir"]));
    let mut flat = dummy_meta();
    flat.info.files[1].path = segs(&["b.bin"]);
    assert!(matches!(
        layouts_with_renames(&flat, &[(1, "a.txt".to_string())]),
        Err(Error::InvalidFiles)
    ));
}

#[test]
fn validate_layout_paths_accepts_siblings() {
    let layouts = vec![
        FileLayout { segments: segs(&["r", "a"]), offset: 0, length: 1 },
        FileLayout { segments: segs(&["r", "ab"]), offset: 1, length: 1 },
    ];
    assert!(validate_layout_paths(&layouts).is_ok());
    let nested = vec![
        FileLayout { segments: segs(&["r", "a", "b"]), offset: 0, length: 1 },
        FileLayout { segments: segs(&["r", "a"]), offset: 1, length: 1 },
    ];
    assert!(matches!(validate_layout_paths(&nested), Err(Error::InvalidFiles)));
}

#[test]
fn total_length_is_the_largest_file_end() {
    let layout = build_layout(&dummy_meta_v2_tree()).unwrap();
    assert_eq!(layouts_total_length(&layout), Some(16_389));
    let overflowing = vec![FileLayout { segments: segs(&["r"]), offset: u64::MAX, length: 1 }];
    assert_eq!(layouts_total_length(&overflowing), None);
    assert_eq!(layouts_total_length(&[]), Some(0));
}

#[test]
fn io_is_split_across_file_boundaries() {
    let layout = build_layout(&dummy_meta()).unwrap();
    let (chunks, complete) = plan_io(&layout, 8, 1, 5).unwrap();
    assert!(complete);
    assert_eq!(chunks.len(), 2);
    assert_eq!((chunks[0].file_index, chunks[0].file_offset, chunks[0].buf_start, chunks[0].len), (0, 1, 0, 2));
    assert_eq!((chunks[1].file_index, chunks[1].file_offset, chunks[1].buf_start, chunks[1].len), (1, 0, 2, 3));
    assert!(matches!(plan_io(&layout, 8, 4, 5), Err(Error::OutOfBounds)));
    assert!(matches!(plan_io(&layout, 8, u64::MAX, 2), Err(Error::OutOfBounds)));
    let (empty, done) = plan_io(&layout, 8, 8, 0).unwrap();
    assert!(empty.is_empty() && done);
}

#[test]
fn io_into_a_gap_between_v2_files_is_incomplete() {
    let layout = build_layout(&dummy_meta_v2_tree()).unwrap();
    let (chunks, complete) = plan_io(&layout, 16_389, 3, 1).unwrap();
    assert!(chunks.is_empty());
    assert!(!complete);
    let (chunks, complete) = plan_io(&layout, 16_389, 16_384, 5).unwrap();
    assert!(complete);
    assert_eq!((chunks[0].file_index, chunks[0].file_offset, chunks[0].len), (1, 0, 5));
}

#[test]
fn write_steps_follow_the_cache_limit() {
    assert_eq!(write_step(8, 0, 0, 3).unwrap(), WriteStep::Direct);
    assert_eq!(write_step(8, 4, 0, 0).unwrap(), WriteStep::Nothing);
    assert_eq!(write_step(8, 4, 0, 4).unwrap(), WriteStep::FlushThenDirect);
    assert_eq!(write_step(8, 4, 0, 3).unwrap(), WriteStep::Queue);
    assert!(matches!(write_step(8, 4, 6, 3), Err(Error::OutOfBounds)));
    assert_eq!(queue_bytes(2, 3, 4), (5, true));
    assert_eq!(queue_bytes(0, 3, 4), (3, false));
    assert_eq!(queue_bytes(usize::MAX, 3, 4), (usize::MAX, true));
}

#[test]
fn reads_overlapping_the_cache_are_detected() {
    let cache = [(0u64, 3usize), (10u64, 2usize)];
    assert!(read_overlaps_cache(&cache, 2, 1));
    assert!(!read_overlaps_cache(&cache, 3, 7));
    assert!(read_overlaps_cache(&cache, 11, 5));
    assert!(!read_overlaps_cache(&[], 0, 5));
}

#[test]
fn writes_touch_the_files_they_overlap() {
    let layout = build_layout(&dummy_meta()).unwrap();
    assert_eq!(files_touched(&layout, 2, 2), vec![0, 1]);
    assert_eq!(files_touched(&layout, 3, 1), vec![1]);
    assert_eq!(files_touched(&layout, 0, 3), vec![0]);
}
