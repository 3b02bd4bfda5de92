use rustorrent::ownership::{claims_conflict, claims_for_torrent, ClaimKind, PathPart, StorageClaim};
use rustorrent::torrent::{FileInfo, InfoDict, TorrentMeta};

fn meta(name: &[u8], length: Option<u64>, files: Vec<FileInfo>) -> TorrentMeta {
    TorrentMeta {
        announce: None,
        announce_list: Vec::new(),
        url_list: Vec::new(),
        httpseeds: Vec::new(),
        info: InfoDict {
            name: name.to_vec(),
            piece_length: 16_384,
            pieces: Vec::new(),
            length,
            files,
            private: false,
            file_tree: Vec::new(),
        },
        info_hash: [0; 20],
        info_hash_v2: None,
        piece_layers: Vec::new(),
        meta_version: 1,
    }
}

fn single(name: &[u8]) -> TorrentMeta {
    meta(name, Some(1), Vec::new())
}

fn multi(name: &[u8]) -> TorrentMeta {
    meta(name, None, vec![FileInfo { length: 1, path: vec![b"file.bin".to_vec()], attr: Vec::new() }])
}

fn base() -> Vec<Vec<u8>> {
    vec![b"tmp".to_vec(), b"rustorrent-ownership-tests".to_vec()]
}

fn under(dir: &[Vec<u8>], name: &[u8]) -> Vec<Vec<u8>> {
    let mut v = dir.to_vec();
    v.push(name.to_vec());
    v
}

#[test]
fn different_torrents_with_the_same_single_file_name_conflict() {
    let meta = single(b"same.bin");
    let left = claims_for_torrent(&meta, &base(), &[], None, None).unwrap();
    let right = claims_for_torrent(&meta, &base(), &[], None, None).unwrap();
    assert!(claims_conflict(&left[0], &right[0]));
}

#[test]
fn multifile_torrents_with_the_same_root_conflict() {
    let meta = multi(b"bundle");
    let left = claims_for_torrent(&meta, &base(), &[], None, None).unwrap();
    let right = claims_for_torrent(&meta, &base(), &[], None, None).unwrap();
    assert_eq!(left[0].kind(), ClaimKind::Tree);
    assert!(claims_conflict(&left[0], &right[0]));
}

#[test]
fn file_inside_a_claimed_tree_conflicts() {
    let tree = claims_for_torrent(&multi(b"bundle"), &base(), &[], None, None).unwrap();
    let file = claims_for_torrent(&single(b"file.bin"), &under(&base(), b"bundle"), &[], None, None).unwrap();
    assert!(claims_conflict(&tree[0], &file[0]));
}

#[test]
fn sibling_paths_do_not_conflict() {
    let left = claims_for_torrent(&single(b"left.bin"), &base(), &[], None, None).unwrap();
    let right = claims_for_torrent(&single(b"right.bin"), &base(), &[], None, None).unwrap();
    assert!(!claims_conflict(&left[0], &right[0]));
}

#[test]
fn pending_rename_and_completion_keep_both_sides_claimed() {
    let meta = single(b"old.bin");
    let destination = under(&base(), b"complete");
    let claims = claims_for_torrent(
        &meta,
        &base(),
        &[],
        Some((0, "new.bin".to_string())),
        Some(destination.as_slice()),
    )
    .unwrap();
    let names: Vec<Vec<u8>> = claims.iter().map(|claim| claim.path().last().unwrap().clone()).collect();
    assert_eq!(claims.len(), 4);
    assert!(names.contains(&b"old.bin".to_vec()));
    assert!(names.contains(&b"new.bin".to_vec()));
    assert!(claims.iter().any(|claim| {
        let p = claim.path();
        p.len() >= 2 && p[p.len() - 2] == b"complete".to_vec()
    }));
}

#[test]
fn existing_ancestor_aliases_are_canonicalized() {
    let root = base();
    let direct = StorageClaim::new(
        root.clone(),
        &[PathPart::Normal(b"future".to_vec()), PathPart::Normal(b"one.bin".to_vec())],
        ClaimKind::File,
    )
    .unwrap();
    let dotted = StorageClaim::new(
        root,
        &[
            PathPart::Normal(b"future".to_vec()),
            PathPart::ParentDir,
            PathPart::CurDir,
            PathPart::Normal(b"future".to_vec()),
            PathPart::Normal(b"one.bin".to_vec()),
        ],
        ClaimKind::File,
    )
    .unwrap();
    assert!(claims_conflict(&direct, &dotted));
}

#[test]
fn claim_paths_cannot_climb_above_the_root() {
    let err = StorageClaim::new(Vec::new(), &[PathPart::ParentDir], ClaimKind::File).unwrap_err();
    assert_eq!(err, "storage ownership path escapes the filesystem root");
    let err = StorageClaim::new(vec![b"a".to_vec()], &[PathPart::Root], ClaimKind::Tree).unwrap_err();
    assert_eq!(err, "invalid absolute storage ownership path");
}

#[test]
fn multifile_completion_claims_both_roots_and_checks_renames() {
    let meta = multi(b"bundle");
    let destination = under(&base(), b"done");
    let claims = claims_for_torrent(&meta, &base(), &[], None, Some(destination.as_slice())).unwrap();
    assert_eq!(claims.len(), 2);
    assert_eq!(claims[1].path(), &under(&destination, b"bundle"));
    let err = claims_for_torrent(&meta, &base(), &[(5, "x.bin".to_string())], None, None).unwrap_err();
    assert_eq!(err, "storage ownership paths: read/write out of bounds");
    let err = claims_for_torrent(&meta, &base(), &[], Some((0, "..".to_string())), None).unwrap_err();
    assert!(err.starts_with("pending rename ownership paths: "));
}

#[test]
fn pending_rename_of_the_same_name_adds_no_duplicate_claim() {
    let meta = single(b"same.bin");
    let claims = claims_for_torrent(&meta, &base(), &[], Some((0, "same.bin".to_string())), None).unwrap();
    assert_eq!(claims.len(), 1);
    assert_eq!(claims[0].path(), &under(&base(), b"same.bin"));
}
