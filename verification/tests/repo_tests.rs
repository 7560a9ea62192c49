//! Repository walks over an in-memory object store: branch
//! resolution, the line-count cache and its at-most-once guarantee,
//! and tree differencing.

use git_stats::errors::GitError;
use git_stats::repo::LineCountMap;
use git_stats::stats::{tree_diff, tree_diff_checked};
use git_stats::Repo;

fn compress(data: &[u8]) -> Vec<u8> {
    miniz_oxide::deflate::compress_to_vec_zlib(data, 6)
}

fn loose(kind: &str, payload: &[u8]) -> Vec<u8> {
    let mut raw = format!("{} {}\0", kind, payload.len()).into_bytes();
    raw.extend_from_slice(payload);
    compress(&raw)
}

fn hex_oid(fill: u8) -> (String, [u8; 20]) {
    let bytes = [fill; 20];
    (bytes.iter().map(|b| format!("{:02x}", b)).collect(), bytes)
}

fn tree_record(mode: &str, name: &str, oid_bytes: &[u8; 20]) -> Vec<u8> {
    let mut rec = format!("{} {}\0", mode, name).into_bytes();
    rec.extend_from_slice(oid_bytes);
    rec
}

/// A store with one commit, a root tree holding the same blob twice
/// and a subtree, and the subtree holding a second blob.
fn sample_repo() -> (Repo, String, String) {
    let (blob1_oid, blob1_bytes) = hex_oid(0x11);
    let (blob2_oid, blob2_bytes) = hex_oid(0x22);
    let (subtree_oid, subtree_bytes) = hex_oid(0x33);
    let (root_oid, root_bytes) = hex_oid(0x44);
    let (commit_oid, _) = hex_oid(0x55);

    let blob1 = loose("blob", b"one\ntwo\n");
    let blob2 = loose("blob", b"single");
    let mut subtree_payload = Vec::new();
    subtree_payload.extend_from_slice(&tree_record("100644", "inner.txt", &blob2_bytes));
    let subtree = loose("tree", &subtree_payload);
    let mut root_payload = Vec::new();
    root_payload.extend_from_slice(&tree_record("100644", "a.txt", &blob1_bytes));
    root_payload.extend_from_slice(&tree_record("100644", "b.txt", &blob1_bytes));
    root_payload.extend_from_slice(&tree_record("40000", "dir", &subtree_bytes));
    let root = loose("tree", &root_payload);
    let commit_text = format!(
        "tree {}\nauthor A <a@x> 1 +0000\ncommitter C <c@x> 2 +0000\n\ninitial\n",
        root_oid
    );
    let commit = loose("commit", commit_text.as_bytes());

    let objects = vec![
        (blob1_oid, blob1),
        (blob2_oid, blob2),
        (subtree_oid, subtree),
        (root_oid.clone(), root),
        (commit_oid.clone(), commit),
    ];
    let refs = vec![("main".to_string(), commit_oid.clone())];
    (Repo::new(objects, refs), commit_oid, root_oid)
}

#[test]
fn branch_resolves_to_commit_oid() {
    let (repo, commit_oid, _) = sample_repo();
    assert_eq!(repo.get_branch_oid("main").unwrap(), commit_oid);
    assert_eq!(repo.get_branch_oid("missing").err(), Some(GitError::BranchNotFound));
}

#[test]
fn branch_loads_its_commit() {
    let (repo, _, root_oid) = sample_repo();
    let commit = repo.get_branch("main").unwrap();
    assert_eq!(commit.tree, root_oid);
    assert_eq!(commit.parent, None);
    assert_eq!(commit.author.name, "A");
    assert_eq!(commit.message, "initial\n");
}

#[test]
fn commit_loads_by_oid() {
    let (repo, commit_oid, root_oid) = sample_repo();
    let commit = repo.get_commit_from_oid(&commit_oid).unwrap();
    assert_eq!(commit.tree, root_oid);
    assert_eq!(commit.oid, commit_oid);
}

#[test]
fn walk_counts_lines_per_path() {
    let (mut repo, _, _) = sample_repo();
    let commit = repo.get_branch("main").unwrap();
    let tree = commit.get_tree(&repo).unwrap();
    let counts = tree.recurs_create_tree_line_count(&mut repo, "");
    assert_eq!(counts.len(), 3);
    assert_eq!(counts.get(&"a.txt".to_string()), Some(3));
    assert_eq!(counts.get(&"b.txt".to_string()), Some(3));
    assert_eq!(counts.get(&"dir/inner.txt".to_string()), Some(1));
}

#[test]
fn walk_loads_each_blob_at_most_once() {
    let (mut repo, _, _) = sample_repo();
    let commit = repo.get_branch("main").unwrap();
    let tree = commit.get_tree(&repo).unwrap();
    assert_eq!(repo.blob_loads, 0);
    let counts = tree.recurs_create_tree_line_count(&mut repo, "");
    // Two distinct blobs stand behind three paths: the shared blob is
    // decompressed and parsed only once.
    assert_eq!(repo.blob_loads, 2);
    assert_eq!(counts.get(&"a.txt".to_string()), counts.get(&"b.txt".to_string()));
    // A second walk over the same tree is served from the cache.
    let again = tree.recurs_create_tree_line_count(&mut repo, "");
    assert_eq!(repo.blob_loads, 2);
    assert_eq!(again.len(), 3);
}

#[test]
fn walk_skips_missing_objects() {
    let (mut repo, _, _) = sample_repo();
    // Remove the subtree's blob from the store.
    let (blob2_oid, _) = hex_oid(0x22);
    repo.objects.retain(|(oid, _)| *oid != blob2_oid);
    let commit = repo.get_branch("main").unwrap();
    let tree = commit.get_tree(&repo).unwrap();
    let counts = tree.recurs_create_tree_line_count(&mut repo, "");
    assert_eq!(counts.len(), 2);
    assert_eq!(counts.get(&"dir/inner.txt".to_string()), None);
}

#[test]
fn cache_hands_back_recorded_counts() {
    let (mut repo, _, _) = sample_repo();
    assert_eq!(repo.get_from_cache(&"k".to_string()), None);
    assert_eq!(repo.add_to_cache("k".to_string(), 7), None);
    assert_eq!(repo.get_from_cache(&"k".to_string()), Some(7));
    assert_eq!(repo.add_to_cache("k".to_string(), 9), Some(7));
    assert_eq!(repo.get_from_cache(&"k".to_string()), Some(9));
}

#[test]
fn enumerate_branches_lists_names() {
    let (repo, _, _) = sample_repo();
    let repo = repo.enumerate_branches().unwrap();
    let names = repo.branches.clone().unwrap();
    assert_eq!(names, vec!["main".to_string()]);
}

#[test]
fn missing_object_is_not_found() {
    let (repo, _, _) = sample_repo();
    assert_eq!(
        repo.get_object_data(&"no such oid".to_string()).err(),
        Some(GitError::ObjectNotFound)
    );
}

fn map_of(pairs: &[(&str, u32)]) -> LineCountMap {
    let mut m = LineCountMap::new();
    for (k, v) in pairs {
        m.insert(k.to_string(), *v);
    }
    m
}

#[test]
fn tree_diff_sums_added_and_removed() {
    // Each distinct key contributes its delta exactly once.
    let current = map_of(&[("a", 5), ("b", 2)]);
    let previous = map_of(&[("a", 3), ("c", 4)]);
    let (removed, added) = tree_diff(&current, &previous);
    assert_eq!(added, 4);
    assert_eq!(removed, 4);
    assert_eq!(tree_diff_checked(&current, &previous), Some((4, 4)));
}

#[test]
fn tree_diff_counts_shared_keys_once() {
    let current = map_of(&[("a", 2)]);
    let previous = map_of(&[("a", 1)]);
    assert_eq!(tree_diff(&current, &previous), (0, 1));
}

#[test]
fn tree_diff_of_equal_tables_is_zero_added() {
    let current = map_of(&[("a", 5)]);
    let previous = map_of(&[("a", 5)]);
    let (removed, added) = tree_diff(&current, &previous);
    assert_eq!((removed, added), (0, 0));
}

#[test]
fn line_count_map_basics() {
    let mut m = LineCountMap::new();
    assert_eq!(m.len(), 0);
    assert_eq!(m.insert("x".to_string(), 1), None);
    assert_eq!(m.insert("y".to_string(), 2), None);
    assert_eq!(m.insert("x".to_string(), 3), Some(1));
    assert_eq!(m.len(), 2);
    assert_eq!(m.get(&"x".to_string()), Some(3));
    assert_eq!(m.get(&"y".to_string()), Some(2));
    assert_eq!(m.get(&"z".to_string()), None);
}
