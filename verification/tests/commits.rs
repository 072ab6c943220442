use mox::commit::{commit_hash, create_commit, sort_entries, CommitError, FileEntry};
use mox::hashing::BlobHasher;

fn entry(path: &str, hash: &str) -> FileEntry {
    FileEntry { path: path.to_string(), blob_hash: hash.to_string() }
}

fn paths(v: &Vec<FileEntry>) -> Vec<String> {
    v.iter().map(|e| e.path.clone()).collect()
}

#[test]
fn entries_are_sorted_by_path_bytes() {
    let v = vec![entry("b.package", "2"), entry("B.package", "3"), entry("a/x", "1"), entry("a", "0")];
    let sorted = sort_entries(&v);
    assert_eq!(paths(&sorted), vec!["B.package", "a", "a/x", "b.package"]);
}

#[test]
fn sort_keeps_order_of_equal_paths() {
    let v = vec![entry("m", "first"), entry("a", "x"), entry("m", "second")];
    let sorted = sort_entries(&v);
    assert_eq!(sorted[1].blob_hash, "first");
    assert_eq!(sorted[2].blob_hash, "second");
}

#[test]
fn commit_hash_is_blake3_of_message_then_entries() {
    let v = vec![entry("Mods/a.package", "aa"), entry("Mods/b.package", "bb")];
    let h = commit_hash("base setup", &v);
    let mut hasher = blake3::Hasher::new();
    hasher.update(b"base setup");
    hasher.update(b"Mods/a.package");
    hasher.update(b"aa");
    hasher.update(b"Mods/b.package");
    hasher.update(b"bb");
    assert_eq!(h, hasher.finalize().to_string());
    assert_eq!(h.len(), 64);
}

#[test]
fn commit_sorts_the_staging_area() {
    let staged = vec![entry("z.package", "3"), entry("a.package", "1")];
    let plan = create_commit("msg", &staged, &Vec::new()).ok().unwrap();
    assert_eq!(paths(&plan.entries), vec!["a.package", "z.package"]);
    assert_eq!(plan.hash, commit_hash("msg", &plan.entries));
}

#[test]
fn commit_does_not_depend_on_staging_order() {
    let s1 = vec![entry("a", "1"), entry("b", "2"), entry("c", "3")];
    let s2 = vec![entry("c", "3"), entry("a", "1"), entry("b", "2")];
    let p1 = create_commit("m", &s1, &Vec::new()).ok().unwrap();
    let p2 = create_commit("m", &s2, &Vec::new()).ok().unwrap();
    assert_eq!(p1.hash, p2.hash);
}

#[test]
fn identical_staging_area_is_refused() {
    let staged = vec![entry("b", "2"), entry("a", "1")];
    let previous = vec![entry("a", "1"), entry("b", "2")];
    let r = create_commit("again", &staged, &previous);
    assert!(matches!(r, Err(CommitError::NoChanges)));
    assert_eq!(
        CommitError::NoChanges.message(),
        "No changes detected. The staging area is identical to the last commit."
    );
}

#[test]
fn empty_staging_on_new_branch_is_refused() {
    let r = create_commit("nothing", &Vec::new(), &Vec::new());
    assert!(matches!(r, Err(CommitError::NoChanges)));
}

#[test]
fn recommitting_the_result_is_refused() {
    let staged = vec![entry("z", "9"), entry("k", "5")];
    let plan = create_commit("first", &staged, &Vec::new()).ok().unwrap();
    let again = create_commit("second", &staged, &plan.entries);
    assert!(matches!(again, Err(CommitError::NoChanges)));
}

#[test]
fn changed_blob_is_a_change() {
    let staged = vec![entry("a", "new")];
    let previous = vec![entry("a", "old")];
    assert!(create_commit("update", &staged, &previous).is_ok());
}

#[test]
fn message_changes_the_commit_hash() {
    let v = vec![entry("a", "1")];
    assert_ne!(commit_hash("one", &v), commit_hash("two", &v));
}

#[test]
fn blob_hasher_matches_known_vector() {
    let h = BlobHasher::new();
    assert_eq!(
        h.finalize_hex(),
        "af1349b9f5f9a1a6a0404dea36dcc9499bcb25c9adc112b7cc9a93cae41f3262"
    );
}

#[test]
fn blob_hasher_chunks_give_whole_digest() {
    let data: Vec<u8> = (0..20000u32).map(|i| (i % 251) as u8).collect();
    let mut h = BlobHasher::new();
    for chunk in data.chunks(8192) {
        h.update(chunk);
    }
    assert_eq!(h.finalize_hex(), blake3::hash(&data).to_hex().to_string());
}
