use ogit::porcelain::{checkout, commit};
use ogit::{FsDir, FsEntry, ObjectStore, OgitCommit, OgitError, Timestamp, TzOffset};

fn dir_with(text: &[u8]) -> FsDir {
    FsDir {
        entries: vec![(
            "notes.txt".to_string(),
            FsEntry::File { mode: 0o100644, data: text.to_vec() },
        )],
    }
}

fn at_noon() -> Timestamp {
    Timestamp {
        epoch: 1700000000,
        offset: TzOffset { negative: false, hours: 0, minutes: 0 },
    }
}

const WHO: &str = "A U Thor <author@example.com>";

#[test]
fn test_first_commit_has_no_parent() {
    let mut store = ObjectStore::new();
    let ignores: Vec<String> = Vec::new();
    let c1 = commit(
        &mut store,
        &dir_with(b"v1"),
        &ignores,
        "first\n",
        WHO,
        WHO,
        &at_noon(),
    )
    .unwrap();
    let g1 = OgitCommit::get(&store, &c1.hex_string()).unwrap();
    assert!(g1.parents.is_empty());
    assert_eq!(store.head_id(), Some(c1.hex_string()));
}

#[test]
fn test_second_commit_has_first_as_parent() {
    let mut store = ObjectStore::new();
    let ignores: Vec<String> = Vec::new();
    let c1 = commit(
        &mut store,
        &dir_with(b"v1"),
        &ignores,
        "first\n",
        WHO,
        WHO,
        &at_noon(),
    )
    .unwrap();
    let c2 = commit(
        &mut store,
        &dir_with(b"v2"),
        &ignores,
        "second\n",
        WHO,
        WHO,
        &at_noon(),
    )
    .unwrap();
    let g2 = OgitCommit::get(&store, &c2.hex_string()).unwrap();
    assert_eq!(g2.parents, vec![c1.hex_string()]);
    assert_eq!(store.head_id(), Some(c2.hex_string()));
}

#[test]
fn test_checkout_restores_files_and_moves_head() {
    let mut store = ObjectStore::new();
    let ignores: Vec<String> = Vec::new();
    let c1 = commit(
        &mut store,
        &dir_with(b"old content"),
        &ignores,
        "first\n",
        WHO,
        WHO,
        &at_noon(),
    )
    .unwrap();
    let _c2 = commit(
        &mut store,
        &dir_with(b"new content"),
        &ignores,
        "second\n",
        WHO,
        WHO,
        &at_noon(),
    )
    .unwrap();
    let files = checkout(&mut store, &c1.hex_string()).unwrap();
    assert_eq!(files.len(), 1);
    assert_eq!(files[0].path, "./notes.txt");
    assert_eq!(files[0].data, b"old content".to_vec());
    assert_eq!(store.head_id(), Some(c1.hex_string()));
}

#[test]
fn test_checkout_of_missing_commit_changes_nothing() {
    let mut store = ObjectStore::new();
    let err = checkout(&mut store, &"f".repeat(40)).unwrap_err();
    assert_eq!(err, OgitError::NotFound);
    assert_eq!(store.head_id(), None);
}
