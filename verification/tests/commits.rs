use ogit::commits::commit_tree;
use ogit::{ObjectStore, OgitCommit, OgitError, OgitObjectType, Timestamp, TzOffset};

fn plus_one_thirty() -> Timestamp {
    Timestamp {
        epoch: 1700000000,
        offset: TzOffset { negative: false, hours: 1, minutes: 30 },
    }
}

#[test]
fn test_commit_round_trip_two_parents() {
    let mut store = ObjectStore::new();
    let tree = store.hash_object(b"", Some(OgitObjectType::Tree));
    let tid = tree.hex_string();
    let parents = vec!["a".repeat(40), "b".repeat(40)];
    let t = plus_one_thirty();
    let commit = commit_tree(
        &mut store,
        &tid,
        &parents,
        "subject line\n\nbody with bytes \u{1F389}\n",
        "A U Thor <author@example.com>",
        "C O Mitter <committer@example.com>",
        &t,
    )
    .unwrap();
    let got = OgitCommit::get(&store, &commit.hex_string()).unwrap();
    assert_eq!(got.tree, tid);
    assert_eq!(got.parents, parents);
    assert_eq!(got.author, "A");
    assert_eq!(got.author_time, t);
    assert_eq!(got.committer, "C");
    assert_eq!(got.committer_time, t);
    assert_eq!(
        got.message,
        "subject line\n\nbody with bytes \u{1F389}\n".as_bytes().to_vec()
    );
}

#[test]
fn test_commit_payload_text() {
    let mut store = ObjectStore::new();
    let tree = store.hash_object(b"", Some(OgitObjectType::Tree));
    let tid = tree.hex_string();
    let t = Timestamp {
        epoch: -90,
        offset: TzOffset { negative: true, hours: 5, minutes: 0 },
    };
    let commit = commit_tree(
        &mut store,
        &tid,
        &Vec::new(),
        "msg  \t\n",
        "Ann Example <ann@example.com>",
        "Ann Example <ann@example.com>",
        &t,
    )
    .unwrap();
    let expected = format!(
        "tree {tid}\nauthor Ann Example <ann@example.com> -90 -0500\ncommitter Ann Example <ann@example.com> -90 -0500\n\nmsg\n"
    );
    assert_eq!(commit.data, expected.as_bytes().to_vec());
}

#[test]
fn test_commit_tree_requires_stored_tree() {
    let mut store = ObjectStore::new();
    let err = commit_tree(
        &mut store,
        &"0".repeat(40),
        &Vec::new(),
        "m\n",
        "A B <a@b>",
        "A B <a@b>",
        &plus_one_thirty(),
    )
    .unwrap_err();
    assert_eq!(err, OgitError::NotFound);
}

#[test]
fn test_get_epoch_offset_from_line() {
    let t = OgitCommit::get_epoch_offset_from_line("A U Thor <a@t> 123456 +0230").unwrap();
    assert_eq!(t.epoch, 123456);
    assert_eq!(t.offset, TzOffset { negative: false, hours: 2, minutes: 30 });
    let err = OgitCommit::get_epoch_offset_from_line("too few tokens").unwrap_err();
    assert_eq!(err, OgitError::MalformedCommit);
}

#[test]
fn test_commit_new_parses_signatures() {
    let commit = OgitCommit::new(
        "t".repeat(40),
        Vec::new(),
        "A U Thor <a@t> 99 -0000",
        "C O Mitter <c@t> 100 +1159",
        b"message".to_vec(),
    )
    .unwrap();
    assert_eq!(commit.author, "A");
    assert_eq!(commit.author_time.epoch, 99);
    assert!(commit.author_time.offset.negative);
    assert_eq!(commit.committer, "C");
    assert_eq!(commit.committer_time.offset.hours, 11);
    assert_eq!(commit.committer_time.offset.minutes, 59);
}

#[test]
fn test_malformed_commit_payload() {
    let mut store = ObjectStore::new();
    let bogus = store.hash_object(b"not commit metadata", Some(OgitObjectType::Commit));
    let err = OgitCommit::get(&store, &bogus.hex_string()).unwrap_err();
    assert_eq!(err, OgitError::MalformedCommit);
}
