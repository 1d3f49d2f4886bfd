use ogit::tree::{
    build_tree_data, get_filename, parse_tree_data, parse_tree_payload, read_tree, write_tree,
};
use ogit::{FsDir, FsEntry, ObjectStore, OgitObject, OgitObjectType, TreeEntry};

fn sample_dir() -> FsDir {
    FsDir {
        entries: vec![
            (
                "a.txt".to_string(),
                FsEntry::File { mode: 0o100644, data: b"alpha".to_vec() },
            ),
            (
                "sub".to_string(),
                FsEntry::Dir(FsDir {
                    entries: vec![(
                        "b.txt".to_string(),
                        FsEntry::File { mode: 0o100755, data: b"beta".to_vec() },
                    )],
                }),
            ),
        ],
    }
}

#[test]
fn test_tree_entry_display_file() {
    let test_object = OgitObject::new(b"hello world", OgitObjectType::Blob);
    let entry = TreeEntry::new("src/data/objects.rs", 0o100644, test_object.clone());
    assert_eq!(entry.filemode.len(), 6);
    assert_eq!(entry.filemode, "100644");
    assert_eq!(entry.filename, "objects.rs");
    assert_eq!(entry.id, test_object.hex_string());
}

#[test]
fn test_tree_entry_display_folder() {
    let test_object = OgitObject::new(b"hello world", OgitObjectType::Tree);
    let entry = TreeEntry::new("src/data", 0o40755, test_object.clone());
    assert_eq!(entry.filemode.len(), 6);
    assert_eq!(entry.filemode, "040000");
    assert_eq!(entry.filename, "data");
    assert_eq!(entry.id, test_object.hex_string());
}

#[test]
fn test_entry_line_text() {
    let object = OgitObject::new(b"hello world", OgitObjectType::Blob);
    let entry = TreeEntry::new("dir/notes.txt", 0o100644, object.clone());
    let line = entry.line_string();
    assert_eq!(
        line,
        format!("100644 blob {} notes.txt", object.hex_string())
    );
}

#[test]
fn test_get_filename() {
    assert_eq!(get_filename("src/data/objects.rs"), Some("objects.rs".to_string()));
    assert_eq!(get_filename("plain"), Some("plain".to_string()));
    assert_eq!(get_filename("ends/with/"), None);
}

#[test]
fn test_tree_data_round_trip() {
    let object = OgitObject::new(b"x", OgitObjectType::Blob);
    let entries = vec![
        TreeEntry {
            filemode: "100644".to_string(),
            filename: "a.txt".to_string(),
            id: object.hex_string(),
            variant: OgitObjectType::Blob,
        },
        TreeEntry {
            filemode: "040000".to_string(),
            filename: "sub".to_string(),
            id: object.hex_string(),
            variant: OgitObjectType::Tree,
        },
    ];
    let data = build_tree_data(&entries);
    let parsed = parse_tree_payload(&data).unwrap();
    assert_eq!(parsed.len(), 2);
    assert_eq!(parsed[0].filemode, "100644");
    assert_eq!(parsed[0].filename, "a.txt");
    assert_eq!(parsed[0].variant, OgitObjectType::Blob);
    assert_eq!(parsed[1].filemode, "040000");
    assert_eq!(parsed[1].filename, "sub");
    assert_eq!(parsed[1].variant, OgitObjectType::Tree);
}

#[test]
fn test_write_then_read_restores_files() {
    let mut store = ObjectStore::new();
    let ignores: Vec<String> = Vec::new();
    let dir = sample_dir();
    let tree = write_tree(&mut store, &dir, &ignores);
    let files = read_tree(&store, &tree.hex_string()).unwrap();
    assert_eq!(files.len(), 2);
    assert_eq!(files[0].path, "./a.txt");
    assert_eq!(files[0].filemode, "100644");
    assert_eq!(files[0].data, b"alpha".to_vec());
    assert_eq!(files[1].path, "./sub/b.txt");
    assert_eq!(files[1].filemode, "100755");
    assert_eq!(files[1].data, b"beta".to_vec());
}

#[test]
fn test_same_content_same_tree_id() {
    let mut store1 = ObjectStore::new();
    let mut store2 = ObjectStore::new();
    let ignores: Vec<String> = Vec::new();
    let t1 = write_tree(&mut store1, &sample_dir(), &ignores);
    let t2 = write_tree(&mut store2, &sample_dir(), &ignores);
    assert_eq!(t1.hex_string(), t2.hex_string());
}

#[test]
fn test_nested_change_alters_root_id() {
    let mut store = ObjectStore::new();
    let ignores: Vec<String> = Vec::new();
    let t1 = write_tree(&mut store, &sample_dir(), &ignores);
    let mut changed = sample_dir();
    changed.entries[1].1 = FsEntry::Dir(FsDir {
        entries: vec![(
            "b.txt".to_string(),
            FsEntry::File { mode: 0o100755, data: b"gamma".to_vec() },
        )],
    });
    let t2 = write_tree(&mut store, &changed, &ignores);
    assert_ne!(t1.hex_string(), t2.hex_string());
}

#[test]
fn test_ignored_entries_are_skipped() {
    let mut store = ObjectStore::new();
    let raw = vec!["*.tmp".to_string()];
    let ignores = ogit::ignore::ignore_matchers(&raw);
    let dir = FsDir {
        entries: vec![
            (
                "keep.txt".to_string(),
                FsEntry::File { mode: 0o100644, data: b"keep".to_vec() },
            ),
            (
                "drop.tmp".to_string(),
                FsEntry::File { mode: 0o100644, data: b"drop".to_vec() },
            ),
            (
                ".ogit".to_string(),
                FsEntry::Dir(FsDir { entries: Vec::new() }),
            ),
        ],
    };
    let tree = write_tree(&mut store, &dir, &ignores);
    let files = read_tree(&store, &tree.hex_string()).unwrap();
    assert_eq!(files.len(), 1);
    assert_eq!(files[0].path, "./keep.txt");
}

#[test]
fn test_parse_tree_data_from_store() {
    let mut store = ObjectStore::new();
    let ignores: Vec<String> = Vec::new();
    let tree = write_tree(&mut store, &sample_dir(), &ignores);
    let id = tree.hex_string();
    let entries = parse_tree_data(&store, Some(&id)).unwrap();
    assert_eq!(entries.len(), 2);
    assert_eq!(entries[0].filename, "a.txt");
    assert_eq!(entries[1].filename, "sub");
    let none = parse_tree_data(&store, None).unwrap();
    assert!(none.is_empty());
}
