use git_rs::object::{read_object, write_object};
use git_rs::walk::{walk_step, ListedKind, WalkAction, WalkEvent, WalkState};
use git_rs::tree::{
    is_skipped_entry, serialize_tree, sort_entries, write_tree, TreeEntry, TreeError,
};

fn blob_hash(content: &[u8]) -> String {
    write_object("blob", content, "/repo").unwrap().hash
}

fn names(entries: &[TreeEntry]) -> Vec<String> {
    entries.iter().map(|e| e.name.clone()).collect()
}

#[test]
fn test_write_tree_empty_dir() {
    let stored = write_tree(Vec::new(), "/repo").unwrap();
    let hash = stored.hash.clone();
    assert_eq!(hash.len(), 40);

    let (kind, content) = read_object(&stored.data).unwrap();
    assert_eq!(kind, "tree");
    assert!(
        content.is_empty(),
        "Empty directory should produce empty tree content"
    );
    assert_eq!(hash, "4b825dc642cb6eb9a060e54bf8d69288fbee4904");
}

#[test]
fn test_write_tree_sorting_and_modes() {
    // Entries arrive in reverse alphabetical order.
    let empty_tree = write_tree(Vec::new(), "/repo").unwrap().hash;
    let entries = vec![
        TreeEntry::file("zebra.txt".to_string(), blob_hash(b"z")),
        TreeEntry::file("apple.txt".to_string(), blob_hash(b"a")),
        TreeEntry::directory("banana_dir".to_string(), empty_tree),
    ];

    let stored = write_tree(entries, "/repo").unwrap();
    let (kind, content) = read_object(&stored.data).unwrap();
    assert_eq!(kind, "tree");

    let text = String::from_utf8_lossy(&content);

    let apple_pos = text.find("apple.txt").unwrap();
    let banana_pos = text.find("banana_dir").unwrap();
    let zebra_pos = text.find("zebra.txt").unwrap();

    assert!(apple_pos < banana_pos, "apple should come before banana");
    assert!(banana_pos < zebra_pos, "banana should come before zebra");

    assert!(text.contains("100644"), "Files should have 100644 mode");
    assert!(
        text.contains("040000"),
        "Directories should have 040000 mode"
    );
}

#[test]
fn test_write_tree_ignores_git_dir() {
    // The walk is fed the listing of a directory holding `file.txt` and `.git`.
    let mut state = WalkState::new("/repo");
    let mut written = Vec::new();
    let listing = [("file.txt", ListedKind::File), (".git", ListedKind::Dir)];
    for (name, kind) in listing {
        let (next, action) = walk_step(state, WalkEvent::Listed { name: name.to_string(), kind });
        state = next;
        match action {
            WalkAction::Skip => {}
            WalkAction::StoreBlob => {
                let (next, action) =
                    walk_step(state, WalkEvent::FileRead { content: b"data".to_vec() });
                state = next;
                match action {
                    WalkAction::WriteObject(file) => written.push(file),
                    other => panic!("unexpected action {:?}", other),
                }
            }
            other => panic!("unexpected action {:?}", other),
        }
    }
    let (_, action) = walk_step(state, WalkEvent::ListingDone);
    let root = match action {
        WalkAction::WriteRoot(file) => file,
        other => panic!("unexpected action {:?}", other),
    };
    assert_eq!(written.len(), 1);
    let (_, content) = read_object(&root.data).unwrap();
    let text = String::from_utf8_lossy(&content);

    assert!(text.contains("file.txt"));
    assert!(!text.contains(".git"), "Tree should ignore .git directory");
}

#[test]
fn tree_entry_bytes_are_exact() {
    let hash = "e69de29bb2d1d6434b8b29ae775ad8c2e48c5391";
    let entries = vec![TreeEntry::file("a".to_string(), hash.to_string())];
    let bytes = serialize_tree(&entries).unwrap();
    let mut expected = b"100644 a\0".to_vec();
    expected.extend_from_slice(&hex::decode(hash).unwrap());
    assert_eq!(bytes, expected);
    assert_eq!(bytes.len(), 6 + 1 + 1 + 1 + 20);
}

#[test]
fn sort_is_byte_order() {
    let h = blob_hash(b"");
    let entries = vec![
        TreeEntry::file("b".to_string(), h.clone()),
        TreeEntry::file("Readme.md".to_string(), h.clone()),
        TreeEntry::file("a.txt".to_string(), h.clone()),
        TreeEntry::file("a".to_string(), h.clone()),
        TreeEntry::file("Makefile".to_string(), h.clone()),
    ];
    let sorted = sort_entries(entries);
    assert_eq!(names(&sorted), vec!["Makefile", "Readme.md", "a", "a.txt", "b"]);
}

#[test]
fn tree_hash_ignores_arrival_order() {
    let h1 = blob_hash(b"one");
    let h2 = blob_hash(b"two");
    let first = write_tree(
        vec![
            TreeEntry::file("x".to_string(), h1.clone()),
            TreeEntry::file("y".to_string(), h2.clone()),
        ],
        "/repo",
    )
    .unwrap();
    let second = write_tree(
        vec![
            TreeEntry::file("y".to_string(), h2),
            TreeEntry::file("x".to_string(), h1),
        ],
        "/repo",
    )
    .unwrap();
    assert_eq!(first.hash, second.hash);
    assert_eq!(first.data, second.data);
}

#[test]
fn bad_hash_is_a_hex_error() {
    let entries = vec![TreeEntry::file("a".to_string(), "xyz".to_string())];
    assert!(matches!(write_tree(entries, "/repo").unwrap_err(), TreeError::Hex(_)));
    let entries = vec![TreeEntry::file("a".to_string(), "abc".to_string())];
    assert!(matches!(serialize_tree(&entries).unwrap_err(), TreeError::Hex(_)));
}

#[test]
fn skipped_entries() {
    assert!(is_skipped_entry(".git"));
    assert!(!is_skipped_entry(".gitignore"));
    assert!(!is_skipped_entry("git"));
}
