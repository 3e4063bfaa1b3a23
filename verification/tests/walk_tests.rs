use git_rs::object::{read_object, ObjectFile};
use git_rs::walk::{classify_entry, walk_step, ListedKind, WalkAction, WalkEvent, WalkState};

enum Node {
    File(&'static [u8]),
    Dir(Vec<(&'static str, Node)>),
    Other,
}

/// Feeds the walk the listing of `children` (in the given order) and then
/// the end of the listing; returns every object the walk asked to write.
fn list_dir(
    mut state: WalkState,
    children: &[(&'static str, Node)],
    written: &mut Vec<ObjectFile>,
) -> (WalkState, Option<ObjectFile>) {
    for (name, node) in children {
        let kind = match node {
            Node::File(_) => ListedKind::File,
            Node::Dir(_) => ListedKind::Dir,
            Node::Other => ListedKind::Other,
        };
        let (next, action) = walk_step(state, WalkEvent::Listed { name: name.to_string(), kind });
        state = next;
        match (action, node) {
            (WalkAction::Skip, _) => {}
            (WalkAction::StoreBlob, Node::File(content)) => {
                let (next, action) =
                    walk_step(state, WalkEvent::FileRead { content: content.to_vec() });
                state = next;
                match action {
                    WalkAction::WriteObject(file) => written.push(file),
                    other => panic!("unexpected action {:?}", other),
                }
            }
            (WalkAction::Descend, Node::Dir(grandchildren)) => {
                let (next, root) = list_dir(state, grandchildren, written);
                assert!(root.is_none());
                state = next;
            }
            (other, _) => panic!("unexpected action {:?}", other),
        }
    }
    let (next, action) = walk_step(state, WalkEvent::ListingDone);
    match action {
        WalkAction::WriteObject(file) => {
            written.push(file);
            (next, None)
        }
        WalkAction::WriteRoot(file) => (next, Some(file)),
        other => panic!("unexpected action {:?}", other),
    }
}

fn snapshot(children: &[(&'static str, Node)]) -> (ObjectFile, Vec<ObjectFile>) {
    let mut written = Vec::new();
    let (state, root) = list_dir(WalkState::new("/repo"), children, &mut written);
    assert!(state.is_done());
    (root.unwrap(), written)
}

#[test]
fn walk_of_empty_dir_is_the_empty_tree() {
    let (root, written) = snapshot(&[]);
    assert!(written.is_empty());
    assert_eq!(root.hash, "4b825dc642cb6eb9a060e54bf8d69288fbee4904");
    let (kind, content) = read_object(&root.data).unwrap();
    assert_eq!(kind, "tree");
    assert!(content.is_empty());
}

#[test]
fn walk_skips_git_dir() {
    let (root, written) = snapshot(&[
        ("file.txt", Node::File(b"data")),
        (".git", Node::Dir(vec![("HEAD", Node::File(b"ref: refs/heads/main"))])),
    ]);
    assert_eq!(written.len(), 1);
    let (_, content) = read_object(&root.data).unwrap();
    let text = String::from_utf8_lossy(&content);
    assert!(text.contains("file.txt"));
    assert!(!text.contains(".git"), "Tree should ignore .git directory");
}

#[test]
fn walk_writes_children_before_parents() {
    let (root, written) = snapshot(&[
        ("sample.txt", Node::File(b"x")),
        ("folder1", Node::Dir(vec![("file1.txt", Node::File(b"y"))])),
    ]);
    // blob sample.txt, blob file1.txt, tree folder1, then the root.
    assert_eq!(written.len(), 3);
    let (kind, _) = read_object(&written[2].data).unwrap();
    assert_eq!(kind, "tree");
    let (_, root_content) = read_object(&root.data).unwrap();
    let folder_hash = hex::decode(&written[2].hash).unwrap();
    let mut expected = b"040000 folder1\0".to_vec();
    expected.extend_from_slice(&folder_hash);
    let position = root_content
        .windows(expected.len())
        .position(|w| w == expected.as_slice());
    assert_eq!(position, Some(0), "folder1 sorts before sample.txt");
}

#[test]
fn walk_ignores_listing_order_at_every_level() {
    let (a, _) = snapshot(&[
        ("b.txt", Node::File(b"b")),
        ("dir", Node::Dir(vec![("y", Node::File(b"1")), ("x", Node::File(b"2"))])),
        ("a.txt", Node::File(b"a")),
    ]);
    let (b, _) = snapshot(&[
        ("a.txt", Node::File(b"a")),
        ("dir", Node::Dir(vec![("x", Node::File(b"2")), ("y", Node::File(b"1"))])),
        ("b.txt", Node::File(b"b")),
    ]);
    assert_eq!(a.hash, b.hash);
    assert_eq!(a.data, b.data);
}

#[test]
fn walk_leaves_out_other_entries() {
    let (with_other, _) = snapshot(&[("a", Node::File(b"a")), ("link", Node::Other)]);
    let (without, _) = snapshot(&[("a", Node::File(b"a"))]);
    assert_eq!(with_other.hash, without.hash);
}

#[test]
fn walk_rejects_out_of_step_events() {
    let state = WalkState::new("/repo");
    let (state, action) = walk_step(state, WalkEvent::FileRead { content: vec![1] });
    assert!(matches!(action, WalkAction::Unexpected));
    let (state, action) = walk_step(
        state,
        WalkEvent::Listed { name: "f".to_string(), kind: ListedKind::File },
    );
    assert!(matches!(action, WalkAction::StoreBlob));
    let (state, action) = walk_step(state, WalkEvent::ListingDone);
    assert!(matches!(action, WalkAction::Unexpected));
    let (state, action) = walk_step(state, WalkEvent::FileRead { content: vec![] });
    assert!(matches!(action, WalkAction::WriteObject(_)));
    let (state, action) = walk_step(state, WalkEvent::ListingDone);
    assert!(matches!(action, WalkAction::WriteRoot(_)));
    assert!(state.is_done());
    let (_, action) = walk_step(state, WalkEvent::ListingDone);
    assert!(matches!(action, WalkAction::Unexpected));
}

#[test]
fn classify_entries() {
    assert!(matches!(classify_entry(".git", ListedKind::Dir), WalkAction::Skip));
    assert!(matches!(classify_entry(".git", ListedKind::File), WalkAction::Skip));
    assert!(matches!(classify_entry("src", ListedKind::Dir), WalkAction::Descend));
    assert!(matches!(classify_entry("a.rs", ListedKind::File), WalkAction::StoreBlob));
    assert!(matches!(classify_entry("sock", ListedKind::Other), WalkAction::Skip));
}

#[test]
fn walk_writes_nested_entries_before_their_trees() {
    let (root, written) = snapshot(&[(
        "outer",
        Node::Dir(vec![
            ("inner", Node::Dir(vec![("deep.txt", Node::File(b"deep"))])),
            ("mid.txt", Node::File(b"mid")),
        ]),
    )]);
    // blob deep.txt, tree inner, blob mid.txt, tree outer, then the root.
    assert_eq!(written.len(), 4);
    let kinds: Vec<String> = written.iter().map(|f| read_object(&f.data).unwrap().0).collect();
    assert_eq!(kinds, vec!["blob", "tree", "blob", "tree"]);
    assert_eq!(read_object(&written[0].data).unwrap().1, b"deep".to_vec());
    assert_eq!(read_object(&written[2].data).unwrap().1, b"mid".to_vec());

    // Every entry of every tree names an object written before that tree.
    let trees = [(1usize, &written[1]), (3, &written[3]), (4, &root)];
    for (position, tree) in trees {
        let (_, content) = read_object(&tree.data).unwrap();
        let mut rest = content.as_slice();
        while !rest.is_empty() {
            let nul = rest.iter().position(|b| *b == 0).unwrap();
            let id = hex::encode(&rest[nul + 1..nul + 21]);
            let earlier = written[..position].iter().any(|f| f.hash == id);
            assert!(earlier, "entry {} is written before its tree", id);
            rest = &rest[nul + 21..];
        }
    }
}
