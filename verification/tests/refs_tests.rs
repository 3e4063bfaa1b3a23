use git_rs::refs::{read_head, read_ref, update_current_ref, RefsError};

#[test]
fn test_read_head_valid() {
    let head = read_head("ref: refs/heads/main\n").unwrap();
    assert_eq!(head, "refs/heads/main");
}

#[test]
fn test_read_head_detached() {
    let result = read_head("a1b2c3d4e5f6a1b2c3d4e5f6a1b2c3d4e5f6a1b2\n");
    assert!(matches!(result.unwrap_err(), RefsError::DetachedHead));
}

#[test]
fn test_read_ref_exists() {
    let r = read_ref(Some("hash123\n"));
    assert_eq!(r, Some("hash123".to_string()));
}

#[test]
fn test_read_ref_missing() {
    let r = read_ref(None);
    assert_eq!(r, None);
}

#[test]
fn test_update_current_ref() {
    let update = update_current_ref("ref: refs/heads/main\n", "new_hash_123", "/repo").unwrap();
    assert_eq!(update.path, "/repo/.git/refs/heads/main");
    assert_eq!(update.contents, "new_hash_123\n");
    assert_eq!(update.contents.trim(), "new_hash_123");
}

#[test]
fn updated_ref_reads_back() {
    let update = update_current_ref("ref: refs/heads/main\n", "0123abcd", "").unwrap();
    assert_eq!(read_ref(Some(&update.contents)), Some("0123abcd".to_string()));
}

#[test]
fn update_with_detached_head_fails() {
    assert!(matches!(
        update_current_ref("0123abcd\n", "new", "/repo").unwrap_err(),
        RefsError::DetachedHead
    ));
}

#[test]
fn read_head_trims_unicode_whitespace() {
    let head = read_head("\u{3000} ref: refs/heads/dev\u{a0}\r\n").unwrap();
    assert_eq!(head, "refs/heads/dev");
}

#[test]
fn read_head_needs_the_space_after_ref() {
    assert!(matches!(read_head("ref:refs/heads/main").unwrap_err(), RefsError::DetachedHead));
    assert!(matches!(read_head("ref:").unwrap_err(), RefsError::DetachedHead));
    assert!(matches!(read_head("").unwrap_err(), RefsError::DetachedHead));
}

#[test]
fn read_ref_of_blank_file_is_empty() {
    assert_eq!(read_ref(Some(" \n\t")), Some(String::new()));
}

#[test]
fn committed_name_reads_back_from_branch() {
    let commit = git_rs::commit::commit_with_timestamp(
        "4b825dc642cb6eb9a060e54bf8d69288fbee4904",
        "Initial test commit",
        None,
        ("Test User".to_string(), "test@example.com".to_string()),
        1_700_000_000,
    );
    let file = git_rs::commit::write_commit(&commit, "/repo").unwrap();
    assert_eq!(file.hash.len(), 40);
    let update = update_current_ref("ref: refs/heads/main\n", &file.hash, "/repo").unwrap();
    assert_eq!(update.path, "/repo/.git/refs/heads/main");
    assert_eq!(read_ref(Some(&update.contents)), Some(file.hash.clone()));
}
