use git_rs::commit::{
    commit_string, commit_with_timestamp, create_commit, get_timestamp, serialize_commit,
    write_commit_object,
};
use git_rs::config::{get_author, GitConfig, UserConfig};
use git_rs::object::read_object;

fn config(name: &str, email: &str) -> Option<GitConfig> {
    Some(GitConfig {
        user: UserConfig {
            name: name.to_string(),
            email: email.to_string(),
        },
    })
}

#[test]
fn test_write_commit_no_parent() {
    let author = get_author(config("Alice", "alice@test.com"));
    let stored = write_commit_object("tree_hash_123", "my message", None, author, "/repo").unwrap();
    assert_eq!(stored.hash.len(), 40);

    let (kind, content) = read_object(&stored.data).unwrap();
    assert_eq!(kind, "commit");
    let text = String::from_utf8(content).unwrap();

    assert!(text.contains("tree tree_hash_123"));
    assert!(text.contains("author Alice <alice@test.com>"));
    assert!(text.contains("\nmy message\n"));
    assert!(
        !text.contains("parent"),
        "Root commit should NOT have a parent header"
    );
}

#[test]
fn test_write_commit_with_parent() {
    let author = get_author(config("Bob", "bob@test.com"));
    let stored =
        write_commit_object("tree_hash_123", "msg", Some("parent_hash_456"), author, "/repo")
            .unwrap();
    let (_, content) = read_object(&stored.data).unwrap();
    let text = String::from_utf8(content).unwrap();

    assert!(
        text.contains("parent parent_hash_456"),
        "Child commit MUST have parent header"
    );
}

#[test]
fn test_commit_fallback_unknown_user() {
    // No configuration could be read.
    let author = get_author(None);
    let stored = write_commit_object("tree_hash", "msg", None, author, "/repo").unwrap();
    let (_, content) = read_object(&stored.data).unwrap();
    let text = String::from_utf8(content).unwrap();

    assert!(
        text.contains("unknown_user"),
        "Should fallback to unknown_user when config is missing"
    );
    assert!(text.contains("unknown@localhost"));
}

#[test]
fn test_get_timestamp_is_modern() {
    let ts = get_timestamp().unwrap();
    // Assert it's greater than Jan 1, 2024
    assert!(ts > 1704067200);
}

#[test]
fn commit_text_is_exact() {
    let commit = commit_with_timestamp(
        "4b825dc642cb6eb9a060e54bf8d69288fbee4904",
        "first",
        Some("e69de29bb2d1d6434b8b29ae775ad8c2e48c5391"),
        ("Ann".to_string(), "ann@x.org".to_string()),
        1700000000,
    );
    let expected = "tree 4b825dc642cb6eb9a060e54bf8d69288fbee4904\n\
parent e69de29bb2d1d6434b8b29ae775ad8c2e48c5391\n\
author Ann <ann@x.org> 1700000000 +0000\n\
committer Ann <ann@x.org> 1700000000 +0000\n\
\n\
first\n";
    assert_eq!(commit_string(&commit), expected);
    assert_eq!(serialize_commit(&commit), expected.as_bytes().to_vec());
}

#[test]
fn root_commit_text_has_no_parent_line() {
    let commit = commit_with_timestamp("t", "m", None, ("A".to_string(), "a@b".to_string()), 0);
    assert_eq!(
        commit_string(&commit),
        "tree t\nauthor A <a@b> 0 +0000\ncommitter A <a@b> 0 +0000\n\nm\n"
    );
}

#[test]
fn create_commit_signs_author_and_committer_alike() {
    let commit = create_commit("t", "m", None, ("A".to_string(), "a@b".to_string())).unwrap();
    assert_eq!(commit.author.name, "A");
    assert_eq!(commit.committer.email, "a@b");
    assert_eq!(commit.author.timestamp, commit.committer.timestamp);
    assert_eq!(commit.author.timezone, "+0000");
    assert_eq!(commit.committer.timezone, "+0000");
    assert!(commit.parent.is_none());
}

#[test]
fn get_author_uses_config() {
    assert_eq!(
        get_author(config("Test User", "test@example.com")),
        ("Test User".to_string(), "test@example.com".to_string())
    );
    assert_eq!(
        get_author(None),
        ("unknown_user".to_string(), "unknown@localhost".to_string())
    );
}
