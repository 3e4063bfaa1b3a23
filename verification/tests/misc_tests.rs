use git_rs::commands::{cat_file_mode, CatFileMode};
use git_rs::encoding::{decimal_string, to_hex_lower};
use git_rs::paths::{git_dir_path, join};

#[test]
fn cat_file_flag_priority() {
    assert_eq!(cat_file_mode(true, true, true), Some(CatFileMode::Type));
    assert_eq!(cat_file_mode(true, false, true), Some(CatFileMode::Size));
    assert_eq!(cat_file_mode(true, false, false), Some(CatFileMode::Pretty));
    assert_eq!(cat_file_mode(false, false, false), None);
}

#[test]
fn path_join_rules() {
    assert_eq!(join("/a", "b"), "/a/b");
    assert_eq!(join("/a/", "b"), "/a/b");
    assert_eq!(join("", "b"), "b");
    assert_eq!(join("/a", "/b"), "/b");
    assert_eq!(git_dir_path("/r", "HEAD"), "/r/.git/HEAD");
}

#[test]
fn decimal_and_hex() {
    assert_eq!(decimal_string(0), "0");
    assert_eq!(decimal_string(1704067200), "1704067200");
    assert_eq!(decimal_string(u64::MAX), "18446744073709551615");
    assert_eq!(to_hex_lower(&[0x00, 0x0f, 0xab, 0xff]), b"000fabff".to_vec());
}
