//! Looking files up in packs.
use lbr::game_path::GamePath;
use lbr::resource::{MergedResourceSpace, ResourceError};
use std::collections::HashMap;

fn files(list: &[(&str, &[u8])]) -> HashMap<String, Vec<u8>> {
    list.iter().map(|(name, bytes)| (name.to_string(), bytes.to_vec())).collect()
}

#[test]
fn opens_files_within_merged_space() {
    let disk = files(&[("root/vanilla/data/x.toml", b"hello")]);
    let is_file = |p: &str| disk.contains_key(p);
    let read = |p: &str| disk.get(p).cloned();

    let space = MergedResourceSpace::new("root".to_string());
    let path: GamePath = "vanilla:data/x.toml".parse().unwrap();
    assert!(space.has_file(&path, is_file));
    assert_eq!(space.read(&path, is_file, read).unwrap(), b"hello");

    let missing: GamePath = "vanilla:data/nope.toml".parse().unwrap();
    assert!(!space.has_file(&missing, is_file));
    assert_eq!(space.read(&missing, is_file, read).unwrap_err(), ResourceError::NotFound);
}

#[test]
fn later_pack_overrides_earlier() {
    let disk = files(&[
        ("base/test/x.txt", b"base"),
        ("override/test/x.txt", b"override"),
        ("base/test/only-base.txt", b"only"),
    ]);
    let is_file = |p: &str| disk.contains_key(p);
    let read = |p: &str| disk.get(p).cloned();

    let space =
        MergedResourceSpace::from_pack_roots(vec!["base".to_string(), "override".to_string()]);
    let overridden: GamePath = "test:x.txt".parse().unwrap();
    assert_eq!(space.read(&overridden, is_file, read).unwrap(), b"override");

    let base_only: GamePath = "test:only-base.txt".parse().unwrap();
    assert_eq!(space.read(&base_only, is_file, read).unwrap(), b"only");
    assert_eq!(space.resolve(&base_only, is_file).unwrap(), "base/test/only-base.txt");

    let missing: GamePath = "test:nope.txt".parse().unwrap();
    assert!(!space.has_file(&missing, is_file));
    assert!(space.read(&missing, is_file, read).is_err());
}

#[test]
fn roots_keep_their_order() {
    let space = MergedResourceSpace::from_pack_roots(vec!["a".to_string(), "b".to_string()]);
    assert_eq!(space.roots(), ["a".to_string(), "b".to_string()]);
    assert_eq!(MergedResourceSpace::new("c".to_string()).roots(), ["c".to_string()]);
}

#[test]
fn a_file_that_cannot_be_read_is_reported() {
    let space = MergedResourceSpace::new("root".to_string());
    let path: GamePath = "a:b".parse().unwrap();
    let r = space.read(&path, |_: &str| true, |_: &str| None);
    assert_eq!(r.unwrap_err(), ResourceError::Unreadable);
}
