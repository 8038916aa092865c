//! Game paths and the places they stand for.
use lbr::game_path::{normalize_path, GamePath, GamePathError};

#[test]
fn parse_and_roundtrip() {
    let p: GamePath = "vanilla:models/tiles/corridor.glb".parse().unwrap();
    assert_eq!(p.namespace(), "vanilla");
    assert_eq!(p.path(), "models/tiles/corridor.glb");
    assert_eq!(p.to_string(), "vanilla:models/tiles/corridor.glb");
}

#[test]
fn normalize_equivalent_addresses() {
    let a: GamePath = "vanilla:a//b/c.glb".parse().unwrap();
    let b: GamePath = "vanilla:a/b/c.glb".parse().unwrap();
    assert_eq!(a, b);
    assert_eq!(a.path(), "a/b/c.glb");

    let c: GamePath = "vanilla:a/b/c.glb/".parse().unwrap();
    assert_eq!(c, b);
    assert_eq!(c.path(), "a/b/c.glb");

    assert!("vanilla://".parse::<GamePath>().is_err());
    assert!("vanilla://a".parse::<GamePath>().is_err());
}

#[test]
fn all_spellings_of_a_path_are_one() {
    for s in ["", "/", "///", "a", "a/", "//a//B///c.glb//", "é/字"] {
        let once = normalize_path(s);
        assert_eq!(normalize_path(&once), once);
        assert_eq!(normalize_path(&format!("{s}/")), once);
        assert_eq!(normalize_path(&format!("{s}//b")), normalize_path(&format!("{s}/b")));
    }
    assert_eq!(normalize_path("//a//B///c.glb//"), "/a/B/c.glb");
    assert_eq!(normalize_path("///"), "");
}

#[test]
fn resolve_to_package_root() {
    let p: GamePath = "vanilla:data/levels/level-0.toml".parse().unwrap();
    assert_eq!(p.resolve("game-data"), "game-data/vanilla/data/levels/level-0.toml");
}

#[test]
fn rejects_invalid_input() {
    assert!("vanilla/models.glb".parse::<GamePath>().is_err());
    assert!(":models.glb".parse::<GamePath>().is_err());
    assert!("vanilla:".parse::<GamePath>().is_err());
    assert!("..:data/x".parse::<GamePath>().is_err());
    assert!(".:data/x".parse::<GamePath>().is_err());
    assert!(".hidden:data/x".parse::<GamePath>().is_err());
    assert!("vanilla:../secret".parse::<GamePath>().is_err());
    assert!("vanilla:a/./b".parse::<GamePath>().is_err());
    assert!("vanilla:/etc/passwd".parse::<GamePath>().is_err());
    assert!("vanilla:models\\x.glb".parse::<GamePath>().is_err());
    assert!("vanilla:models/x.glb".parse::<GamePath>().is_ok());
    assert!("vanilla:models/a..b.glb".parse::<GamePath>().is_ok());
}

#[test]
fn serde_roundtrip() {
    let p: GamePath = "vanilla:data/levels/level-0.toml".parse().unwrap();
    let mut holder = toml::Table::new();
    holder.insert("path".to_string(), toml::Value::String(p.to_string()));
    let text = toml::to_string(&holder).unwrap();
    assert_eq!(text, "path = \"vanilla:data/levels/level-0.toml\"\n");
    let back: toml::Table = toml::from_str(&text).unwrap();
    let path: GamePath = back["path"].as_str().unwrap().parse().unwrap();
    assert_eq!(path, p);
}

fn objection(s: &str) -> GamePathError {
    GamePath::parse(s).unwrap_err()
}

#[test]
fn each_objection_has_its_name() {
    assert_eq!(objection("vanilla/models.glb"), GamePathError::MissingSeparator);
    assert_eq!(objection(":models.glb"), GamePathError::EmptyNamespace);
    assert_eq!(objection(".hidden:x"), GamePathError::DotNamespace);
    assert_eq!(objection("a b:x"), GamePathError::NamespaceCharacter);
    assert_eq!(objection("vanilla:"), GamePathError::EmptyPath);
    assert_eq!(objection("vanilla:/x"), GamePathError::RootedPath);
    assert_eq!(objection("vanilla:a/../b"), GamePathError::DotSegment);
    assert_eq!(objection("vanilla:a b"), GamePathError::PathCharacter);
}

#[test]
fn parts_are_checked_like_whole_addresses() {
    let whole = GamePath::parse("mod_a:a//b/").unwrap();
    let parts = GamePath::new("mod_a", "a/b").unwrap();
    assert_eq!(whole, parts);
    assert_eq!(GamePath::new("", "a").unwrap_err(), GamePathError::EmptyNamespace);
}

#[test]
fn spelling_out_and_reading_back_changes_nothing() {
    for s in ["vanilla:a", "mod-1:models//x.glb", "m:a/b/c/"] {
        let once = GamePath::parse(s).unwrap();
        let twice = GamePath::parse(&once.to_string()).unwrap();
        assert_eq!(once, twice);
        assert_eq!(once.to_string(), twice.to_string());
    }
}

#[test]
fn copies_are_equal() {
    let p = GamePath::parse("test:x").unwrap();
    assert_eq!(p.clone(), p);
    assert_ne!(GamePath::parse("test:y").unwrap(), p);
}
