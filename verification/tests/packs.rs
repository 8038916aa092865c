//! Packs: their manifests, versions, dependencies and order.
use lbr::config::PackConfig;
use lbr::dependency::detect_cycle;
use lbr::pack::{
    parse_package, scan_packs, version_satisfies, FolderEntry, Manifest, PackError, PackTable,
    Package, Requirements,
};

fn requirements(list: &[(&str, &str)]) -> Requirements {
    let mut r = Requirements::new();
    for (pack, requirement) in list {
        r.insert(pack.to_string(), requirement.to_string());
    }
    r
}

fn package(id: &str, version: &str, deps: &[(&str, &str)], conflicts: &[(&str, &str)]) -> Package {
    Package {
        id: id.to_string(),
        name: None,
        version: version.to_string(),
        dependencies: requirements(deps),
        conflicts: requirements(conflicts),
    }
}

fn table_requirements(value: Option<&toml::Value>) -> Option<Requirements> {
    let mut r = Requirements::new();
    if let Some(value) = value {
        for (k, v) in value.as_table()? {
            r.insert(k.clone(), v.as_str()?.to_string());
        }
    }
    Some(r)
}

fn decode(text: &str) -> Option<Package> {
    let table: toml::Table = toml::from_str(text).ok()?;
    Some(Package {
        id: table.get("id")?.as_str()?.to_string(),
        name: table.get("name").and_then(|n| n.as_str()).map(|n| n.to_string()),
        version: table.get("version")?.as_str()?.to_string(),
        dependencies: table_requirements(table.get("dependencies"))?,
        conflicts: table_requirements(table.get("conflicts"))?,
    })
}

fn decode_config(text: &str) -> Option<PackConfig> {
    let table: toml::Table = toml::from_str(text).ok()?;
    let order = table.get("order")?.as_array()?;
    let order = order.iter().map(|v| v.as_str().unwrap().to_string()).collect();
    Some(PackConfig { order })
}

fn folder(name: &str, manifest: Manifest) -> FolderEntry {
    FolderEntry { name: name.to_string(), is_dir: true, manifest }
}

fn make_pack(name: &str, deps: &[(&str, &str)], conflicts: &[(&str, &str)]) -> FolderEntry {
    let mut text = format!("id = \"{name}\"\nversion = \"0.1.0\"\n");
    if !deps.is_empty() {
        text.push_str("\n[dependencies]\n");
        for (dep, req) in deps {
            text.push_str(&format!("{dep} = \"{req}\"\n"));
        }
    }
    if !conflicts.is_empty() {
        text.push_str("\n[conflicts]\n");
        for (other, req) in conflicts {
            text.push_str(&format!("{other} = \"{req}\"\n"));
        }
    }
    folder(name, Manifest::Read(decode(&text)))
}

fn table(list: Vec<Package>) -> PackTable {
    let mut t = PackTable::new();
    for p in list {
        t.insert(p.id.clone(), p);
    }
    t
}

fn texts(list: &[&str]) -> Vec<String> {
    list.iter().map(|s| s.to_string()).collect()
}

#[test]
fn parses_order_and_maps_roots() {
    let stored = decode_config("order = [\"vanilla\", \"mod_a\"]\n");
    let config = PackConfig::load_or_default(stored);
    assert_eq!(config.order(), ["vanilla", "mod_a"]);
    assert_eq!(config.pack_roots("dir"), vec!["dir/vanilla", "dir/mod_a"]);
}

#[test]
fn defaults_when_file_missing() {
    let config = PackConfig::load_or_default(None);
    assert_eq!(config.order(), ["vanilla"]);
}

#[test]
fn discover_creates_and_updates_order() {
    let entries = vec![
        make_pack("vanilla", &[], &[]),
        make_pack("mod_a", &[("vanilla", "=0.1.0")], &[]),
        make_pack("mod_b", &[("mod_a", "*")], &[]),
    ];
    let (config, packages) = PackConfig::discover_and_update("game-data", &entries, None).unwrap();
    assert_eq!(config.order(), ["vanilla", "mod_a", "mod_b"]);
    config.validate(&packages).unwrap();
}

#[test]
fn deleted_pack_removed_from_order() {
    let entries = vec![make_pack("vanilla", &[], &[])];
    let stored = decode_config("order = [\"vanilla\", \"gone\"]\n");
    let (config, _) = PackConfig::discover_and_update("game-data", &entries, stored).unwrap();
    assert_eq!(config.order(), ["vanilla"]);
    assert!(!config.order().contains(&"gone".to_string()));
}

#[test]
fn cycle_rejected_at_generation() {
    let entries = vec![make_pack("a", &[("b", "*")], &[]), make_pack("b", &[("a", "*")], &[])];
    let err = PackConfig::discover_and_update("game-data", &entries, None).unwrap_err();
    assert!(err.message().contains("环"));
}

#[test]
fn missing_dependency_rejected_at_generation() {
    let entries = vec![make_pack("a", &[("vanilla", "*")], &[])];
    let err = PackConfig::discover_and_update("game-data", &entries, None).unwrap_err();
    assert!(err.message().contains("vanilla"));
}

#[test]
fn load_validation_rejects_wrong_dep_order() {
    let packages = table(vec![
        package("vanilla", "0.1.0", &[], &[]),
        package("mod_a", "0.1.0", &[("vanilla", "=0.1.0")], &[]),
    ]);
    let config = PackConfig { order: texts(&["mod_a", "vanilla"]) };
    assert!(config.validate(&packages).is_err());
}

#[test]
fn load_validation_rejects_conflict() {
    let packages =
        table(vec![package("a", "0.1.0", &[], &[("b", "*")]), package("b", "0.1.0", &[], &[])]);
    let config = PackConfig { order: texts(&["a", "b"]) };
    assert!(config.validate(&packages).is_err());
}

#[test]
fn load_validation_rejects_version_mismatch() {
    let packages = table(vec![
        package("vanilla", "0.2.0", &[], &[]),
        package("mod_a", "0.1.0", &[("vanilla", "=0.1.0")], &[]),
    ]);
    let config = PackConfig { order: texts(&["vanilla", "mod_a"]) };
    let err = config.validate(&packages).unwrap_err();
    assert!(err.message().contains("0.2.0"));
}

#[test]
fn parse_package_with_deps_and_conflicts() {
    let pkg = parse_package(decode(
        r#"
id = "mod_a"
name = "模组 A"
version = "0.1.0"

[dependencies]
vanilla = "=0.1.0"
base_lib = "^0.1"

[conflicts]
old_mod = ">=1.0"
"#,
    ))
    .unwrap();
    assert_eq!(pkg.id, "mod_a");
    assert_eq!(pkg.version, "0.1.0");
    assert_eq!(pkg.dependencies.get("vanilla").map(String::as_str), Some("=0.1.0"));
    assert_eq!(pkg.conflicts.get("old_mod").map(String::as_str), Some(">=1.0"));
}

#[test]
fn scan_finds_valid_packs_and_skips_others() {
    let entries = vec![
        folder("vanilla", Manifest::Read(decode("id = \"vanilla\"\nversion = \"0.1.0\"\n"))),
        folder("not-a-pack", Manifest::Absent),
        folder("bad", Manifest::Read(decode("id = \"wrong\"\nversion = \"0.1.0\"\n"))),
    ];
    let packs = scan_packs(&entries);
    assert_eq!(packs.len(), 1);
    assert!(packs.contains_key("vanilla"));
}

#[test]
fn invalid_version_requirement_rejected() {
    let err = parse_package(decode(
        r#"
id = "mod_a"
version = "0.1.0"

[dependencies]
vanilla = "不是版本要求"
"#,
    ))
    .unwrap_err();
    assert!(err.message().contains("非法"));
}

#[test]
fn version_satisfies_cargo_semantics() {
    assert!(version_satisfies("=0.1.0", "0.1.0").unwrap());
    assert!(!version_satisfies("=0.1.0", "0.1.1").unwrap());
    assert!(version_satisfies("^0.1", "0.1.9").unwrap());
    assert!(!version_satisfies("^0.1", "0.2.0").unwrap());
    assert!(version_satisfies(">=1.2", "2.0.0").unwrap());
    assert!(version_satisfies("*", "9.9.9").unwrap());
}

#[test]
fn cycle_detection_reports_cycle() {
    let packages = table(vec![
        package("a", "0.1.0", &[("b", "*")], &[]),
        package("b", "0.1.0", &[("a", "*")], &[]),
    ]);
    assert!(detect_cycle(&packages).is_err());
}

#[test]
fn a_cycle_is_traced_from_pack_to_pack() {
    let packages = table(vec![
        package("c", "0.1.0", &[("a", "*")], &[]),
        package("a", "0.1.0", &[("b", "*")], &[]),
        package("b", "0.1.0", &[("c", "*")], &[]),
        package("d", "0.1.0", &[], &[]),
    ]);
    match detect_cycle(&packages) {
        Err(PackError::Cycle { trace }) => {
            assert_eq!(trace.first(), trace.last());
            assert_eq!(trace.len(), 4);
        }
        other => panic!("no cycle: {other:?}"),
    }
    let chain = table(vec![
        package("a", "0.1.0", &[("b", "*")], &[]),
        package("b", "0.1.0", &[("missing", "*")], &[]),
    ]);
    assert!(detect_cycle(&chain).is_ok());
}

#[test]
fn manifests_are_objected_to() {
    assert!(matches!(parse_package(None), Err(PackError::Malformed)));
    match parse_package(Some(package("a", "one", &[], &[]))) {
        Err(PackError::BadVersion { version }) => assert_eq!(version, "one"),
        other => panic!("{other:?}"),
    }
    match parse_package(Some(package("a", "1.0.0", &[], &[("b", "?")]))) {
        Err(PackError::BadRequirement { subject, requirement }) => {
            assert_eq!((subject.as_str(), requirement.as_str()), ("冲突 b", "?"));
        }
        other => panic!("{other:?}"),
    }
    assert!(matches!(
        version_satisfies("?", "1.0.0"),
        Err(PackError::UnreadableRequirement { requirement }) if requirement == "?"
    ));
    assert!(matches!(
        version_satisfies("*", "?"),
        Err(PackError::UnreadableVersion { version }) if version == "?"
    ));
}

#[test]
fn errors_are_reported_in_sentences() {
    let manifest = |version: &str, deps: &[(&str, &str)], conflicts: &[(&str, &str)]| {
        parse_package(Some(package("a", version, deps, conflicts))).unwrap_err().message()
    };
    assert_eq!(parse_package(None).unwrap_err().message(), "package.toml 解析失败");
    assert_eq!(manifest("one", &[], &[]), "version=\"one\" 不是合法 semver");
    assert_eq!(manifest("1.0.0", &[("b", "\"")], &[]), "依赖 b 的版本要求 \"\\\"\" 非法");
    assert_eq!(manifest("1.0.0", &[], &[("b", "?")]), "冲突 b 的版本要求 \"?\" 非法");
    let compared = |r: &str, v: &str| version_satisfies(r, v).unwrap_err().message();
    assert_eq!(compared("?\n", "1.0.0"), "非法版本要求：\"?\\n\"");
    assert_eq!(compared("*", "x"), "非法包版本：\"x\"");
    let generated = |entries: Vec<FolderEntry>| {
        PackConfig::discover_and_update("game-data", &entries, None).unwrap_err().message()
    };
    assert_eq!(generated(Vec::new()), "game-data 下没有任何有效资源包");
    assert_eq!(
        generated(vec![make_pack("a", &[("vanilla", "*")], &[])]),
        "包 a 依赖的 vanilla 不存在或不是有效包"
    );
    assert_eq!(
        generated(vec![make_pack("a", &[("a", "*")], &[])]),
        "资源包依赖存在环：a → a"
    );
    let packages = table(vec![
        package("a", "0.1.0", &[("gone", "*")], &[]),
        package("b", "0.1.0", &[("c", "=2.0.0")], &[("c", "*")]),
        package("c", "0.1.0", &[], &[]),
        package("d", "0.1.0", &[("c", "*")], &[]),
        package("e", "0.1.0", &[], &[("c", "^0.1")]),
    ]);
    let refused = |order: &[&str]| {
        PackConfig { order: texts(order) }.validate(&packages).unwrap_err().message()
    };
    assert_eq!(refused(&["x"]), "packs.toml 顺序中的包 x 不存在或不是有效包");
    assert_eq!(refused(&["a"]), "包 a 的依赖 gone 不存在或不是有效包");
    assert_eq!(refused(&["b"]), "包 b 依赖 c=2.0.0，但已启用版本是 0.1.0");
    assert_eq!(refused(&["d"]), "包 d 的依赖 c 未启用");
    assert_eq!(refused(&["d", "c"]), "包 d 的依赖 c 必须在它之前加载（当前顺序不满足）");
    assert_eq!(refused(&["c", "e"]), "包 e 与 c^0.1 冲突，不能同时启用");
}

#[test]
fn orders_are_objected_to() {
    let packages = table(vec![
        package("vanilla", "0.1.0", &[], &[]),
        package("mod_a", "0.1.0", &[("vanilla", "*")], &[]),
        package("mod_c", "0.1.0", &[], &[("vanilla", ">=0.1")]),
    ]);
    let config = |order: &[&str]| PackConfig { order: texts(order) };
    assert!(matches!(
        config(&["gone"]).validate(&packages),
        Err(PackError::UnknownPack { .. })
    ));
    assert!(matches!(
        config(&["mod_a"]).validate(&packages),
        Err(PackError::NotEnabled { .. })
    ));
    assert!(matches!(
        config(&["mod_a", "vanilla"]).validate(&packages),
        Err(PackError::WrongOrder { .. })
    ));
    assert!(matches!(
        config(&["vanilla", "mod_c"]).validate(&packages),
        Err(PackError::Conflict { .. })
    ));
    assert!(config(&["vanilla", "mod_a"]).validate(&packages).is_ok());
    assert!(matches!(
        PackConfig::discover_and_update("game-data", &Vec::new(), None),
        Err(PackError::NoPacks { root }) if root == "game-data"
    ));
}

#[test]
fn reconciling_again_changes_nothing() {
    let packages = table(vec![
        package("mod_b", "0.1.0", &[("mod_a", "*")], &[]),
        package("mod_a", "0.1.0", &[("vanilla", "*")], &[]),
        package("vanilla", "0.1.0", &[], &[]),
        package("zoo", "0.1.0", &[], &[]),
    ]);
    let mut config = PackConfig { order: texts(&["zoo", "gone"]) };
    config.reconcile(&packages).unwrap();
    let once = config.order().to_vec();
    assert_eq!(once[0], "zoo");
    assert_eq!(once.len(), 4);
    let at = |id: &str| once.iter().position(|x| x == id).unwrap();
    assert!(at("vanilla") < at("mod_a") && at("mod_a") < at("mod_b"));
    config.reconcile(&packages).unwrap();
    assert_eq!(config.order(), once);
}

#[test]
fn only_changed_text_is_written() {
    assert!(PackConfig::save_if_changed(None, "a"));
    assert!(PackConfig::save_if_changed(Some("b"), "a"));
    assert!(!PackConfig::save_if_changed(Some("a"), "a"));
}

#[test]
fn files_are_no_packs() {
    let mut entry = make_pack("vanilla", &[], &[]);
    entry.is_dir = false;
    let entries = vec![entry, folder("x", Manifest::Unreadable), folder("y", Manifest::Read(None))];
    assert!(scan_packs(&entries).is_empty());
}
