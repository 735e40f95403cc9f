use cargo_interactive_update::cargo::{
    classify_dependencies, extract_dependencies_from_sections, gather_from_sources,
    get_cargo_dependencies, get_package_name, get_workspace_members, member_manifest_key,
    CargoDependencies, CargoDependency,
};
use cargo_interactive_update::dependency::DependencyKind;
use cargo_interactive_update::errors::Error;
use cargo_interactive_update::lock::load_lock_file;
use cargo_interactive_update::toml_model::{get_key, parse_manifest, TomlItem};

#[test]
fn test_cargo_dependencies_len() {
    let cargo_dependencies = CargoDependencies {
        package_name: None,
        dependencies: vec![CargoDependency::default()],
        workspace_members: vec![(
            "".to_string(),
            Box::new(CargoDependencies {
                package_name: None,
                dependencies: vec![CargoDependency::default()],
                workspace_members: vec![],
            }),
        )],
    };
    assert_eq!(cargo_dependencies.len(), 2);
}

const FOUR_SECTION_TOML: &str = r#"
        [dependencies]
        "dependencies" = "^0.1.0"

        [dev-dependencies]
        "dev-dependencies" = "=1.0.0"

        [build-dependencies]
        "build-dependencies" = "^2.0.0"

        [workspace.dependencies]
        "workspace-dependencies" = "^3.0.0"
        "#;

const FOUR_SECTION_LOCK: &str = r#"
        version = 4

        [[package]]
        name = "build-dependencies"
        version = "2.1.0"

        [[package]]
        name = "dependencies"
        version = "0.1.2"

        [[package]]
        name = "dev-dependencies"
        version = "1.0.0"

        [[package]]
        name = "workspace-dependencies"
        version = "3.0.0"
        "#;

#[test]
fn test_get_cargo_dependencies() {
    let cargo_toml = parse_manifest(FOUR_SECTION_TOML).unwrap();
    let lockfile = load_lock_file(FOUR_SECTION_LOCK).unwrap();
    let dependencies = get_cargo_dependencies(&cargo_toml, &lockfile, &vec![], ".").unwrap();
    assert_eq!(dependencies.len(), 4);
    assert!(dependencies.contains(&CargoDependency {
        name: "dependencies".to_string(),
        package: "dependencies".to_string(),
        version: "0.1.2".to_string(),
        kind: DependencyKind::Normal,
        source: None,
        path: None,
    }));
    assert!(dependencies.contains(&CargoDependency {
        name: "dev-dependencies".to_string(),
        package: "dev-dependencies".to_string(),
        version: "1.0.0".to_string(),
        kind: DependencyKind::Dev,
        source: None,
        path: None,
    }));
    assert!(dependencies.contains(&CargoDependency {
        name: "build-dependencies".to_string(),
        package: "build-dependencies".to_string(),
        version: "2.1.0".to_string(),
        kind: DependencyKind::Build,
        source: None,
        path: None,
    }));
    assert!(dependencies.contains(&CargoDependency {
        name: "workspace-dependencies".to_string(),
        package: "workspace-dependencies".to_string(),
        version: "3.0.0".to_string(),
        kind: DependencyKind::Workspace,
        source: None,
        path: None,
    }));
}

#[test]
fn test_extract_dependencies_from_sections() {
    const CARGO_TOML: &str = r#"
        [dependencies]
        "cargo-outdated" = "0.1.0"
        "other-dependency" = { version = "1.0.0" }
        "random-dependency" = { version = "2.0.0", package = "other-name" }
        "invalid-dependency" = 123

        [dependencies.serde]
        version = "1.0.0"
        "#;

    const CARGO_LOCK: &str = r#"
        version = 4

        [[package]]
        name = "cargo-outdated"
        version = "0.1.0"

        [[package]]
        name = "other-dependency"
        version = "1.0.0"

        [[package]]
        name = "other-name"
        version = "2.0.0"

        [[package]]
        name = "serde"
        version = "1.0.0"
        "#;

    let cargo_toml = parse_manifest(CARGO_TOML).unwrap();
    let lockfile = load_lock_file(CARGO_LOCK).unwrap();

    let dependencies = extract_dependencies_from_sections(
        get_key(&cargo_toml, "dependencies"),
        DependencyKind::Normal,
        &lockfile,
        &vec![],
        ".",
    )
    .unwrap();

    assert_eq!(dependencies.len(), 4);
    assert!(dependencies.contains(&CargoDependency {
        name: "cargo-outdated".to_string(),
        package: "cargo-outdated".to_string(),
        version: "0.1.0".to_string(),
        kind: DependencyKind::Normal,
        source: None,
        path: None,
    }));
    assert!(dependencies.contains(&CargoDependency {
        name: "other-dependency".to_string(),
        package: "other-dependency".to_string(),
        version: "1.0.0".to_string(),
        kind: DependencyKind::Normal,
        source: None,
        path: None,
    }));
    assert!(dependencies.contains(&CargoDependency {
        name: "random-dependency".to_string(),
        package: "other-name".to_string(),
        version: "2.0.0".to_string(),
        kind: DependencyKind::Normal,
        source: None,
        path: None,
    }));
    assert!(dependencies.contains(&CargoDependency {
        name: "serde".to_string(),
        package: "serde".to_string(),
        version: "1.0.0".to_string(),
        kind: DependencyKind::Normal,
        source: None,
        path: None,
    }));
}

#[test]
fn test_extract_dependencies_with_none_dependencies_section() {
    const CARGO_LOCK: &str = r#"
        version = 4
        "#;

    let lockfile = load_lock_file(CARGO_LOCK).unwrap();
    let dependencies =
        extract_dependencies_from_sections(None, DependencyKind::Normal, &lockfile, &vec![], ".")
            .unwrap();
    assert_eq!(dependencies.len(), 0);
}

#[test]
fn test_extract_dependencies_with_dependencies_section_not_a_table() {
    const CARGO_LOCK: &str = r#"
        version = 4
        "#;

    let lockfile = load_lock_file(CARGO_LOCK).unwrap();
    let section = TomlItem::Bool(false);
    let dependencies = extract_dependencies_from_sections(
        Some(&section),
        DependencyKind::Normal,
        &lockfile,
        &vec![],
        ".",
    )
    .unwrap();
    assert_eq!(dependencies.len(), 0);
}

#[test]
fn test_get_workspace_members() {
    const CARGO_TOML: &str = r#"
        [workspace]
        members = ["workspace-member-1", "workspace-member-2", 0]
        "#;

    const CARGO_LOCK: &str = r#"
        version = 4
        "#;

    let lockfile = load_lock_file(CARGO_LOCK).unwrap();
    let cargo_toml = parse_manifest(CARGO_TOML).unwrap();
    let workspace_members = get_workspace_members(&cargo_toml, &lockfile, &vec![], 2).unwrap();
    assert_eq!(workspace_members.len(), 2);
    assert!(workspace_members.iter().any(|(k, _)| k == "workspace-member-1"));
    assert!(workspace_members.iter().any(|(k, _)| k == "workspace-member-2"));
}

#[test]
fn test_get_workspace_members_with_no_workspace() {
    const CARGO_TOML: &str = r#"
        [dependencies]
        "cargo-outdated" = "0.1.0"
        "#;

    const CARGO_LOCK: &str = r#"
        version = 4

        [[package]]
        name = "cargo-outdated"
        version = "0.1.0"
        "#;

    let cargo_toml = parse_manifest(CARGO_TOML).unwrap();
    let lockfile = load_lock_file(CARGO_LOCK).unwrap();
    let workspace_members = get_workspace_members(&cargo_toml, &lockfile, &vec![], 2).unwrap();
    assert_eq!(workspace_members.len(), 0);
}

#[test]
fn test_get_package_name_with_no_package() {
    const CARGO_TOML: &str = r#"
        [dependencies]
        "cargo-outdated" = "0.1.0"
        "#;

    let cargo_toml = parse_manifest(CARGO_TOML).unwrap();
    let package_name = get_package_name(&cargo_toml);
    assert_eq!(package_name, None);
}

#[test]
fn test_get_package_name() {
    const CARGO_TOML: &str = r#"
        [package]
        name = "cargo-outdated"
        "#;

    let cargo_toml = parse_manifest(CARGO_TOML).unwrap();
    let package_name = get_package_name(&cargo_toml);
    assert_eq!(package_name.unwrap(), "cargo-outdated");
}

#[test]
fn workspace_tree_counts_own_and_descendant_declarations() {
    let root = (
        ".".to_string(),
        r#"
        [workspace]
        members = ["a", "b"]
        "#
        .to_string(),
    );
    let member_a = (
        "a".to_string(),
        r#"
        [dependencies]
        one = "1.0.0"
        two = "1.0.0"
        "#
        .to_string(),
    );
    let member_b = (
        "b".to_string(),
        r#"
        [dependencies]
        three = "1.0.0"
        four = "1.0.0"
        five = "1.0.0"
        "#
        .to_string(),
    );
    let lock = r#"
        version = 4

        [[package]]
        name = "five"
        version = "1.0.0"

        [[package]]
        name = "four"
        version = "1.0.0"

        [[package]]
        name = "one"
        version = "1.0.0"

        [[package]]
        name = "three"
        version = "1.0.0"

        [[package]]
        name = "two"
        version = "1.0.0"
        "#;
    let (tree, _, _) =
        gather_from_sources(&vec![root, member_a, member_b], lock).unwrap();
    assert_eq!(tree.dependencies.len(), 0);
    assert_eq!(tree.workspace_members.len(), 2);
    assert_eq!(tree.len(), 5);
}

#[test]
fn workspace_inherited_declaration_is_excluded() {
    const CARGO_TOML: &str = r#"
        [dependencies]
        baz = { workspace = true }
        kept = "1.0.0"
        "#;
    const CARGO_LOCK: &str = r#"
        version = 4

        [[package]]
        name = "kept"
        version = "1.0.0"
        "#;
    let cargo_toml = parse_manifest(CARGO_TOML).unwrap();
    let lockfile = load_lock_file(CARGO_LOCK).unwrap();
    let dependencies = get_cargo_dependencies(&cargo_toml, &lockfile, &vec![], ".").unwrap();
    assert_eq!(dependencies.len(), 1);
    assert_eq!(dependencies[0].name, "kept");
    assert!(dependencies.iter().all(|d| d.name != "baz"));
}

#[test]
fn path_declaration_resolves_from_target_manifest_and_skips_registries() {
    const CARGO_TOML: &str = r#"
        [dependencies]
        local = { version = "0.1.0", path = "pkgs/local" }
        "#;
    const TARGET_TOML: &str = r#"
        [package]
        name = "local"
        version = "0.9.1"
        "#;
    const CARGO_LOCK: &str = r#"
        version = 4
        "#;
    let cargo_toml = parse_manifest(CARGO_TOML).unwrap();
    let target = parse_manifest(TARGET_TOML).unwrap();
    let lockfile = load_lock_file(CARGO_LOCK).unwrap();
    let manifests = vec![("pkgs/local".to_string(), target)];
    let dependencies =
        get_cargo_dependencies(&cargo_toml, &lockfile, &manifests, ".").unwrap();
    assert_eq!(dependencies.len(), 1);
    assert_eq!(dependencies[0].version, "0.9.1");
    assert_eq!(dependencies[0].source, None);
    assert_eq!(dependencies[0].path, Some("pkgs/local".to_string()));
    let (crates_io, alt, unsourced) = classify_dependencies(dependencies);
    assert_eq!(crates_io.len(), 0);
    assert_eq!(alt.len(), 0);
    assert_eq!(unsourced.len(), 1);
}

#[test]
fn classification_routes_by_source_locator() {
    let mk = |name: &str, source: Option<&str>| CargoDependency {
        name: name.to_string(),
        package: name.to_string(),
        version: "1.0.0".to_string(),
        kind: DependencyKind::Normal,
        source: source.map(|s| s.to_string()),
        path: None,
    };
    let deps = vec![
        mk("a", Some("registry+https://github.com/rust-lang/crates.io-index")),
        mk("b", Some("registry+https://example.com/private-index")),
        mk("c", None),
        mk("d", Some("registry+https://github.com/rust-lang/crates.io-index")),
    ];
    let (crates_io, alt, unsourced) = classify_dependencies(deps);
    assert_eq!(crates_io.len(), 2);
    assert_eq!(crates_io[0].name, "a");
    assert_eq!(crates_io[1].name, "d");
    assert_eq!(alt.len(), 1);
    assert_eq!(alt[0].name, "b");
    assert_eq!(unsourced.len(), 1);
    assert_eq!(unsourced[0].name, "c");
}

#[test]
fn missing_version_on_table_entry_is_fatal() {
    const CARGO_TOML: &str = r#"
        [dependencies]
        broken = { package = "other" }
        "#;
    const CARGO_LOCK: &str = r#"
        version = 4
        "#;
    let cargo_toml = parse_manifest(CARGO_TOML).unwrap();
    let lockfile = load_lock_file(CARGO_LOCK).unwrap();
    let err = get_cargo_dependencies(&cargo_toml, &lockfile, &vec![], ".").unwrap_err();
    assert_eq!(err, Error::MissingVersion("broken".to_string()));
}

#[test]
fn bad_requirement_is_fatal() {
    const CARGO_TOML: &str = r#"
        [dependencies]
        odd = "definitely not a requirement"
        "#;
    const CARGO_LOCK: &str = r#"
        version = 4

        [[package]]
        name = "odd"
        version = "1.0.0"
        "#;
    let cargo_toml = parse_manifest(CARGO_TOML).unwrap();
    let lockfile = load_lock_file(CARGO_LOCK).unwrap();
    let err = get_cargo_dependencies(&cargo_toml, &lockfile, &vec![], ".").unwrap_err();
    assert_eq!(err, Error::BadRequirement("definitely not a requirement".to_string()));
}

#[test]
fn missing_path_target_is_fatal() {
    const CARGO_TOML: &str = r#"
        [dependencies]
        local = { version = "0.1.0", path = "pkgs/missing" }
        "#;
    const CARGO_LOCK: &str = r#"
        version = 4
        "#;
    let cargo_toml = parse_manifest(CARGO_TOML).unwrap();
    let lockfile = load_lock_file(CARGO_LOCK).unwrap();
    let err = get_cargo_dependencies(&cargo_toml, &lockfile, &vec![], ".").unwrap_err();
    assert_eq!(err, Error::MissingManifest("pkgs/missing".to_string()));
}

#[test]
fn member_chain_longer_than_the_manifest_set_is_a_cycle() {
    let root = (
        ".".to_string(),
        r#"
        [workspace]
        members = ["x"]
        "#
        .to_string(),
    );
    let member = (
        "x".to_string(),
        r#"
        [workspace]
        members = ["x"]
        "#
        .to_string(),
    );
    let err = gather_from_sources(&vec![root, member], "version = 4").unwrap_err();
    assert_eq!(err, Error::WorkspaceCycle);
}

#[test]
fn unparsable_manifest_text_is_fatal() {
    let root = (".".to_string(), "= this is not toml".to_string());
    let err = gather_from_sources(&vec![root], "version = 4").unwrap_err();
    assert_eq!(err, Error::BadManifest(".".to_string()));
}

#[test]
fn member_key_joins_relative_references() {
    assert_eq!(member_manifest_key(".", "pkgs/local"), "pkgs/local");
    assert_eq!(member_manifest_key("a", "pkgs/local"), "a/pkgs/local");
}
