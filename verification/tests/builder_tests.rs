use cargo_interactive_update::dependency::{
    build_outdated_set, sort_dependencies, Dependencies, Dependency, DependencyKind,
};
use cargo_interactive_update::errors::Error;
use cargo_interactive_update::info::{fetch_package_from_source, RegistryAnswer};
use cargo_interactive_update::cargo::CargoDependency;

fn record(name: &str, kind: DependencyKind, current: &str, latest: &str) -> Dependency {
    Dependency {
        name: name.to_string(),
        current_version: current.to_string(),
        latest_version: latest.to_string(),
        kind,
        repository: None,
        description: None,
        latest_version_date: None,
        current_version_date: None,
        workspace_member: None,
        workspace_path: None,
    }
}

#[test]
fn builder_keeps_only_strictly_outdated_records() {
    let collected = vec![
        record("stale", DependencyKind::Normal, "1.0.0", "1.1.0"),
        record("fresh", DependencyKind::Normal, "2.0.0", "2.0.0"),
        record("ahead", DependencyKind::Normal, "3.1.0", "3.0.0"),
    ];
    let result = build_outdated_set(collected).unwrap();
    assert_eq!(result.len(), 1);
    assert_eq!(result.get(0).name, "stale");
}

#[test]
fn builder_sorts_by_kind_then_name() {
    let collected = vec![
        record("zeta", DependencyKind::Dev, "1.0.0", "1.1.0"),
        record("beta", DependencyKind::Normal, "1.0.0", "1.1.0"),
        record("alpha", DependencyKind::Build, "1.0.0", "1.1.0"),
        record("omega", DependencyKind::Normal, "1.0.0", "1.1.0"),
        record("gamma", DependencyKind::Workspace, "1.0.0", "1.1.0"),
    ];
    let result = build_outdated_set(collected).unwrap();
    let names: Vec<String> = result.into_vec().into_iter().map(|d| d.name).collect();
    assert_eq!(names, vec!["beta", "omega", "zeta", "alpha", "gamma"]);
}

#[test]
fn builder_rejects_unparsable_versions() {
    let collected = vec![record("bad", DependencyKind::Normal, "oops", "1.0.0")];
    let err = build_outdated_set(collected).unwrap_err();
    assert_eq!(err, Error::BadVersion("oops".to_string()));
}

#[test]
fn sort_is_stable_for_equal_keys() {
    let a = record("same", DependencyKind::Normal, "1.0.0", "1.1.0");
    let mut b = record("same", DependencyKind::Normal, "1.0.0", "1.2.0");
    b.description = Some("second".to_string());
    let sorted = sort_dependencies(vec![a.clone(), b.clone()]);
    assert_eq!(sorted, vec![a, b]);
}

#[test]
fn builder_output_is_independent_of_collection_order() {
    let one = record("one", DependencyKind::Normal, "1.0.0", "1.1.0");
    let two = record("two", DependencyKind::Dev, "1.0.0", "1.1.0");
    let forward = build_outdated_set(vec![one.clone(), two.clone()]).unwrap();
    let backward = build_outdated_set(vec![two, one]).unwrap();
    assert_eq!(forward, backward);
}

#[test]
fn alternate_registry_answer_becomes_a_record() {
    let dep = CargoDependency {
        name: "private".to_string(),
        package: "private".to_string(),
        version: "0.4.0".to_string(),
        kind: DependencyKind::Normal,
        source: Some("registry+https://example.com/index".to_string()),
        path: None,
    };
    let answer = RegistryAnswer {
        latest_version: "0.5.0".to_string(),
        repository: Some("https://example.com/repo".to_string()),
        description: Some("First line\nSecond line".to_string()),
    };
    let record = fetch_package_from_source(dep, Some("member".to_string()), None, Some(answer))
        .unwrap();
    assert_eq!(record.name, "private");
    assert_eq!(record.current_version, "0.4.0");
    assert_eq!(record.latest_version, "0.5.0");
    assert_eq!(record.description, Some("First line".to_string()));
    assert_eq!(record.workspace_member, Some("member".to_string()));
}

#[test]
fn no_alternate_registry_answer_contributes_nothing() {
    let dep = CargoDependency {
        name: "private".to_string(),
        package: "private".to_string(),
        version: "0.4.0".to_string(),
        kind: DependencyKind::Normal,
        source: Some("registry+https://example.com/index".to_string()),
        path: None,
    };
    assert!(fetch_package_from_source(dep, None, None, None).is_none());
}

#[test]
fn dependencies_wrap_their_records() {
    let records = vec![record("a", DependencyKind::Normal, "1.0.0", "1.1.0")];
    let wrapped = Dependencies::new(records.clone());
    assert_eq!(wrapped.len(), 1);
    assert!(!wrapped.is_empty());
    assert_eq!(wrapped.into_vec(), records);
}
