use cargo_interactive_update::api::{
    fetch_package_from_crates_io, CratesIoResponse, JsonItem,
};
use cargo_interactive_update::cargo::{classify_dependencies, get_cargo_dependencies, CargoDependency};
use cargo_interactive_update::dependency::{build_outdated_set, DependencyKind};
use cargo_interactive_update::errors::Error;
use cargo_interactive_update::lock::load_lock_file;
use cargo_interactive_update::toml_model::parse_manifest;

fn obj(entries: Vec<(&str, JsonItem)>) -> JsonItem {
    JsonItem::Obj(entries.into_iter().map(|(k, v)| (k.to_string(), v)).collect())
}

fn s(text: &str) -> JsonItem {
    JsonItem::Str(text.to_string())
}

#[test]
fn test_crates_io_response_from_value() {
    let response = obj(vec![
        (
            "crate",
            obj(vec![
                ("repository", s("\thttps://github.com/user/repo ")),
                ("description", s(" A\ndescription\n ")),
                ("max_stable_version", s("0.2.0")),
            ]),
        ),
        (
            "versions",
            JsonItem::Arr(vec![
                obj(vec![("num", s("0.1.0")), ("updated_at", s(" 2023-07-01T00:00:00Z\n"))]),
                obj(vec![("num", s("0.2.0")), ("updated_at", s("2023-07-02T00:00:00Z"))]),
                obj(vec![]),
            ]),
        ),
    ]);

    let response = CratesIoResponse::from_value(&response, "0.1.0").unwrap();

    assert_eq!(
        response.repository,
        Some("https://github.com/user/repo".to_string())
    );
    assert_eq!(response.description, Some("A description".to_string()));
    assert_eq!(response.latest_version, "0.2.0");
    assert_eq!(
        response.latest_version_date,
        Some("2023-07-02T00:00:00Z".to_string())
    );
    assert_eq!(
        response.current_version_date,
        Some("2023-07-01T00:00:00Z".to_string())
    );
}

#[test]
fn test_crates_io_empty_response() {
    let response = obj(vec![]);

    let response = CratesIoResponse::from_value(&response, "0.1.0").unwrap();

    assert_eq!(response.repository, None);
    assert_eq!(response.description, None);
    assert_eq!(response.latest_version, "0.1.0");
    assert_eq!(response.latest_version_date, None);
    assert_eq!(response.current_version_date, None);
}

#[test]
fn newer_latest_version_yields_an_outdated_record() {
    const CARGO_TOML: &str = r#"
        [dependencies]
        foo = "^1.0.0"
        "#;
    const CARGO_LOCK: &str = r#"
        version = 4

        [[package]]
        name = "foo"
        version = "1.2.0"
        source = "registry+https://github.com/rust-lang/crates.io-index"
        "#;
    let cargo_toml = parse_manifest(CARGO_TOML).unwrap();
    let lockfile = load_lock_file(CARGO_LOCK).unwrap();
    let deps = get_cargo_dependencies(&cargo_toml, &lockfile, &vec![], ".").unwrap();
    let (crates_io, alt, _) = classify_dependencies(deps);
    assert_eq!(alt.len(), 0);
    assert_eq!(crates_io.len(), 1);

    let answer = CratesIoResponse {
        repository: None,
        description: None,
        latest_version: "1.3.0".to_string(),
        latest_version_date: None,
        current_version_date: None,
    };
    let record = fetch_package_from_crates_io(
        crates_io.into_iter().next().unwrap(),
        None,
        None,
        Some(answer),
    )
    .unwrap()
    .unwrap();
    assert_eq!(record.name, "foo");
    assert_eq!(record.current_version, "1.2.0");
    assert_eq!(record.latest_version, "1.3.0");
    assert_eq!(record.kind, DependencyKind::Normal);

    let result = build_outdated_set(vec![record]).unwrap();
    assert_eq!(result.len(), 1);
    assert_eq!(result.get(0).name, "foo");
    assert_eq!(result.get(0).current_version, "1.2.0");
    assert_eq!(result.get(0).latest_version, "1.3.0");
}

#[test]
fn not_newer_latest_version_yields_no_record() {
    let dep = CargoDependency {
        name: "foo".to_string(),
        package: "foo".to_string(),
        version: "1.2.0".to_string(),
        kind: DependencyKind::Normal,
        source: None,
        path: None,
    };
    let answer = CratesIoResponse {
        repository: None,
        description: None,
        latest_version: "1.2.0".to_string(),
        latest_version_date: None,
        current_version_date: None,
    };
    assert_eq!(fetch_package_from_crates_io(dep, None, None, Some(answer)).unwrap(), None);
}

#[test]
fn missing_response_counts_as_no_update() {
    let dep = CargoDependency {
        name: "foo".to_string(),
        package: "foo".to_string(),
        version: "1.2.0".to_string(),
        kind: DependencyKind::Normal,
        source: None,
        path: None,
    };
    assert_eq!(fetch_package_from_crates_io(dep, None, None, None).unwrap(), None);
}

#[test]
fn unparsable_reported_version_is_fatal() {
    let dep = CargoDependency {
        name: "foo".to_string(),
        package: "foo".to_string(),
        version: "1.2.0".to_string(),
        kind: DependencyKind::Normal,
        source: None,
        path: None,
    };
    let answer = CratesIoResponse {
        repository: None,
        description: None,
        latest_version: "not-a-version".to_string(),
        latest_version_date: None,
        current_version_date: None,
    };
    let err = fetch_package_from_crates_io(dep, None, None, Some(answer)).unwrap_err();
    assert_eq!(err, Error::BadVersion("1.2.0".to_string()));
}
