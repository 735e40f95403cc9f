use cargo_interactive_update::errors::Error;
use cargo_interactive_update::lock::{find_matching_package, load_lock_file};

const MULTI_VERSION_LOCK: &str = r#"
        version = 4

        [[package]]
        name = "bar"
        version = "1.9.0"

        [[package]]
        name = "bar"
        version = "2.0.0"

        [[package]]
        name = "zoo"
        version = "0.3.0"
        "#;

#[test]
fn matching_selects_the_version_the_requirement_accepts() {
    let lock = load_lock_file(MULTI_VERSION_LOCK).unwrap();
    let entry = find_matching_package(&lock, "bar", "=2.0.0").unwrap();
    assert_eq!(entry.name, "bar");
    assert_eq!(entry.version, "2.0.0");
    let entry = find_matching_package(&lock, "bar", "^1.0.0").unwrap();
    assert_eq!(entry.version, "1.9.0");
}

#[test]
fn tie_break_prefers_the_search_landing_entry() {
    // Both bar entries satisfy the requirement; the binary search over
    // the three sorted entries lands on the second bar, so that exact
    // entry is the one resolution must return.
    let lock = load_lock_file(MULTI_VERSION_LOCK).unwrap();
    let entry = find_matching_package(&lock, "bar", ">=1.0.0").unwrap();
    assert_eq!(entry.version, "2.0.0");
}

#[test]
fn absent_name_fails_resolution() {
    let lock = load_lock_file(MULTI_VERSION_LOCK).unwrap();
    let err = find_matching_package(&lock, "absent", "^1.0.0").unwrap_err();
    assert_eq!(err, Error::PackageNotFound("absent".to_string()));
}

#[test]
fn unsatisfied_requirement_fails_resolution() {
    let lock = load_lock_file(MULTI_VERSION_LOCK).unwrap();
    let err = find_matching_package(&lock, "bar", "=3.0.0").unwrap_err();
    assert_eq!(err, Error::NoVersionMatch("bar".to_string()));
}

#[test]
fn unsorted_lock_text_is_sorted_on_load() {
    let lock_text = r#"
        version = 4

        [[package]]
        name = "zebra"
        version = "1.0.0"

        [[package]]
        name = "apple"
        version = "2.0.0"
        "#;
    let lock = load_lock_file(lock_text).unwrap();
    assert_eq!(lock.len(), 2);
    assert_eq!(lock.get(0).name, "apple");
    assert_eq!(lock.get(1).name, "zebra");
    let entry = find_matching_package(&lock, "zebra", "^1.0.0").unwrap();
    assert_eq!(entry.version, "1.0.0");
}

#[test]
fn unparsable_lock_text_is_fatal() {
    let err = load_lock_file("[[package").unwrap_err();
    assert_eq!(err, Error::BadLockFile);
}

#[test]
fn lock_entries_keep_their_source_locator() {
    let lock_text = r#"
        version = 4

        [[package]]
        name = "foo"
        version = "1.2.0"
        source = "registry+https://github.com/rust-lang/crates.io-index"
        "#;
    let lock = load_lock_file(lock_text).unwrap();
    let entry = find_matching_package(&lock, "foo", "^1.0.0").unwrap();
    assert_eq!(
        entry.source,
        Some("registry+https://github.com/rust-lang/crates.io-index".to_string())
    );
}
