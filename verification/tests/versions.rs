//! Versions of servers.
use clickhouse_arrow::version::{Version, VersionChecker};

#[test]
fn test_version_parsing() {
    assert_eq!(Version::parse("24.3.5.46"), Some(Version::new(24, 3, 5)));
    assert_eq!(Version::parse("25.1.2.3"), Some(Version::new(25, 1, 2)));
    assert_eq!(Version::parse("25.6.0"), Some(Version::new(25, 6, 0)));
    assert_eq!(Version::parse("25.1.2.3-testing"), Some(Version::new(25, 1, 2)));
    assert_eq!(Version::parse("25.1.2.3 (official build)"), Some(Version::new(25, 1, 2)));

    // Invalid formats
    assert_eq!(Version::parse("invalid"), None);
    assert_eq!(Version::parse("24"), None);
    assert_eq!(Version::parse(""), None);
}

#[test]
fn test_feature_support() {
    let v24_3 = Version::new(24, 3, 0);
    let v25_1 = Version::new(25, 1, 0);
    let v25_6 = Version::new(25, 6, 0);

    // 24.3 - no new features
    assert!(!v24_3.supports_dynamic());
    assert!(!v24_3.supports_json());
    assert!(!v24_3.supports_json_v3());
    assert!(!v24_3.supports_variant());
    assert!(!v24_3.has_stable_dynamic_json());

    // 25.1 - experimental support
    assert!(v25_1.supports_dynamic());
    assert!(v25_1.supports_json());
    assert!(!v25_1.supports_json_v3()); // v3 requires 25.6+
    assert!(v25_1.supports_variant());
    assert!(!v25_1.has_stable_dynamic_json());

    // 25.6 - stable support
    assert!(v25_6.supports_dynamic());
    assert!(v25_6.supports_json());
    assert!(v25_6.supports_json_v3());
    assert!(v25_6.supports_variant());
    assert!(v25_6.has_stable_dynamic_json());
}

#[test]
fn test_version_comparison() {
    let v24_3 = Version::new(24, 3, 0);
    let v25_1 = Version::new(25, 1, 0);
    let v25_6 = Version::new(25, 6, 0);

    assert!(v24_3 < v25_1);
    assert!(v25_1 < v25_6);
    assert!(v25_6 > v25_1);
    assert!(v25_1 > v24_3);
}

#[test]
fn support_is_kept_by_later_versions() {
    let earlier = Version::new(25, 6, 0);
    let later = Version::new(26, 1, 0);
    assert!(earlier < later);
    assert!(earlier.supports_json_v3() && later.supports_json_v3());
    assert!(earlier.supports_variant() && later.supports_variant());
}

#[test]
fn versions_are_written_with_points() {
    assert_eq!(Version::new(25, 6, 10).to_string(), "25.6.10");
}

#[test]
fn an_unknown_version_supports_nothing() {
    let checker = VersionChecker::new(None);
    assert!(!checker.require_dynamic_support());
    assert!(!checker.require_json_support());
    assert!(!checker.require_json_v3_support());
    assert!(!checker.require_variant_support());
    assert!(!checker.require_stable_dynamic_json());
    let checker = VersionChecker::new(Some("25.1.2.3"));
    assert!(checker.require_dynamic_support());
    assert!(checker.require_json_support());
    assert!(!checker.require_json_v3_support());
    assert!(checker.require_variant_support());
    assert!(!checker.require_stable_dynamic_json());
}
