use mod_inventory::classify::{classify, ClassifiedRecord};

fn expect_package(name_str: &str, pkg: &str, major: u64, minor: u64, patch: u64) {
    match classify(name_str) {
        ClassifiedRecord::Package { name, version } => {
            assert_eq!(name, pkg);
            assert_eq!(version.major, major);
            assert_eq!(version.minor, minor);
            assert_eq!(version.patch, patch);
            assert!(version.prerelease.is_empty());
            assert!(version.build.is_empty());
        }
        _ => panic!("expected a package for {name_str}"),
    }
}

#[test]
fn simple_package_name() {
    expect_package("foo_1.0.0.zip", "foo", 1, 0, 0);
}

#[test]
fn package_name_with_underscores_keeps_them() {
    expect_package("name_with_underscores_1.2.3.zip", "name_with_underscores", 1, 2, 3);
}

#[test]
fn package_without_zip_suffix() {
    expect_package("foo_1.2.3", "foo", 1, 2, 3);
}

#[test]
fn package_with_prerelease_and_build() {
    match classify("foo_1.2.3-alpha.1+build.7.zip") {
        ClassifiedRecord::Package { name, version } => {
            assert_eq!(name, "foo");
            assert_eq!(version.major, 1);
            assert_eq!(version.prerelease, vec!["alpha".to_string(), "1".to_string()]);
            assert_eq!(version.build, vec!["build".to_string(), "7".to_string()]);
        }
        _ => panic!("expected a package"),
    }
}

#[test]
fn reserved_manifest_name() {
    assert!(matches!(classify("mod-list.json"), ClassifiedRecord::ListManifest));
}

#[test]
fn reserved_settings_name() {
    assert!(matches!(classify("mod-settings.dat"), ClassifiedRecord::SettingsBlob));
}

#[test]
fn no_delimiter_invalid_version_is_unrecognized() {
    assert!(matches!(classify("random.txt"), ClassifiedRecord::Unrecognized));
}

#[test]
fn no_delimiter_valid_version_is_package_with_empty_name() {
    expect_package("1.2.3.zip", "", 1, 2, 3);
}

#[test]
fn invalid_trailing_segment_is_unrecognized() {
    assert!(matches!(classify("foo_abc.zip"), ClassifiedRecord::Unrecognized));
    assert!(matches!(classify("foo_1.2.zip"), ClassifiedRecord::Unrecognized));
    assert!(matches!(classify("foo_1.2.3.4.zip"), ClassifiedRecord::Unrecognized));
    assert!(matches!(classify("foo_01.2.3.zip"), ClassifiedRecord::Unrecognized));
    assert!(matches!(classify("foo_"), ClassifiedRecord::Unrecognized));
    assert!(matches!(classify(""), ClassifiedRecord::Unrecognized));
}

#[test]
fn version_overflow_is_unrecognized() {
    assert!(matches!(
        classify("a_99999999999999999999.0.0.zip"),
        ClassifiedRecord::Unrecognized
    ));
}

#[test]
fn version_at_u64_max_parses() {
    expect_package("a_18446744073709551615.0.0.zip", "a", u64::MAX, 0, 0);
    assert!(matches!(
        classify("a_18446744073709551616.0.0.zip"),
        ClassifiedRecord::Unrecognized
    ));
}

#[test]
fn uppercase_zip_is_not_stripped() {
    assert!(matches!(classify("foo_1.2.3.ZIP"), ClassifiedRecord::Unrecognized));
}
