use mod_inventory::semver::{parse_version, version_cmp, version_cmp_full, SemanticVersion};

fn v(s: &str) -> SemanticVersion {
    parse_version(s).unwrap_or_else(|| panic!("{s} should parse"))
}

#[test]
fn parse_plain_version() {
    let x = v("1.2.3");
    assert_eq!(x.major, 1);
    assert_eq!(x.minor, 2);
    assert_eq!(x.patch, 3);
    assert!(x.prerelease.is_empty());
    assert!(x.build.is_empty());
}

#[test]
fn parse_prerelease_and_build() {
    let x = v("1.0.0-alpha.1+exp.sha-5114f85");
    assert_eq!(x.prerelease, vec!["alpha".to_string(), "1".to_string()]);
    assert_eq!(x.build, vec!["exp".to_string(), "sha-5114f85".to_string()]);
}

#[test]
fn parse_rejects_malformed() {
    assert!(parse_version("1.2").is_none());
    assert!(parse_version("1.2.3.4").is_none());
    assert!(parse_version("01.2.3").is_none());
    assert!(parse_version("1.02.3").is_none());
    assert!(parse_version("1.2.3-").is_none());
    assert!(parse_version("1.2.3-al..pha").is_none());
    assert!(parse_version("1.2.3-01").is_none());
    assert!(parse_version("1.2.3+").is_none());
    assert!(parse_version("1.2.3-a_b").is_none());
    assert!(parse_version("v1.2.3").is_none());
    assert!(parse_version("").is_none());
}

#[test]
fn build_may_carry_leading_zeros() {
    let x = v("1.2.3+007");
    assert_eq!(x.build, vec!["007".to_string()]);
}

#[test]
fn numeric_components_compare_numerically() {
    assert_eq!(version_cmp(&v("2.0.0"), &v("10.0.0")), -1);
    assert_eq!(version_cmp(&v("1.10.0"), &v("1.9.0")), 1);
    assert_eq!(version_cmp(&v("1.0.2"), &v("1.0.10")), -1);
    assert_eq!(version_cmp(&v("1.2.3"), &v("1.2.3")), 0);
}

#[test]
fn standard_prerelease_precedence_chain() {
    let chain = [
        "1.0.0-alpha",
        "1.0.0-alpha.1",
        "1.0.0-alpha.beta",
        "1.0.0-beta",
        "1.0.0-beta.2",
        "1.0.0-beta.11",
        "1.0.0-rc.1",
        "1.0.0",
    ];
    for w in chain.windows(2) {
        assert_eq!(version_cmp(&v(w[0]), &v(w[1])), -1, "{} < {}", w[0], w[1]);
        assert_eq!(version_cmp(&v(w[1]), &v(w[0])), 1);
    }
}

#[test]
fn numeric_prerelease_below_alphanumeric() {
    assert_eq!(version_cmp(&v("1.0.0-1"), &v("1.0.0-a")), -1);
    assert_eq!(version_cmp(&v("1.0.0-2"), &v("1.0.0-11")), -1);
}

#[test]
fn build_metadata_ignored_by_precedence() {
    assert_eq!(version_cmp(&v("1.0.0+a"), &v("1.0.0+b")), 0);
    assert_eq!(version_cmp(&v("1.0.0+a"), &v("1.0.0")), 0);
}

#[test]
fn full_order_breaks_build_ties() {
    assert_eq!(version_cmp_full(&v("1.0.0+a"), &v("1.0.0+a")), 0);
    let c = version_cmp_full(&v("1.0.0+a"), &v("1.0.0+b"));
    let d = version_cmp_full(&v("1.0.0+b"), &v("1.0.0+a"));
    assert_ne!(c, 0);
    assert_eq!(c, -d);
}
