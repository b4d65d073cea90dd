use mod_inventory::run;
use mod_inventory::RunError;

fn names(list: &[&str]) -> Vec<String> {
    list.iter().map(|s| s.to_string()).collect()
}

const MANIFEST: &str =
    r#"{"mods":[{"name":"foo","enabled":true},{"name":"bar","enabled":false}]}"#;

#[test]
fn end_to_end_scenario() {
    let dir = names(&[
        "mod-list.json",
        "foo_1.0.0.zip",
        "foo_1.2.0.zip",
        "bar_0.9.0.zip",
        "mod-settings.dat",
        "random.txt",
    ]);
    let out = run(&dir, Some(MANIFEST), "base").expect("run should succeed");

    assert_eq!(out.rows.len(), 2);
    // enabled groups first: foo (true), then bar (false)
    assert_eq!(out.rows[0].name, "foo");
    assert_eq!(out.rows[0].enabled, Some(true));
    assert_eq!(out.rows[0].version.major, 1);
    assert_eq!(out.rows[0].version.minor, 2);
    assert_eq!(out.rows[0].version.patch, 0);
    assert_eq!(out.rows[0].version_count, 2);
    assert_eq!(out.rows[1].name, "bar");
    assert_eq!(out.rows[1].enabled, Some(false));
    assert_eq!(out.rows[1].version.major, 0);
    assert_eq!(out.rows[1].version.minor, 9);
    assert_eq!(out.rows[1].version.patch, 0);
    assert_eq!(out.rows[1].version_count, 1);

    // group versions ascending: foo holds [1.0.0, 1.2.0]
    let foo = out
        .inventory
        .groups
        .iter()
        .find(|g| g.name == "foo")
        .expect("a foo group");
    assert_eq!(foo.versions.len(), 2);
    assert_eq!((foo.versions[0].major, foo.versions[0].minor), (1, 0));
    assert_eq!((foo.versions[1].major, foo.versions[1].minor), (1, 2));

    assert!(out.summary.manifest_found);
    assert!(out.summary.settings_found);
    assert_eq!(out.summary.package_count, 3);
    assert_eq!(out.summary.non_package_count, 3);
    assert_eq!(out.summary.unrecognized_count, 1);
}

#[test]
fn missing_manifest_scenario() {
    let dir = names(&[
        "foo_1.0.0.zip",
        "foo_1.2.0.zip",
        "bar_0.9.0.zip",
        "mod-settings.dat",
        "random.txt",
    ]);
    match run(&dir, Some(MANIFEST), "base") {
        Err(RunError::MissingManifest) => {}
        _ => panic!("expected MissingManifest"),
    }
}

#[test]
fn unreadable_manifest_is_missing() {
    let dir = names(&["mod-list.json", "foo_1.0.0.zip"]);
    match run(&dir, None, "base") {
        Err(RunError::MissingManifest) => {}
        _ => panic!("expected MissingManifest"),
    }
}

#[test]
fn malformed_manifest_scenario() {
    let dir = names(&["mod-list.json", "foo_1.0.0.zip"]);
    match run(&dir, Some(r#"{"mods": nonsense}"#), "base") {
        Err(RunError::ManifestParse) => {}
        _ => panic!("expected ManifestParse"),
    }
}

#[test]
fn report_ordering_enabled_then_name() {
    // groups: a enabled, b disabled, c unlisted, d enabled -> a, d, b, c
    let dir = names(&[
        "mod-list.json",
        "c_1.0.0.zip",
        "b_1.0.0.zip",
        "d_1.0.0.zip",
        "a_1.0.0.zip",
    ]);
    let manifest = r#"{"mods":[{"name":"a","enabled":true},{"name":"b","enabled":false},{"name":"d","enabled":true}]}"#;
    let out = run(&dir, Some(manifest), "base").expect("run should succeed");
    let order: Vec<&str> = out.rows.iter().map(|r| r.name.as_str()).collect();
    assert_eq!(order, vec!["a", "d", "b", "c"]);
    assert_eq!(out.rows[0].enabled, Some(true));
    assert_eq!(out.rows[1].enabled, Some(true));
    assert_eq!(out.rows[2].enabled, Some(false));
    assert_eq!(out.rows[3].enabled, None);
}

#[test]
fn builtin_name_is_suppressed() {
    let dir = names(&["mod-list.json", "base_1.0.0.zip", "foo_1.0.0.zip"]);
    let manifest =
        r#"{"mods":[{"name":"base","enabled":true},{"name":"foo","enabled":true}]}"#;
    let out = run(&dir, Some(manifest), "base").expect("run should succeed");
    // the base package file still groups, but its enabled state is unlisted
    let base = out.rows.iter().find(|r| r.name == "base").expect("a base row");
    assert_eq!(base.enabled, None);
    assert_eq!(out.inventory.enabled_map.get("base"), None);
    assert_eq!(out.inventory.enabled_map.get("foo"), Some(true));
}

#[test]
fn duplicate_versions_are_counted_once() {
    let dir = names(&["mod-list.json", "foo_1.0.0.zip", "foo_1.0.0"]);
    let manifest = r#"{"mods":[{"name":"foo","enabled":true}]}"#;
    let out = run(&dir, Some(manifest), "base").expect("run should succeed");
    assert_eq!(out.rows.len(), 1);
    assert_eq!(out.rows[0].version_count, 1);
    assert_eq!(out.summary.package_count, 2);
}

#[test]
fn duplicate_manifest_files_are_retained_as_unrecognized() {
    let dir = names(&["mod-list.json", "mod-list.json", "mod-settings.dat", "mod-settings.dat"]);
    let out = run(&dir, Some(r#"{"mods":[]}"#), "base").expect("run should succeed");
    assert_eq!(out.summary.unrecognized_count, 2);
    assert_eq!(out.summary.package_count, 0);
    assert_eq!(out.summary.non_package_count, 4);
    assert!(out.rows.is_empty());
}

#[test]
fn grouping_is_input_order_blind() {
    let manifest = r#"{"mods":[{"name":"foo","enabled":true}]}"#;
    let dir1 = names(&["mod-list.json", "foo_1.0.0.zip", "foo_0.2.1.zip", "foo_1.0.0-rc.1.zip"]);
    let dir2 = names(&["foo_1.0.0-rc.1.zip", "foo_0.2.1.zip", "mod-list.json", "foo_1.0.0.zip"]);
    let out1 = run(&dir1, Some(manifest), "base").expect("run should succeed");
    let out2 = run(&dir2, Some(manifest), "base").expect("run should succeed");
    assert_eq!(out1.rows.len(), 1);
    assert_eq!(out2.rows.len(), 1);
    let g1 = &out1.inventory.groups[0];
    let g2 = &out2.inventory.groups[0];
    assert_eq!(g1.name, g2.name);
    assert_eq!(g1.versions.len(), 3);
    let v1: Vec<(u64, u64, u64)> =
        g1.versions.iter().map(|v| (v.major, v.minor, v.patch)).collect();
    let v2: Vec<(u64, u64, u64)> =
        g2.versions.iter().map(|v| (v.major, v.minor, v.patch)).collect();
    assert_eq!(v1, v2);
    assert_eq!(v1, vec![(0, 2, 1), (1, 0, 0), (1, 0, 0)]);
    // ascending, the prerelease below the release
    assert_eq!(g1.versions[1].prerelease, vec!["rc".to_string(), "1".to_string()]);
    assert!(g1.versions[2].prerelease.is_empty());
}
