use mod_inventory::mod_list::{try_parse_mod_list, try_parse_mod_list_map};

#[test]
fn parse_compact_document() {
    let doc = r#"{"mods":[{"name":"foo","enabled":true},{"name":"bar","enabled":false}]}"#;
    let list = try_parse_mod_list(doc).expect("should parse");
    assert_eq!(list.mods.len(), 2);
    assert_eq!(list.mods[0].name, "foo");
    assert!(list.mods[0].enabled);
    assert_eq!(list.mods[1].name, "bar");
    assert!(!list.mods[1].enabled);
}

#[test]
fn parse_with_whitespace() {
    let doc = "  {\n  \"mods\" : [\r\n    { \"name\" : \"foo\" , \"enabled\" : true }\n  ]\n}  ";
    let list = try_parse_mod_list(doc).expect("should parse");
    assert_eq!(list.mods.len(), 1);
    assert_eq!(list.mods[0].name, "foo");
}

#[test]
fn parse_member_order_reversed() {
    let doc = r#"{"mods":[{"enabled":false,"name":"bar"}]}"#;
    let list = try_parse_mod_list(doc).expect("should parse");
    assert_eq!(list.mods[0].name, "bar");
    assert!(!list.mods[0].enabled);
}

#[test]
fn parse_empty_list() {
    let doc = r#"{"mods":[]}"#;
    let list = try_parse_mod_list(doc).expect("should parse");
    assert!(list.mods.is_empty());
}

#[test]
fn parse_string_escapes() {
    let doc = r#"{"mods":[{"name":"a\"b\\c\/d\n","enabled":true}]}"#;
    let list = try_parse_mod_list(doc).expect("should parse");
    assert_eq!(list.mods[0].name, "a\"b\\c/d\n");
}

#[test]
fn unicode_escape_is_rejected() {
    let doc = r#"{"mods":[{"name":"a\u0041b","enabled":true}]}"#;
    assert!(try_parse_mod_list(doc).is_err());
}

#[test]
fn malformed_documents_are_rejected() {
    assert!(try_parse_mod_list("").is_err());
    assert!(try_parse_mod_list("{}").is_err());
    assert!(try_parse_mod_list(r#"{"mods":}"#).is_err());
    assert!(try_parse_mod_list(r#"{"mods":[}"#).is_err());
    assert!(try_parse_mod_list(r#"{"other":[]}"#).is_err());
    assert!(try_parse_mod_list(r#"{"mods":[{"name":"foo"}]}"#).is_err());
    assert!(try_parse_mod_list(r#"{"mods":[{"name":"foo","enabled":1}]}"#).is_err());
    assert!(try_parse_mod_list(r#"{"mods":[]} trailing"#).is_err());
    assert!(try_parse_mod_list(r#"{"mods":[],}"#).is_err());
    assert!(try_parse_mod_list(r#"["mods"]"#).is_err());
}

#[test]
fn map_resolves_duplicates_last_wins() {
    let doc = r#"{"mods":[{"name":"foo","enabled":true},{"name":"foo","enabled":false}]}"#;
    let map = try_parse_mod_list_map(doc).expect("should parse");
    assert_eq!(map.get("foo"), Some(false));
    assert_eq!(map.len(), 1);
}

#[test]
fn map_lookup_and_absence() {
    let doc = r#"{"mods":[{"name":"foo","enabled":true},{"name":"bar","enabled":false}]}"#;
    let map = try_parse_mod_list_map(doc).expect("should parse");
    assert_eq!(map.get("foo"), Some(true));
    assert_eq!(map.get("bar"), Some(false));
    assert_eq!(map.get("baz"), None);
    assert_eq!(map.len(), 2);
}

#[test]
fn map_remove_name() {
    let doc = r#"{"mods":[{"name":"base","enabled":true},{"name":"foo","enabled":true}]}"#;
    let mut map = try_parse_mod_list_map(doc).expect("should parse");
    map.remove_name("base");
    assert_eq!(map.get("base"), None);
    assert_eq!(map.get("foo"), Some(true));
    assert_eq!(map.len(), 1);
}

#[test]
fn map_to_list_round_trip() {
    let doc = r#"{"mods":[{"name":"foo","enabled":true},{"name":"bar","enabled":false}]}"#;
    let map = try_parse_mod_list_map(doc).expect("should parse");
    let list = map.into_list();
    assert_eq!(list.mods.len(), 2);
    let map2 = list.into_map();
    assert_eq!(map2.get("foo"), Some(true));
    assert_eq!(map2.get("bar"), Some(false));
    assert_eq!(map2.len(), 2);
}
