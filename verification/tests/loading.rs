use meshconf::{generate_all, generate_config, parse_topology, AttributeValue, ConfigError};

const HUB_SPOKE: &str = r#"
[[clients]]
_name = "hub"
_route = true
Address = "10.0.0.1/24"

[[clients]]
_name = "spoke"
Address = "10.0.0.2/24"
PublicKey = "PKEY"
"#;

#[test]
fn parse_and_expand_hub_and_spoke() {
    let t = parse_topology(HUB_SPOKE).unwrap();
    let docs = generate_all(&t).unwrap();
    assert_eq!(docs.len(), 2);
    assert_eq!(docs[0].0, "hub");
    assert_eq!(docs[1].0, "spoke");
    assert_eq!(
        docs[0].1,
        vec![
            "[Interface]",
            "Address = 10.0.0.1/24",
            "",
            "[Peer]",
            "PublicKey = PKEY",
            "AllowedIPs = 10.0.0.2",
            "",
        ]
    );
    assert_eq!(
        docs[1].1,
        vec!["[Interface]", "Address = 10.0.0.2/24", "", "[Peer]", ""]
    );
}

#[test]
fn parsed_scalars_expand_to_their_text() {
    let text = r#"
[[clients]]
_name = "a"
ListenPort = 51820
Managed = true
Metric = -42
"#;
    let t = parse_topology(text).unwrap();
    let doc = generate_config(&t, "a").unwrap();
    assert_eq!(
        doc,
        vec![
            "[Interface]",
            "ListenPort = 51820",
            "Managed = true",
            "Metric = -42",
            "",
        ]
    );
}

#[test]
fn nested_mapping_fails_with_unsupported_type_and_no_output() {
    let text = r#"
[[clients]]
_name = "a"

[clients.extra]
x = 1
"#;
    let t = parse_topology(text).unwrap();
    match generate_all(&t) {
        Err(ConfigError::UnsupportedType { node, key }) => {
            assert_eq!(node, "a");
            assert_eq!(key, "extra");
        },
        Ok(_) => panic!("expected the run to fail"),
        Err(_) => panic!("expected UnsupportedType"),
    }
}

#[test]
fn list_valued_attribute_is_unsupported() {
    let text = r#"
[[clients]]
_name = "a"
Extras = [1, 2]
"#;
    let t = parse_topology(text).unwrap();
    assert!(matches!(
        generate_all(&t),
        Err(ConfigError::UnsupportedType { .. })
    ));
}

#[test]
fn float_valued_attribute_is_unsupported() {
    let text = r#"
[[clients]]
_name = "a"
Weight = 1.5
"#;
    let t = parse_topology(text).unwrap();
    assert!(matches!(
        generate_all(&t),
        Err(ConfigError::UnsupportedType { key, .. }) if key == "Weight"
    ));
}

#[test]
fn syntax_error_is_reported() {
    assert!(matches!(
        parse_topology("not [ valid toml"),
        Err(ConfigError::Syntax { .. })
    ));
}

#[test]
fn missing_clients_key() {
    assert!(matches!(
        parse_topology("x = 1"),
        Err(ConfigError::MissingClients)
    ));
}

#[test]
fn clients_not_a_list() {
    assert!(matches!(
        parse_topology("clients = 5"),
        Err(ConfigError::ClientsNotList)
    ));
}

#[test]
fn node_not_a_table() {
    assert!(matches!(
        parse_topology("clients = [1]"),
        Err(ConfigError::NodeNotTable { index: 0 })
    ));
}

#[test]
fn parsed_node_without_identity_is_rejected() {
    let text = r#"
[[clients]]
_name = "ok"

[[clients]]
Address = "10.0.0.9/24"
"#;
    assert!(matches!(
        parse_topology(text),
        Err(ConfigError::MissingIdentity { index: 1 })
    ));
}

#[test]
fn parsed_non_string_identity_is_rejected() {
    let text = r#"
[[clients]]
_name = 7
"#;
    assert!(matches!(
        parse_topology(text),
        Err(ConfigError::MissingIdentity { index: 0 })
    ));
}

#[test]
fn empty_clients_list_is_a_valid_topology() {
    let t = parse_topology("clients = []").unwrap();
    assert_eq!(generate_all(&t).unwrap().len(), 0);
    assert!(t.well_formed());
}

#[test]
fn parsed_values_arrive_as_the_right_variants() {
    let text = r#"
[[clients]]
_name = "a"
S = "text"
I = 3
B = false
"#;
    let t = parse_topology(text).unwrap();
    let n = t.find_by_identity("a").unwrap();
    assert!(matches!(n.get_attr("S"), Some(AttributeValue::Str(v)) if v == "text"));
    assert!(matches!(n.get_attr("I"), Some(AttributeValue::Int(3))));
    assert!(matches!(n.get_attr("B"), Some(AttributeValue::Bool(false))));
    assert!(n.get_attr("missing").is_none());
    assert_eq!(n.identity(), Some("a".to_string()));
}
