use meshconf::{generate_all, generate_config, generate_peer_config, AttributeValue, ConfigError,
    NodeSpec, Topology};

fn node(pairs: Vec<(&str, AttributeValue)>) -> NodeSpec {
    NodeSpec { attrs: pairs.into_iter().map(|(k, v)| (k.to_string(), v)).collect() }
}

fn s(t: &str) -> AttributeValue {
    AttributeValue::Str(t.to_string())
}

fn hub_spoke() -> Topology {
    Topology::new(vec![
        node(vec![
            ("Address", s("10.0.0.1/24")),
            ("_name", s("hub")),
            ("_route", AttributeValue::Bool(true)),
        ]),
        node(vec![
            ("Address", s("10.0.0.2/24")),
            ("PublicKey", s("PKEY")),
            ("_name", s("spoke")),
        ]),
    ])
    .unwrap()
}

#[test]
fn scenario_hub_and_spoke() {
    let t = hub_spoke();
    let hub = generate_config(&t, "hub").unwrap();
    assert_eq!(
        hub,
        vec![
            "[Interface]",
            "Address = 10.0.0.1/24",
            "",
            "[Peer]",
            "PublicKey = PKEY",
            "AllowedIPs = 10.0.0.2",
            "",
        ]
    );
    let spoke = generate_config(&t, "spoke").unwrap();
    assert_eq!(
        spoke,
        vec!["[Interface]", "Address = 10.0.0.2/24", "", "[Peer]", ""]
    );
}

#[test]
fn route_override_wins_over_supplied_ranges() {
    let t = Topology::new(vec![
        node(vec![
            ("_name", s("hub")),
            ("_route", AttributeValue::Bool(true)),
        ]),
        node(vec![
            ("Address", s("10.0.0.2/24")),
            ("AllowedIPs", s("192.168.0.0/16")),
            ("_name", s("spoke")),
        ]),
    ])
    .unwrap();
    let hub = generate_config(&t, "hub").unwrap();
    assert_eq!(
        hub,
        vec![
            "[Interface]",
            "",
            "[Peer]",
            "AllowedIPs = 192.168.0.0/16",
            "AllowedIPs = 10.0.0.2",
            "",
        ]
    );
}

#[test]
fn route_flag_false_or_absent_means_no_override() {
    let t = Topology::new(vec![
        node(vec![
            ("_name", s("a")),
            ("_route", AttributeValue::Bool(false)),
        ]),
        node(vec![("Address", s("10.0.0.2/24")), ("_name", s("b"))]),
    ])
    .unwrap();
    let doc = generate_config(&t, "a").unwrap();
    assert!(!doc.iter().any(|l| l.starts_with("AllowedIPs")));
}

#[test]
fn completeness_one_document_per_node() {
    let t = Topology::new(vec![
        node(vec![("_name", s("a"))]),
        node(vec![("_name", s("b"))]),
        node(vec![("_name", s("c"))]),
    ])
    .unwrap();
    let docs = generate_all(&t).unwrap();
    let names: Vec<&str> = docs.iter().map(|(n, _)| n.as_str()).collect();
    assert_eq!(names, vec!["a", "b", "c"]);
    for (name, doc) in &docs {
        assert_eq!(doc, &generate_config(&t, name).unwrap());
    }
}

#[test]
fn empty_topology_yields_no_documents() {
    let t = Topology::new(vec![]).unwrap();
    assert_eq!(generate_all(&t).unwrap().len(), 0);
}

#[test]
fn self_exclusion_peer_count() {
    let t = Topology::new(vec![
        node(vec![("_name", s("a"))]),
        node(vec![("_name", s("b"))]),
        node(vec![("_name", s("c"))]),
    ])
    .unwrap();
    for target in ["a", "b", "c"] {
        let doc = generate_config(&t, target).unwrap();
        let peers = doc.iter().filter(|l| l.as_str() == "[Peer]").count();
        assert_eq!(peers, 2);
    }
}

#[test]
fn privacy_no_private_key_emitted() {
    let t = Topology::new(vec![
        node(vec![
            ("_name", s("a")),
            ("_secret", s("hidden")),
            ("_route", AttributeValue::Bool(true)),
        ]),
        node(vec![
            ("Address", s("10.0.0.2/24")),
            ("_name", s("b")),
            ("_token", s("alsohidden")),
        ]),
    ])
    .unwrap();
    for target in ["a", "b"] {
        let doc = generate_config(&t, target).unwrap();
        for line in &doc {
            assert!(!line.starts_with('_'), "private line leaked: {line}");
            assert!(!line.contains("_secret"));
            assert!(!line.contains("_token"));
        }
    }
}

#[test]
fn attribute_partition_between_blocks() {
    let t = Topology::new(vec![
        node(vec![
            ("ListenPort", AttributeValue::Int(51820)),
            ("PresharedKey", s("psk")),
            ("_name", s("x")),
        ]),
        node(vec![("_name", s("y"))]),
    ])
    .unwrap();
    let x = generate_config(&t, "x").unwrap();
    // x's own document: local attribute in the interface block, relational
    // attribute nowhere.
    assert!(x.contains(&"ListenPort = 51820".to_string()));
    assert!(!x.iter().any(|l| l.starts_with("PresharedKey")));
    // y's document: x's relational attribute in the peer block about x, x's
    // local attribute nowhere.
    let y = generate_config(&t, "y").unwrap();
    assert!(y.contains(&"PresharedKey = psk".to_string()));
    assert!(!y.iter().any(|l| l.starts_with("ListenPort")));
}

#[test]
fn scalar_texts_round_trip() {
    let t = Topology::new(vec![
        node(vec![
            ("Comment", s("plain text")),
            ("ListenPort", AttributeValue::Int(51820)),
            ("Managed", AttributeValue::Bool(true)),
            ("Metric", AttributeValue::Int(-42)),
            ("Zero", AttributeValue::Int(0)),
            ("_name", s("a")),
            ("legacy", AttributeValue::Bool(false)),
        ]),
    ])
    .unwrap();
    let doc = generate_config(&t, "a").unwrap();
    assert_eq!(
        doc,
        vec![
            "[Interface]",
            "Comment = plain text",
            "ListenPort = 51820",
            "Managed = true",
            "Metric = -42",
            "Zero = 0",
            "legacy = false",
            "",
        ]
    );
    // the integer and boolean texts read back as the values they came from
    assert_eq!("51820".parse::<i64>().unwrap(), 51820);
    assert_eq!("-42".parse::<i64>().unwrap(), -42);
    assert_eq!("true".parse::<bool>().unwrap(), true);
    assert_eq!("false".parse::<bool>().unwrap(), false);
}

#[test]
fn unsupported_type_names_node_and_key() {
    let t = Topology::new(vec![
        node(vec![("Bad", AttributeValue::Other), ("_name", s("a"))]),
    ])
    .unwrap();
    match generate_all(&t) {
        Err(ConfigError::UnsupportedType { node, key }) => {
            assert_eq!(node, "a");
            assert_eq!(key, "Bad");
        },
        _ => panic!("expected UnsupportedType"),
    }
}

#[test]
fn unsupported_relational_type_in_peer_block() {
    let t = Topology::new(vec![
        node(vec![("_name", s("a"))]),
        node(vec![("PublicKey", AttributeValue::Other), ("_name", s("b"))]),
    ])
    .unwrap();
    match generate_config(&t, "a") {
        Err(ConfigError::UnsupportedType { node, key }) => {
            assert_eq!(node, "b");
            assert_eq!(key, "PublicKey");
        },
        _ => panic!("expected UnsupportedType"),
    }
}

#[test]
fn node_not_found() {
    let t = hub_spoke();
    match generate_config(&t, "nobody") {
        Err(ConfigError::NodeNotFound { name }) => assert_eq!(name, "nobody"),
        _ => panic!("expected NodeNotFound"),
    }
}

#[test]
fn missing_identity_rejected_at_construction() {
    let r = Topology::new(vec![
        node(vec![("_name", s("ok"))]),
        node(vec![("Address", s("10.0.0.9/24"))]),
    ]);
    match r {
        Err(ConfigError::MissingIdentity { index }) => assert_eq!(index, 1),
        _ => panic!("expected MissingIdentity"),
    }
}

#[test]
fn empty_identity_rejected_at_construction() {
    let r = Topology::new(vec![node(vec![("_name", s(""))])]);
    assert!(matches!(r, Err(ConfigError::MissingIdentity { index: 0 })));
}

#[test]
fn non_string_identity_rejected_at_construction() {
    let r = Topology::new(vec![node(vec![("_name", AttributeValue::Int(7))])]);
    assert!(matches!(r, Err(ConfigError::MissingIdentity { index: 0 })));
}

#[test]
fn missing_address_under_route_rewrite() {
    let t = Topology::new(vec![
        node(vec![
            ("_name", s("hub")),
            ("_route", AttributeValue::Bool(true)),
        ]),
        node(vec![("_name", s("spoke"))]),
    ])
    .unwrap();
    match generate_config(&t, "hub") {
        Err(ConfigError::MissingAddress { name }) => assert_eq!(name, "spoke"),
        _ => panic!("expected MissingAddress"),
    }
}

#[test]
fn non_string_address_under_route_rewrite() {
    let t = Topology::new(vec![
        node(vec![
            ("_name", s("hub")),
            ("_route", AttributeValue::Bool(true)),
        ]),
        node(vec![("Address", AttributeValue::Int(3)), ("_name", s("spoke"))]),
    ])
    .unwrap();
    assert!(matches!(
        generate_config(&t, "hub"),
        Err(ConfigError::MissingAddress { .. })
    ));
}

#[test]
fn peer_config_for_named_peer() {
    let t = hub_spoke();
    let hub = t.find_by_identity("hub").unwrap();
    let block = generate_peer_config(&t, hub, "spoke").unwrap();
    assert_eq!(block, vec!["[Peer]", "PublicKey = PKEY", "AllowedIPs = 10.0.0.2"]);
    match generate_peer_config(&t, hub, "ghost") {
        Err(ConfigError::NodeNotFound { name }) => assert_eq!(name, "ghost"),
        _ => panic!("expected NodeNotFound"),
    }
}

#[test]
fn find_by_identity_takes_first_match() {
    let t = Topology::new(vec![
        node(vec![("Tag", s("first")), ("_name", s("dup"))]),
        node(vec![("Tag", s("second")), ("_name", s("dup"))]),
    ])
    .unwrap();
    let found = t.find_by_identity("dup").unwrap();
    assert!(matches!(&found.attrs[0].1, AttributeValue::Str(v) if v == "first"));
}

#[test]
fn strip_mask_examples() {
    assert_eq!(meshconf::expand::strip_mask("10.0.0.2/24"), "10.0.0.2");
    assert_eq!(meshconf::expand::strip_mask("10.0.0.2"), "10.0.0.2");
    assert_eq!(meshconf::expand::strip_mask("/24"), "");
    assert_eq!(meshconf::expand::strip_mask("a/b/c"), "a");
    assert_eq!(meshconf::expand::strip_mask(""), "");
}

#[test]
fn key_classification() {
    assert!(meshconf::model::key_is_private("_name"));
    assert!(meshconf::model::key_is_private("_"));
    assert!(!meshconf::model::key_is_private(""));
    assert!(!meshconf::model::key_is_private("Address"));
    for k in ["Endpoint", "AllowedIPs", "PublicKey", "PresharedKey", "PersistentKeepalive"] {
        assert!(meshconf::model::key_is_relational(k));
    }
    assert!(!meshconf::model::key_is_relational("Address"));
    assert!(!meshconf::model::key_is_relational("endpoint"));
}
