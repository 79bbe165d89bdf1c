use rahn::model::{validate_id, Endpoint, Link, Metadata, ModelError, Network};

#[test]
fn links_are_normalized_undirected() {
    let mut net = Network::empty();
    net.add_node("b", Metadata::new()).unwrap();
    net.add_node("a", Metadata::new()).unwrap();
    net.add_interface("a", "eth0").unwrap();
    net.add_interface("b", "eth0").unwrap();
    let b_e = Endpoint::new("b", "eth0").unwrap();
    let a_e = Endpoint::new("a", "eth0").unwrap();
    net.add_link(b_e.clone(), a_e.clone()).unwrap();
    assert!(net.link(&a_e, &b_e).is_some());
    assert!(net.link(&b_e, &a_e).is_some());
    assert_eq!(net.link_count(), 1);
    // Reversed re-add is a duplicate.
    assert!(net.add_link(a_e, b_e).is_err());
}

#[test]
fn self_loops_and_same_node_loops_are_prohibited() {
    let e = Endpoint::new("x", "eth0").unwrap();
    assert!(matches!(
        Link::new(e.clone(), e.clone()),
        Err(ModelError::SelfLoop { .. })
    ));
    let e2 = Endpoint::new("x", "eth1").unwrap();
    assert!(matches!(
        Link::new(e, e2),
        Err(ModelError::SameNodeLoop { node }) if node == "x"
    ));
}

#[test]
fn identifiers_are_strict() {
    assert!(validate_id("web-01").is_ok());
    assert!(validate_id("").is_err());
    assert!(validate_id("has space").is_err());
    assert!(validate_id("emoji😀").is_err());
    assert!(validate_id(&"x".repeat(65)).is_err());
}

#[test]
fn endpoint_parse_requires_slash() {
    assert!(Endpoint::parse("web/eth0").is_ok());
    assert!(Endpoint::parse("web").is_err());
    assert!(Endpoint::parse("web/eth 0").is_err());
}

#[test]
fn interfaces_are_node_scoped() {
    let mut net = Network::empty();
    net.add_node("a", Metadata::new()).unwrap();
    net.add_node("b", Metadata::new()).unwrap();
    net.add_interface("a", "eth0").unwrap();
    // Same interface name on another node is fine.
    net.add_interface("b", "eth0").unwrap();
    // Duplicate on the same node is not.
    assert!(net.add_interface("a", "eth0").is_err());
    assert!(net.add_interface("ghost", "eth0").is_err());
    // Interface cannot be removed while linked.
    net.add_link(
        Endpoint::new("a", "eth0").unwrap(),
        Endpoint::new("b", "eth0").unwrap(),
    )
    .unwrap();
    assert!(net.remove_interface("a", "eth0").is_err());
    // Node cannot be removed while any of its interfaces is linked.
    assert!(net.remove_node("a").is_err());
    net.remove_link(
        Endpoint::new("b", "eth0").unwrap(),
        Endpoint::new("a", "eth0").unwrap(),
    )
    .unwrap();
    net.remove_interface("a", "eth0").unwrap();
    assert_eq!(net.interface_count(), 1);
}

#[test]
fn existing_link_on_one_node_is_refused() {
    let mut net = Network::empty();
    net.add_node("a", Metadata::new()).unwrap();
    net.add_interface("a", "eth0").unwrap();
    net.add_interface("a", "eth1").unwrap();
    let before = net.clone();
    let link = Link {
        a: Endpoint::new("a", "eth0").unwrap(),
        b: Endpoint::new("a", "eth1").unwrap(),
        metadata: Metadata::new(),
    };
    assert_eq!(
        net.add_existing_link(link),
        Err(ModelError::SameNodeLoop { node: "a".into() })
    );
    assert_eq!(net, before);
    assert_eq!(net.link_count(), 0);
}
