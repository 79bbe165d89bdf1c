use rahn::diff::diff;
use rahn::model::{Endpoint, Metadata, Network};


fn build(
    nodes: &[&str],
    ifaces: &[(&str, &str)],
    links: &[(&str, &str, &str, &str)],
) -> Network {
    let mut net = Network::empty();
    for id in nodes {
        net.add_node(id, Metadata::new()).unwrap();
    }
    for (n, i) in ifaces {
        net.add_interface(n, i).unwrap();
    }
    for (an, ai, bn, bi) in links {
        net.add_link(
            Endpoint::new(an, ai).unwrap(),
            Endpoint::new(bn, bi).unwrap(),
        )
        .unwrap();
    }
    net
}

#[test]
fn detects_additions_and_removals() {
    let base = build(
        &["a", "b"],
        &[("a", "eth0"), ("b", "eth0")],
        &[("a", "eth0", "b", "eth0")],
    );
    let next = build(&["a", "c"], &[("a", "eth0")], &[]);

    let d = diff(&base, &next);
    assert_eq!(d.added_nodes, vec!["c".to_string()]);
    assert_eq!(d.removed_nodes, vec!["b".to_string()]);
    assert_eq!(
        d.removed_interfaces,
        vec![("b".to_string(), "eth0".to_string())]
    );
    assert_eq!(
        d.removed_links,
        vec![(
            Endpoint::new("a", "eth0").unwrap(),
            Endpoint::new("b", "eth0").unwrap()
        )]
    );
    assert!(d.added_links.is_empty());
}

#[test]
fn detects_interface_changes() {
    let base = build(&["a"], &[("a", "eth0")], &[]);
    let next = build(&["a"], &[("a", "eth0"), ("a", "eth1")], &[]);
    let d = diff(&base, &next);
    assert_eq!(
        d.added_interfaces,
        vec![("a".to_string(), "eth1".to_string())]
    );
    assert!(d.added_nodes.is_empty());
}

#[test]
fn identical_networks_diff_empty() {
    let n = build(
        &["a", "b"],
        &[("a", "eth0"), ("b", "eth0")],
        &[("a", "eth0", "b", "eth0")],
    );
    assert!(diff(&n, &n).is_empty());
}
