use rahn::merge::merge;
use rahn::model::{Endpoint, Metadata, Network};


fn net(nodes: &[&str], ifaces: &[(&str, &str)], links: &[(&str, &str, &str, &str)]) -> Network {
    let mut n = Network::empty();
    for id in nodes {
        n.add_node(id, Metadata::new()).unwrap();
    }
    for (node, iface) in ifaces {
        n.add_interface(node, iface).unwrap();
    }
    for (an, ai, bn, bi) in links {
        n.add_link(
            Endpoint::new(an, ai).unwrap(),
            Endpoint::new(bn, bi).unwrap(),
        )
        .unwrap();
    }
    n
}

#[test]
fn disjoint_additions_merge() {
    // base: a-b; ours adds c and c-a; theirs adds d and d-b.
    let base = net(
        &["a", "b"],
        &[("a", "eth0"), ("b", "eth0")],
        &[("a", "eth0", "b", "eth0")],
    );
    let ours = net(
        &["a", "b", "c"],
        &[("a", "eth0"), ("b", "eth0"), ("c", "eth0")],
        &[("a", "eth0", "b", "eth0"), ("a", "eth0", "c", "eth0")],
    );
    let theirs = net(
        &["a", "b", "d"],
        &[("a", "eth0"), ("b", "eth0"), ("d", "eth0")],
        &[("a", "eth0", "b", "eth0"), ("b", "eth0", "d", "eth0")],
    );
    let merged = merge(&base, &ours, &theirs).unwrap();
    assert_eq!(merged.node_count(), 4);
    assert_eq!(merged.link_count(), 3);
    assert!(merged
        .link(
            &Endpoint::new("a", "eth0").unwrap(),
            &Endpoint::new("c", "eth0").unwrap()
        )
        .is_some());
    assert!(merged
        .link(
            &Endpoint::new("b", "eth0").unwrap(),
            &Endpoint::new("d", "eth0").unwrap()
        )
        .is_some());
}

#[test]
fn disjoint_interface_additions_merge() {
    let base = net(&["a"], &[("a", "eth0")], &[]);
    let ours = net(&["a"], &[("a", "eth0"), ("a", "eth1")], &[]);
    let theirs = net(&["a"], &[("a", "eth0"), ("a", "eth2")], &[]);
    let merged = merge(&base, &ours, &theirs).unwrap();
    assert_eq!(merged.node("a").unwrap().interface_count(), 3);
}

#[test]
fn both_sides_add_same_interface_identically_succeeds() {
    let base = net(&["a"], &[("a", "eth0")], &[]);
    let ours = net(&["a"], &[("a", "eth0"), ("a", "eth1")], &[]);
    let theirs = ours.clone();
    let merged = merge(&base, &ours, &theirs).unwrap();
    assert!(merged.node("a").unwrap().interface("eth1").is_some());
}

#[test]
fn both_sides_remove_same_node_succeeds() {
    let base = net(&["a", "b", "z"], &[], &[]);
    let ours = net(&["a", "b"], &[], &[]);
    let theirs = net(&["a", "b"], &[], &[]);
    let merged = merge(&base, &ours, &theirs).unwrap();
    assert!(merged.node("z").is_none());
}

#[test]
fn one_side_removes_node_other_removes_neighbor() {
    // base: a-b, b-c. ours removes b (and its links). theirs removes c.
    let base = net(
        &["a", "b", "c"],
        &[("a", "eth0"), ("b", "eth0"), ("b", "eth1"), ("c", "eth0")],
        &[("a", "eth0", "b", "eth0"), ("b", "eth1", "c", "eth0")],
    );
    let ours = net(&["a", "c"], &[("a", "eth0"), ("c", "eth0")], &[]);
    let theirs = net(
        &["a", "b"],
        &[("a", "eth0"), ("b", "eth0")],
        &[("a", "eth0", "b", "eth0")],
    );
    let merged = merge(&base, &ours, &theirs).unwrap();
    assert!(merged.node("b").is_none());
    assert!(merged.node("c").is_none(), "theirs removed c");
    assert!(merged.node("a").is_some());
}

#[test]
fn unrelated_side_change_applies_cleanly() {
    // ours removes node x; theirs is unchanged. Merge = ours.
    let base = net(&["a", "b", "x"], &[], &[]);
    let ours = {
        let mut n = base.clone();
        n.remove_node("x").unwrap();
        n
    };
    let theirs = base.clone();
    let merged = merge(&base, &ours, &theirs).unwrap();
    assert!(merged.node("x").is_none());
    assert!(merged.node("a").is_some());
}

#[test]
fn link_added_by_one_side_to_node_removed_by_other_fails_closed() {
    // base: z, w. ours removes z. theirs adds link w-z.
    let base = net(&["z", "w"], &[("z", "eth0"), ("w", "eth0")], &[]);
    let ours = net(&["w"], &[("w", "eth0")], &[]);
    let theirs = net(
        &["z", "w"],
        &[("z", "eth0"), ("w", "eth0")],
        &[("w", "eth0", "z", "eth0")],
    );
    let err = merge(&base, &ours, &theirs).unwrap_err();
    assert!(
        err.conflicts
            .iter()
            .any(|c| c.contains("internal merge error")),
        "{:?}", err
    );
}

#[test]
fn added_node_content_is_preserved() {
    let mut base_net = Network::empty();
    base_net.add_node("a", Metadata::new()).unwrap();
    // ours adds x with metadata; theirs is unchanged.
    let mut ours = Network::empty();
    ours.add_node("a", Metadata::new()).unwrap();
    let mut md = Metadata::new();
    md.insert("role".to_owned(), "api".to_owned());
    ours.add_node("x", md.clone()).unwrap();
    let theirs = base_net.clone();

    let merged = merge(&base_net, &ours, &theirs).unwrap();
    assert_eq!(
        merged.node("x").unwrap().metadata,
        md,
        "merge must preserve added metadata"
    );
}

#[test]
fn both_sides_adding_a_node_differently_is_explained() {
    let base = net(&[], &[], &[]);
    let mut ours = Network::empty();
    let mut md = Metadata::new();
    md.insert("role".into(), "core".into());
    ours.add_node("x", md).unwrap();
    let mut theirs = Network::empty();
    theirs.add_node("x", Metadata::new()).unwrap();
    let err = merge(&base, &ours, &theirs).unwrap_err();
    assert_eq!(
        err.conflicts,
        vec![
            "node \"x\" changed on both branches differently (ours: Added({\"role\": \"core\"}), theirs: Added({}))"
                .to_string()
        ]
    );
}
