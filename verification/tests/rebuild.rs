use rahn::merge::operations_between;
use rahn::model::{Endpoint, Metadata, Network};
use rahn::transition::{apply_all, Operation};

fn net(nodes: &[&str], ifaces: &[(&str, &str)], links: &[(&str, &str, &str, &str)]) -> Network {
    let mut n = Network::empty();
    for id in nodes {
        n.add_node(id, Metadata::new()).unwrap();
    }
    for (node, name) in ifaces {
        n.add_interface(node, name).unwrap();
    }
    for (an, ai, bn, bi) in links {
        n.add_link(Endpoint::new(an, ai).unwrap(), Endpoint::new(bn, bi).unwrap())
            .unwrap();
    }
    n
}

#[test]
fn diff_operations_rebuild_the_target() {
    let from = net(
        &["a", "b", "c"],
        &[("a", "eth0"), ("b", "eth0"), ("b", "eth1"), ("c", "eth0")],
        &[("a", "eth0", "b", "eth0"), ("b", "eth1", "c", "eth0")],
    );
    let to = net(
        &["a", "b", "d"],
        &[("a", "eth0"), ("a", "eth1"), ("b", "eth0"), ("d", "eth0")],
        &[("a", "eth0", "b", "eth0"), ("a", "eth1", "d", "eth0")],
    );
    let ops = operations_between(&from, &to);
    assert_eq!(apply_all(&from, &ops).unwrap(), to);
    // Removals come first, additions last, each ascending.
    assert!(matches!(ops[0], Operation::RemoveLink { .. }));
    assert!(matches!(ops.last().unwrap(), Operation::AddLink { .. }));
    let back = operations_between(&to, &from);
    assert_eq!(apply_all(&to, &back).unwrap(), from);
}

#[test]
fn no_difference_no_operations() {
    let n = net(&["a"], &[("a", "eth0")], &[]);
    assert!(operations_between(&n, &n).is_empty());
}

#[test]
fn added_node_keeps_its_metadata() {
    let from = Network::empty();
    let mut to = Network::empty();
    let mut md = Metadata::new();
    md.insert("role".into(), "api".into());
    to.add_node("a", md).unwrap();
    let ops = operations_between(&from, &to);
    assert_eq!(ops.len(), 1);
    assert_eq!(apply_all(&from, &ops).unwrap(), to);
}
