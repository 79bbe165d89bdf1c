use rahn::graph::{components, neighbors, reachable_from, shortest_path};
use rahn::model::{Endpoint, Metadata, Network};

fn net() -> Network {
    let mut n = Network::empty();
    for id in ["a", "b", "c", "d", "e", "f"] {
        n.add_node(id, Metadata::new()).unwrap();
    }
    for (node, iface) in [
        ("a", "eth0"),
        ("b", "eth0"),
        ("b", "eth1"),
        ("c", "eth0"),
        ("d", "eth0"),
        ("d", "eth1"),
        ("e", "eth0"),
        ("f", "eth0"),
    ] {
        n.add_interface(node, iface).unwrap();
    }
    for (an, ai, bn, bi) in [
        ("a", "eth0", "b", "eth0"),
        ("b", "eth1", "c", "eth0"),
        ("d", "eth0", "e", "eth0"),
        ("d", "eth1", "f", "eth0"),
    ] {
        n.add_link(
            Endpoint::new(an, ai).unwrap(),
            Endpoint::new(bn, bi).unwrap(),
        )
        .unwrap();
    }
    n
}

#[test]
fn neighbors_are_symmetric_and_sorted() {
    let n = net();
    let nb = neighbors(&n, "b").unwrap();
    assert_eq!(nb.len(), 2);
    let v: Vec<String> = nb;
    assert_eq!(v, vec!["a", "c"]);
    assert!(neighbors(&n, "ghost").is_none());
}

#[test]
fn shortest_path_prefers_fewest_hops() {
    let n = net();
    let p = shortest_path(&n, "a", "c").unwrap().unwrap();
    assert_eq!(p, vec!["a", "b", "c"]);
    assert_eq!(shortest_path(&n, "a", "a").unwrap().unwrap(), vec!["a"]);
    assert_eq!(shortest_path(&n, "a", "e").unwrap(), None);
    assert!(shortest_path(&n, "a", "ghost").is_err());
}

#[test]
fn shortest_path_ties_break_lexicographically() {
    // diamond: s - x, s - y, x - t, y - t
    let mut n = Network::empty();
    for id in ["s", "x", "y", "t"] {
        n.add_node(id, Metadata::new()).unwrap();
    }
    for (node, iface) in [
        ("s", "e0"),
        ("s", "e1"),
        ("x", "e0"),
        ("y", "e0"),
        ("t", "e0"),
        ("t", "e1"),
    ] {
        n.add_interface(node, iface).unwrap();
    }
    for (an, ai, bn, bi) in [
        ("s", "e0", "x", "e0"),
        ("s", "e1", "y", "e0"),
        ("x", "e0", "t", "e0"),
        ("y", "e0", "t", "e1"),
    ] {
        n.add_link(
            Endpoint::new(an, ai).unwrap(),
            Endpoint::new(bn, bi).unwrap(),
        )
        .unwrap();
    }
    let p = shortest_path(&n, "s", "t").unwrap().unwrap();
    assert_eq!(
        p,
        vec!["s", "x", "t"],
        "equal-length ties must pick the lexicographically smaller route"
    );
}

#[test]
fn components_separate_disjoint_parts() {
    let n = net();
    let comps = components(&n);
    assert_eq!(comps.len(), 2);
    assert_eq!(comps[0], vec!["a", "b", "c"]);
    assert_eq!(comps[1], vec!["d", "e", "f"]);
}

#[test]
fn reachable_from_spans_component() {
    let n = net();
    let r = reachable_from(&n, "e").unwrap();
    assert_eq!(r.len(), 3);
    assert!(reachable_from(&n, "ghost").is_none());
}
