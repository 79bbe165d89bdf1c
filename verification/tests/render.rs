use rahn::diff::diff;
use rahn::graph::shortest_path;
use rahn::model::{Endpoint, Metadata, Network};
use rahn::render::{diff_text, network_listing, path_text};

fn chain() -> Network {
    let mut n = Network::empty();
    for id in ["a", "b", "c"] {
        n.add_node(id, Metadata::new()).unwrap();
        n.add_interface(id, "eth0").unwrap();
    }
    n.add_interface("b", "eth1").unwrap();
    n.add_link(Endpoint::new("a", "eth0").unwrap(), Endpoint::new("b", "eth0").unwrap())
        .unwrap();
    n.add_link(Endpoint::new("b", "eth1").unwrap(), Endpoint::new("c", "eth0").unwrap())
        .unwrap();
    n
}

#[test]
fn path_is_rendered_with_hops() {
    let n = chain();
    let p = shortest_path(&n, "a", "c").unwrap().unwrap();
    assert_eq!(path_text(&p), "path (2 hop(s)):\na -> b -> c\n");
    assert_eq!(path_text(&vec!["a".to_string()]), "path (0 hop(s)):\na\n");
}

#[test]
fn diff_lists_changes_by_kind() {
    let from = chain();
    let mut to = chain();
    to.add_node("d", Metadata::new()).unwrap();
    to.add_interface("d", "eth0").unwrap();
    to.add_link(Endpoint::new("c", "eth0").unwrap(), Endpoint::new("d", "eth0").unwrap())
        .unwrap();
    let text = diff_text(&diff(&from, &to));
    assert_eq!(
        text,
        "+ node: d\n+ interface: d/eth0\n+ link: c/eth0 <-> d/eth0\n"
    );
    let back = diff_text(&diff(&to, &from));
    assert_eq!(
        back,
        "- node: d\n- interface: d/eth0\n- link: c/eth0 <-> d/eth0\n"
    );
    assert_eq!(diff_text(&diff(&from, &from)), "");
}

#[test]
fn listing_shows_nodes_interfaces_and_links() {
    assert_eq!(
        network_listing(&chain()),
        "  node a\n    iface eth0\n  node b\n    iface eth0\n    iface eth1\n  node c\n    iface eth0\n  link a/eth0 <-> b/eth0\n  link b/eth1 <-> c/eth0\n"
    );
    assert_eq!(network_listing(&Network::empty()), "");
}
