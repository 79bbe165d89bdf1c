use rahn::constitution::Constitution;
use rahn::merge::merge;
use rahn::model::{Endpoint, Metadata, Network};

fn topo() -> Network {
    let mut n = Network::empty();
    for id in ["a", "b", "x"] {
        n.add_node(id, Metadata::new()).unwrap();
        n.add_interface(id, "eth0").unwrap();
    }
    n.add_link(Endpoint::new("a", "eth0").unwrap(), Endpoint::new("b", "eth0").unwrap())
        .unwrap();
    n
}

#[test]
fn merging_against_an_unchanged_side_gives_the_change() {
    let base = topo();
    let mut changed = topo();
    changed.remove_interface("x", "eth0").unwrap();
    changed.remove_node("x").unwrap();
    changed.add_node("c", Metadata::new()).unwrap();
    changed.add_interface("c", "eth0").unwrap();
    changed.add_interface("b", "eth1").unwrap();
    changed
        .add_link(Endpoint::new("b", "eth1").unwrap(), Endpoint::new("c", "eth0").unwrap())
        .unwrap();
    assert_eq!(merge(&base, &changed, &base).unwrap(), changed);
    assert_eq!(merge(&base, &base, &changed).unwrap(), changed);
}

#[test]
fn disjoint_node_removals_merge_in_either_order() {
    let mut base = topo();
    for id in ["p", "q", "r"] {
        base.add_node(id, Metadata::new()).unwrap();
    }
    let mut ours = base.clone();
    ours.remove_node("p").unwrap();
    let mut theirs = base.clone();
    theirs.remove_node("q").unwrap();
    theirs.remove_node("r").unwrap();
    let ab = merge(&base, &ours, &theirs).unwrap();
    let ba = merge(&base, &theirs, &ours).unwrap();
    assert_eq!(ab, ba);
    assert_eq!(ab.node_count(), base.node_count() - 3);
}

#[test]
fn constitution_text_reads_back() {
    let c = Constitution::parse(
        "prohibit-connectivity hr finance\nrequire-connectivity web db\nrequire-connectivity web lb\n",
    )
    .unwrap();
    let text = c.to_text();
    assert_eq!(
        text,
        "# RAHN constitution\nrequire-connectivity web db\nrequire-connectivity web lb\nprohibit-connectivity hr finance\n"
    );
    assert_eq!(Constitution::parse(&text).unwrap(), c);
}
