use rahn::model::{Endpoint, Metadata, ModelError, Network};
use rahn::transition::{apply, apply_all, Operation, TransitionError};


fn net() -> Network {
    let mut n = Network::empty();
    n.add_node("a", Metadata::new()).unwrap();
    n.add_node("b", Metadata::new()).unwrap();
    n.add_interface("a", "eth0").unwrap();
    n.add_interface("b", "eth0").unwrap();
    n
}

#[test]
fn add_and_remove_node() {
    let n = net();
    let n2 = apply(
        &n,
        &Operation::AddNode {
            id: "c".into(),
            metadata: Metadata::new(),
        },
    )
    .unwrap();
    assert_eq!(n2.node_count(), 3);
    // The input network is untouched (purity).
    assert_eq!(n.node_count(), 2);
    let n3 = apply(&n2, &Operation::RemoveNode { id: "c".into() }).unwrap();
    assert_eq!(n3.node_count(), 2);
}

#[test]
fn interface_lifecycle() {
    let n = net();
    let n2 = apply(
        &n,
        &Operation::AddInterface {
            node: "a".into(),
            name: "eth1".into(),
        },
    )
    .unwrap();
    assert_eq!(n2.interface_count(), 3);
    // Duplicate rejected.
    assert!(apply(
        &n2,
        &Operation::AddInterface {
            node: "a".into(),
            name: "eth1".into()
        }
    )
    .is_err());
    // Interface on missing node rejected.
    assert!(apply(
        &n2,
        &Operation::AddInterface {
            node: "zz".into(),
            name: "eth0".into()
        }
    )
    .is_err());
    let n3 = apply(
        &n2,
        &Operation::RemoveInterface {
            node: "a".into(),
            name: "eth1".into(),
        },
    )
    .unwrap();
    assert_eq!(n3.interface_count(), 2);
}

#[test]
fn link_lifecycle_with_interfaces() {
    let n = net();
    let a = Endpoint::new("a", "eth0").unwrap();
    let b = Endpoint::new("b", "eth0").unwrap();
    let n2 = apply(
        &n,
        &Operation::AddLink {
            a: a.clone(),
            b: b.clone(),
        },
    )
    .unwrap();
    assert_eq!(n2.link_count(), 1);
    // Duplicate (even reversed) rejected.
    assert!(apply(
        &n2,
        &Operation::AddLink {
            a: b.clone(),
            b: a.clone()
        }
    )
    .is_err());
    let n3 = apply(&n2, &Operation::RemoveLink { a: b, b: a }).unwrap();
    assert_eq!(n3.link_count(), 0);
}

#[test]
fn link_to_missing_interface_is_rejected() {
    let n = net();
    assert!(apply(
        &n,
        &Operation::AddLink {
            a: Endpoint::new("a", "eth0").unwrap(),
            b: Endpoint::new("b", "eth1").unwrap(),
        }
    )
    .is_err());
}

#[test]
fn remove_node_with_links_is_rejected() {
    let n = net();
    let n2 = apply(
        &n,
        &Operation::AddLink {
            a: Endpoint::new("a", "eth0").unwrap(),
            b: Endpoint::new("b", "eth0").unwrap(),
        },
    )
    .unwrap();
    assert!(apply(&n2, &Operation::RemoveNode { id: "a".into() }).is_err());
    // Order matters: removing the link first succeeds.
    let n3 = apply(
        &n2,
        &Operation::RemoveLink {
            a: Endpoint::new("a", "eth0").unwrap(),
            b: Endpoint::new("b", "eth0").unwrap(),
        },
    )
    .unwrap();
    assert!(apply(&n3, &Operation::RemoveNode { id: "a".into() }).is_ok());
}

#[test]
fn remove_interface_referenced_by_link_is_rejected() {
    let n = net();
    let n2 = apply(
        &n,
        &Operation::AddLink {
            a: Endpoint::new("a", "eth0").unwrap(),
            b: Endpoint::new("b", "eth0").unwrap(),
        },
    )
    .unwrap();
    assert!(apply(
        &n2,
        &Operation::RemoveInterface {
            node: "a".into(),
            name: "eth0".into()
        }
    )
    .is_err());
}

#[test]
fn apply_all_stops_at_first_rejection() {
    let n = net();
    let ops = vec![
        Operation::AddNode {
            id: "c".into(),
            metadata: Metadata::new(),
        },
        Operation::AddNode {
            id: "c".into(),
            metadata: Metadata::new(),
        }, // duplicate
        Operation::AddNode {
            id: "d".into(),
            metadata: Metadata::new(),
        },
    ];
    assert!(apply_all(&n, &ops).is_err());
}

#[test]
fn apply_all_reports_the_first_rejection() {
    let n = net();
    let ops = vec![
        Operation::AddNode { id: "c".into(), metadata: Metadata::new() },
        Operation::RemoveNode { id: "ghost".into() },
        Operation::AddNode { id: "c".into(), metadata: Metadata::new() },
    ];
    assert_eq!(
        apply_all(&n, &ops),
        Err(TransitionError::Invalid(ModelError::NodeMissing { id: "ghost".into() }))
    );
}
