use rahn::canonical::CanonicalError;
use rahn::constitution::ConstitutionError;
use rahn::merge::MergeConflict;
use rahn::model::{Endpoint, Link, Metadata};
use rahn::transition::Operation;

#[test]
fn link_and_operation_text() {
    let a = Endpoint::new("a", "eth0").unwrap();
    let b = Endpoint::new("b", "eth1").unwrap();
    let l = Link::new(a.clone(), b.clone()).unwrap();
    assert_eq!(l.text(), "a/eth0 <-> b/eth1");
    assert_eq!(
        Operation::AddNode { id: "a".into(), metadata: Metadata::new() }.text(),
        "add_node a"
    );
    assert_eq!(Operation::RemoveNode { id: "a".into() }.text(), "remove_node a");
    assert_eq!(
        Operation::AddInterface { node: "d".into(), name: "eth0".into() }.text(),
        "add_interface d/eth0"
    );
    assert_eq!(
        Operation::RemoveInterface { node: "d".into(), name: "eth0".into() }.text(),
        "remove_interface d/eth0"
    );
    assert_eq!(Operation::AddLink { a: a.clone(), b: b.clone() }.text(), "add_link a/eth0 b/eth1");
    assert_eq!(Operation::RemoveLink { a, b }.text(), "remove_link a/eth0 b/eth1");
}

#[test]
fn error_texts() {
    let c = MergeConflict { conflicts: vec!["x".into(), "y".into()] };
    assert_eq!(c.message(), "merge rejected: 2 semantic conflict(s):\n  - x\n  - y\n");
    let e = CanonicalError { message: "bad".into(), offset: 12 };
    assert_eq!(e.text(), "canonical parse error at byte 12: bad");
    let e = ConstitutionError { line: 3, message: "oops".into() };
    assert_eq!(e.text(), "constitution line 3: oops");
}
