use rahn::constitution::Constitution;
use rahn::invariants::verify;
use rahn::model::{Endpoint, Metadata, Network, State};


fn net(
    nodes: &[&str],
    ifaces: &[(&str, &str)],
    links: &[(&str, &str, &str, &str)],
) -> State {
    let mut n = Network::empty();
    for id in nodes {
        n.add_node(id, Metadata::new()).unwrap();
    }
    for (node, iface) in ifaces {
        n.add_interface(node, iface).unwrap();
    }
    for (an, ai, bn, bi) in links {
        n.add_link(
            Endpoint::new(an, ai).unwrap(),
            Endpoint::new(bn, bi).unwrap(),
        )
        .unwrap();
    }
    State { network: n }
}


fn empty_constitution() -> Constitution {
    Constitution::default()
}

#[test]
fn valid_state_passes_all() {
    let s = net(
        &["a", "b"],
        &[("a", "eth0"), ("b", "eth0")],
        &[("a", "eth0", "b", "eth0")],
    );
    let report = verify(&s, &empty_constitution());
    assert!(report.passed(), "{}", report.text());
}

#[test]
fn connectivity_requirement_enforced() {
    let s = net(
        &["a", "b", "c"],
        &[("a", "eth0"), ("b", "eth0"), ("c", "eth0")],
        &[("a", "eth0", "b", "eth0")],
    );
    let mut c = empty_constitution();
    c.connectivity_requirements.push(("a".into(), "c".into()));
    let report = verify(&s, &c);
    assert!(!report.passed());
    assert_eq!(
        report.failed_ids(),
        vec!["named-connectivity:a:c".to_string()]
    );
    assert!(report
        .reports
        .iter()
        .any(|r| r.evidence.contains("no path")));
}

#[test]
fn connectivity_passes_through_intermediate_nodes() {
    let s = net(
        &["a", "b", "c"],
        &[("a", "eth0"), ("b", "eth0"), ("b", "eth1"), ("c", "eth0")],
        &[("a", "eth0", "b", "eth0"), ("b", "eth1", "c", "eth0")],
    );
    let mut c = empty_constitution();
    c.connectivity_requirements.push(("a".into(), "c".into()));
    assert!(verify(&s, &c).passed());
}

#[test]
fn connectivity_requirement_with_missing_node_fails() {
    let s = net(&["a"], &[("a", "eth0")], &[]);
    let mut c = empty_constitution();
    c.connectivity_requirements
        .push(("a".into(), "ghost".into()));
    let report = verify(&s, &c);
    assert!(!report.passed());
    assert!(report
        .reports
        .iter()
        .any(|r| r.evidence.contains("missing")));
}

#[test]
fn prohibited_connectivity_enforced() {
    let s = net(
        &["public", "db"],
        &[("public", "eth0"), ("db", "eth0")],
        &[("public", "eth0", "db", "eth0")],
    );
    let mut c = empty_constitution();
    c.prohibited_connectivity
        .push(("public".into(), "db".into()));
    let report = verify(&s, &c);
    assert!(!report.passed());
    assert_eq!(
        report.failed_ids(),
        vec!["prohibited-connectivity:public:db".to_string()]
    );
    assert!(report
        .reports
        .iter()
        .any(|r| r.evidence.contains("prohibited path exists")));
}

#[test]
fn prohibited_connectivity_passes_when_isolated() {
    let s = net(
        &["public", "db"],
        &[("public", "eth0"), ("db", "eth0")],
        &[],
    );
    let mut c = empty_constitution();
    c.prohibited_connectivity
        .push(("public".into(), "db".into()));
    assert!(verify(&s, &c).passed());
}

#[test]
fn determinism_same_input_same_report() {
    let s = net(&["a", "b"], &[("a", "eth0"), ("b", "eth0")], &[]);
    let mut c = empty_constitution();
    c.connectivity_requirements.push(("a".into(), "b".into()));
    let r1 = verify(&s, &c);
    let r2 = verify(&s, &c);
    assert_eq!(r1, r2);
}

#[test]
fn structural_floor_always_checked() {
    // Empty constitution still checks structural invariants.
    let s = State::empty();
    let report = verify(&s, &empty_constitution());
    assert_eq!(report.reports.len(), 4);
    assert!(report.passed());
}
