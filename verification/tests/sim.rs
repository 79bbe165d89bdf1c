use rahn::sim::{plan, Action};
use rahn::model::{Endpoint, Metadata, Network};


fn net(nodes: &[&str], ifaces: &[(&str, &str)], links: &[(&str, &str, &str, &str)]) -> Network {
    let mut n = Network::empty();
    for id in nodes {
        n.add_node(id, Metadata::new()).unwrap();
    }
    for (node, iface) in ifaces {
        n.add_interface(node, iface).unwrap();
    }
    for (an, ai, bn, bi) in links {
        n.add_link(
            Endpoint::new(an, ai).unwrap(),
            Endpoint::new(bn, bi).unwrap(),
        )
        .unwrap();
    }
    n
}

#[test]
fn plan_order_is_dependency_safe() {
    // Replace a-b with c-d.
    let current = net(
        &["a", "b"],
        &[("a", "eth0"), ("b", "eth0")],
        &[("a", "eth0", "b", "eth0")],
    );
    let target = net(
        &["a", "c", "d"],
        &[("a", "eth0"), ("c", "eth0"), ("d", "eth0")],
        &[("c", "eth0", "d", "eth0")],
    );
    let plan = plan(&current, &target);
    assert_eq!(
        plan.actions,
        vec![
            Action::RemoveLink {
                a: Endpoint::new("a", "eth0").unwrap(),
                b: Endpoint::new("b", "eth0").unwrap()
            },
            Action::RemoveNode { id: "b".into() },
            Action::CreateNode { id: "c".into() },
            Action::CreateNode { id: "d".into() },
            Action::CreateInterface {
                node: "c".into(),
                name: "eth0".into()
            },
            Action::CreateInterface {
                node: "d".into(),
                name: "eth0".into()
            },
            Action::CreateLink {
                a: Endpoint::new("c", "eth0").unwrap(),
                b: Endpoint::new("d", "eth0").unwrap()
            },
        ]
    );
    // Removals precede creations.
    let first_create = plan
        .actions
        .iter()
        .position(|a| matches!(a, Action::CreateNode { .. }))
        .unwrap();
    assert!(plan.actions[..first_create].iter().all(|a| matches!(
        a,
        Action::RemoveLink { .. } | Action::RemoveInterface { .. } | Action::RemoveNode { .. }
    )));
}

#[test]
fn identical_states_yield_empty_plan() {
    let n = net(&["a"], &[("a", "eth0")], &[]);
    assert!(plan(&n, &n).is_empty());
}

#[test]
fn plan_display_is_inspectable() {
    let current = Network::empty();
    let target = net(
        &["a", "b"],
        &[("a", "eth0"), ("b", "eth0")],
        &[("a", "eth0", "b", "eth0")],
    );
    let text = plan(&current, &target).text();
    assert!(text.contains("Execution plan:"));
    assert!(text.contains("create node a"));
    assert!(text.contains("create interface a/eth0"));
    assert!(text.contains("create link a/eth0 <-> b/eth0"));
    assert!(text.contains("simulation only"));
}
