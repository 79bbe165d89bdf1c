use rahn::sim::{dry_run_text, BackendStep, ExecutionBackend, SimulationBackend};
use rahn::model::{Endpoint, Metadata, Network};


fn net(nodes: &[&str], links: &[(&str, &str, &str, &str)]) -> Network {
    let mut n = Network::empty();
    for id in nodes {
        n.add_node(id, Metadata::new()).unwrap();
        n.add_interface(id, "eth0").unwrap();
    }
    for (an, ai, bn, bi) in links {
        n.add_link(
            Endpoint::new(an, ai).unwrap(),
            Endpoint::new(bn, bi).unwrap(),
        )
        .unwrap();
    }
    n
}

#[test]
fn simulation_backend_describes_only() {
    let empty = Network::empty();
    let topo = net(&["a", "b"], &[("a", "eth0", "b", "eth0")]);
    let b = SimulationBackend;
    assert_eq!(b.name(), "simulation");
    let steps = b.plan(&empty, &topo).unwrap();
    assert_eq!(steps.len(), 5); // 2 CreateNode + 2 CreateInterface + 1 CreateLink
    assert!(steps.iter().all(|s| matches!(s, BackendStep::Describe(_))));
    // Deterministic.
    assert_eq!(b.plan(&empty, &topo).unwrap(), steps);
}

#[test]
fn dry_run_text_lists_numbered_steps() {
    let empty = Network::empty();
    let topo = net(&["a"], &[]);
    let b = SimulationBackend;
    let steps = b.plan(&empty, &topo).unwrap();
    assert_eq!(
        dry_run_text("main", b.name(), &steps),
        "target: main\nbackend: simulation\nExecution plan (2 step(s)):\n  1. create node a\n  2. create interface a/eth0\n(dry run \u{2014} pass --execute --yes-i-know to realize this plan)\n"
    );
    assert_eq!(
        dry_run_text("main", b.name(), &Vec::new()),
        "target: main\nbackend: simulation\nExecution plan: (no changes)\n"
    );
}
