use rahn::exec::LinuxNamespaceBackend;
use rahn::sim::{BackendStep, ExecutionBackend};
use rahn::model::{Endpoint, Metadata, Network};

fn topo() -> Network {
    let mut n = Network::empty();
    for id in ["a", "b"] {
        n.add_node(id, Metadata::new()).unwrap();
        n.add_interface(id, "eth0").unwrap();
    }
    n.add_link(
        Endpoint::new("a", "eth0").unwrap(),
        Endpoint::new("b", "eth0").unwrap(),
    )
    .unwrap();
    n
}

#[test]
fn linux_backend_yields_invoke_steps_deterministically() {
    let empty = Network::empty();
    let b = LinuxNamespaceBackend;
    assert_eq!(b.name(), "linux-ns");
    let caps = b.capabilities();
    assert!(caps.link_topology);
    assert!(!caps.addressing && !caps.traffic_control);
    let steps = b.plan(&empty, &topo()).unwrap();
    assert_eq!(steps.len(), 12); // one step per namespace command
    assert!(steps
        .iter()
        .all(|s| matches!(s, BackendStep::Invoke { program, .. } if program == "ip")));
    assert_eq!(
        steps[0],
        BackendStep::Invoke {
            program: "ip".into(),
            args: vec!["netns".into(), "add".into(), "rahn-a".into()],
        }
    );
    assert_eq!(b.plan(&empty, &topo()).unwrap(), steps);
}
