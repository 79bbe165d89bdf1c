use rahn::exec::{assert_host_safety, check_iface_name, commands_for, destroy_commands, is_host_safe, veth_name, ExecError, IpCommand};
use rahn::model::{Endpoint, Metadata, Network};


fn net(nodes: &[&str], links: &[(&str, &str, &str, &str)]) -> Network {
    let mut n = Network::empty();
    for id in nodes {
        n.add_node(id, Metadata::new()).unwrap();
        n.add_interface(id, "eth0").unwrap();
    }
    for (an, ai, bn, bi) in links {
        n.add_link(
            Endpoint::new(an, ai).unwrap(),
            Endpoint::new(bn, bi).unwrap(),
        )
        .unwrap();
    }
    n
}

#[test]
fn veth_names_are_short_deterministic_and_distinct() {
    let a = Endpoint::new("web", "eth0").unwrap();
    let b = Endpoint::new("db", "eth0").unwrap();
    let (na, nb) = (veth_name(&a), veth_name(&b));
    assert_eq!(na, veth_name(&a), "deterministic");
    assert_ne!(na, nb);
    assert_eq!(na.len(), 8, "r + 7 hex, IFNAMSIZ-safe");
    assert!(na.starts_with('r') && na[1..].chars().all(|c| c.is_ascii_hexdigit()));
}

#[test]
fn mapping_is_pure_and_ordered() {
    let empty = Network::empty();
    let topo = net(&["a", "b"], &[("a", "eth0", "b", "eth0")]);
    let cmds = commands_for(&empty, &topo).unwrap();
    // 2 nodes (netns add + lo up) + 2 interfaces (dummy add + up)
    // + 1 link (veth add, move, up, up) = 12 commands.
    assert_eq!(cmds.len(), 12);
    assert_eq!(cmds[0].argv(), ["ip", "netns", "add", "rahn-a"]);
    assert_eq!(
        cmds[1].argv(),
        ["ip", "-n", "rahn-a", "link", "set", "lo", "up"]
    );
    assert_eq!(
        cmds[4].argv()[..6],
        ["ip", "-n", "rahn-a", "link", "add", "eth0"]
    );
    assert_eq!(&cmds[4].argv()[6..], ["type", "dummy"]);
    let rem = commands_for(&topo, &empty).unwrap();
    // link del first, then netns dels
    assert_eq!(rem.len(), 3);
    assert_eq!(rem[0].argv()[1..3], ["-n", "rahn-a"]);
    assert_eq!(rem[1].argv(), ["ip", "netns", "del", "rahn-a"]);
    assert_eq!(rem[2].argv(), ["ip", "netns", "del", "rahn-b"]);
    // Purity: same inputs, same commands.
    assert_eq!(commands_for(&empty, &topo).unwrap(), cmds);
}

#[test]
fn every_command_is_namespace_scoped() {
    let empty = Network::empty();
    let topo = net(
        &["a", "b", "c"],
        &[("a", "eth0", "b", "eth0"), ("b", "eth0", "c", "eth0")],
    );
    for (from, to) in [(&empty, &topo), (&topo, &empty)] {
        let cmds = commands_for(from, to).unwrap();
        assert_host_safety(&cmds); // panics on any host mutation
    }
}

#[test]
fn long_interface_names_are_refused_before_any_command() {
    let mut n = Network::empty();
    n.add_node("a", Metadata::new()).unwrap();
    let err = check_iface_name("a", "an-extremely-long-interface-name");
    assert!(matches!(err, Err(ExecError::InterfaceNameTooLong(_))));
}

#[test]
fn destroy_targets_all_nodes() {
    let topo = net(&["a", "b"], &[]);
    let cmds = destroy_commands(&topo);
    assert_eq!(cmds.len(), 2);
    assert_host_safety(&cmds);
}

fn cmd(args: &[&str]) -> IpCommand {
    IpCommand { args: args.iter().map(|s| s.to_string()).collect() }
}

#[test]
fn host_safety_is_decided_per_command() {
    assert!(is_host_safe(&[]));
    assert!(is_host_safe(&[cmd(&["ip", "netns", "add", "rahn-a"]), cmd(&["ip", "-n", "rahn-a", "link", "set", "lo", "up"])]));
    assert!(!is_host_safe(&[cmd(&["ip", "link", "del", "eth0"])]));
    assert!(!is_host_safe(&[cmd(&["ip", "netns", "del", "prod"])]));
    assert!(!is_host_safe(&[cmd(&["ip", "-n", "rahn"])]));
    assert!(!is_host_safe(&[cmd(&["sh", "-n", "rahn-a"])]));
    let empty = Network::empty();
    let topo = net(&["a", "b"], &[("a", "eth0", "b", "eth0")]);
    assert!(is_host_safe(&commands_for(&empty, &topo).unwrap()));
}
