use rahn::canonical::{canonical_bytes, parse_canonical};
use rahn::constitution::Constitution;
use rahn::identity::StateId;
use rahn::invariants::{verify, VerificationReport};
use rahn::model::{Endpoint, Link, Metadata, Network, State};
use rahn::sim::{ExecutionBackend, SimulationBackend};
use rahn::transition::{apply_all, Operation};

#[test]
fn model_types_are_reachable() {
    let mut net = Network::empty();
    net.add_node("n", Metadata::new()).unwrap();
    net.add_interface("n", "eth0").unwrap();
    let e = Endpoint::new("n", "eth0").unwrap();
    let _link: Option<&Link> = net.link(&e, &Endpoint::new("n", "eth1").unwrap());
    let _state: State = State { network: net };
}

#[test]
fn ir_round_trip() {
    let ops = vec![
        Operation::AddNode {
            id: "a".into(),
            metadata: Metadata::new(),
        },
        Operation::AddInterface {
            node: "a".into(),
            name: "eth0".into(),
        },
    ];
    let next = apply_all(&State::empty().network, &ops).unwrap();
    let state = State { network: next };
    let bytes = canonical_bytes(&state);
    assert_eq!(parse_canonical(&bytes).unwrap(), state);
    assert_eq!(
        StateId::of(&parse_canonical(&bytes).unwrap()),
        StateId::of(&state)
    );
}

#[test]
fn verification_and_planning_are_reachable() {
    let state = State::empty();
    let report: VerificationReport = verify(&state, &Constitution::default());
    assert!(report.passed());
    let steps = SimulationBackend
        .plan(&state.network, &state.network)
        .unwrap();
    assert!(steps.is_empty());
}
