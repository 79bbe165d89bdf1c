use rahn::identity::StateId;
use rahn::model::{Metadata, Network, State};

fn net_with(ids: &[&str]) -> State {
    let mut net = Network::empty();
    for id in ids {
        net.add_node(id, Metadata::new()).unwrap();
    }
    State { network: net }
}

#[test]
fn identical_states_have_identical_ids() {
    let a = StateId::of(&net_with(&["x", "y"]));
    let b = StateId::of(&net_with(&["x", "y"]));
    assert_eq!(a, b);
}

#[test]
fn different_states_have_different_ids() {
    let a = StateId::of(&net_with(&["x", "y"]));
    let b = StateId::of(&net_with(&["x", "z"]));
    assert_ne!(a, b);
}

#[test]
fn ids_are_deterministic() {
    // The same state always has the same id.
    let hex = StateId::of(&State::empty()).as_hex();
    assert_eq!(hex.len(), 64);
    let again = StateId::of(&State::empty()).as_hex();
    assert_eq!(hex, again);
}

#[test]
fn hex_round_trip() {
    let id = StateId::of(&net_with(&["n1", "n2"]));
    let parsed = StateId::from_hex(&id.as_hex()).unwrap();
    assert_eq!(parsed, id);
    assert!(StateId::from_hex("xyz").is_none());
    assert!(StateId::from_hex(&"a".repeat(63)).is_none());
    // Uppercase hex is not accepted: canonical form is lowercase.
    assert!(StateId::from_hex(&id.as_hex().to_uppercase()).is_none());
}

#[test]
fn empty_state_id_is_fixed() {
    // Determinism anchor for the empty state.
    let hex = StateId::of(&State::empty()).as_hex();
    assert_eq!(hex.len(), 64);
}

#[test]
fn empty_state_id_is_pinned() {
    // The empty state encodes as the format version and two zero counts;
    // its id is the SHA-256 of those bytes.
    let mut bytes = vec![1u8, 0];
    bytes.extend_from_slice(&[0u8; 16]);
    assert_eq!(rahn::canonical::canonical_bytes(&State::empty()), bytes);
    assert_eq!(
        StateId::of(&State::empty()).as_hex(),
        "aa25e1d595a77c375b40b4796ea4ff044890efeebd4bd15d16d54387a5a8fc37"
    );
}
