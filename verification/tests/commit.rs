use rahn::commit::{canonical_commit_bytes, CommitRecord};
use rahn::identity::StateId;
use rahn::model::{Metadata, Network, State, VerificationSummary};
use rahn::transition::Operation;


fn sample() -> CommitRecord {
    let mut net = Network::empty();
    net.add_node("a", Metadata::new()).unwrap();
    CommitRecord {
        state_id: StateId::of(&State { network: net }),
        parents: vec![],
        operations: vec![Operation::AddNode {
            id: "a".into(),
            metadata: Metadata::new(),
        }],
        message: "init".into(),
        verification: VerificationSummary::passed(),
    }
}

#[test]
fn commit_round_trips() {
    let rec = sample();
    let bytes = canonical_commit_bytes(&rec);
    let parsed = CommitRecord::parse(&bytes).unwrap();
    assert_eq!(parsed, rec);
    assert_eq!(parsed.id(), rec.id());
}

#[test]
fn merge_commit_round_trips() {
    let mut rec = sample();
    rec.parents = vec![rec.id(), rec.id()];
    rec.message = "merge b".into();
    let parsed = CommitRecord::parse(&canonical_commit_bytes(&rec)).unwrap();
    assert_eq!(parsed.parents.len(), 2);
}

#[test]
fn three_parents_rejected() {
    let mut rec = sample();
    let id = rec.id();
    rec.parents = vec![id, id, id];
    assert!(CommitRecord::parse(&canonical_commit_bytes(&rec)).is_err());
}

#[test]
fn commit_trailing_bytes_rejected() {
    let mut bytes = canonical_commit_bytes(&sample());
    bytes.push(0);
    assert!(CommitRecord::parse(&bytes).is_err());
}

#[test]
fn unverified_commit_is_representable_for_audit_only() {
    // The type can represent a failed summary (for integrity auditing);
    // creating one at commit time is prevented at the CLI/flow level.
    let mut rec = sample();
    rec.verification = VerificationSummary::failed(vec!["connectivity".into()]);
    assert!(!rec.verification.passed);
}

#[test]
fn commit_with_interface_and_link_operations_round_trips() {
    let mut rec = sample();
    rec.operations = vec![
        Operation::AddNode { id: "b".into(), metadata: Metadata::new() },
        Operation::AddInterface { node: "a".into(), name: "eth0".into() },
        Operation::AddInterface { node: "b".into(), name: "eth0".into() },
        Operation::AddLink {
            a: rahn::model::Endpoint::new("a", "eth0").unwrap(),
            b: rahn::model::Endpoint::new("b", "eth0").unwrap(),
        },
        Operation::RemoveInterface { node: "b".into(), name: "eth1".into() },
    ];
    let parsed = CommitRecord::parse(&canonical_commit_bytes(&rec)).unwrap();
    assert_eq!(parsed, rec);
}
