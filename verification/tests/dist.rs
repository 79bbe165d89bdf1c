use std::collections::BTreeMap;
use rahn::commit::CommitId;
use rahn::constitution::Constitution;
use rahn::dist::{
    merge_parents, rejected_merge_line, relate_tips, resolve_divergence, sync_merge_record,
    next_to_fetch, relate_histories, sync_step, BranchOutcome, ReplicaId, SyncError, SyncReport, SyncStep, TipRelation,
};
use rahn::identity::StateId;
use rahn::model::{Endpoint, Metadata, Network, State};

fn id(n: u8) -> CommitId {
    CommitId([n; 32])
}

fn nodes(ids: &[&str]) -> Network {
    let mut n = Network::empty();
    for i in ids {
        n.add_node(i, Metadata::new()).unwrap();
        n.add_interface(i, "eth0").unwrap();
    }
    n
}

#[test]
fn replica_ids_are_identifiers() {
    assert!(ReplicaId::new("a").is_ok());
    assert!(matches!(
        ReplicaId::new("bad id"),
        Err(SyncError::InvalidReplicaId(_))
    ));
}

#[test]
fn tips_relate_by_their_ancestor() {
    assert_eq!(relate_tips(&id(1), &id(1), true, true), TipRelation::Same);
    assert_eq!(relate_tips(&id(1), &id(2), false, true), TipRelation::Ahead);
    assert_eq!(relate_tips(&id(1), &id(2), true, false), TipRelation::Behind);
    assert_eq!(relate_tips(&id(1), &id(2), false, false), TipRelation::Diverged);
}

#[test]
fn merge_parents_are_ordered_the_same_on_both_replicas() {
    assert_eq!(merge_parents(id(2), id(1)), vec![id(1), id(2)]);
    assert_eq!(merge_parents(id(1), id(2)), vec![id(1), id(2)]);
}

#[test]
fn divergent_disjoint_additions_merge() {
    let base = nodes(&["x"]);
    let ours = nodes(&["x", "y"]);
    let theirs = nodes(&["x", "z"]);
    let (state, rec) = resolve_divergence(
        &base,
        &ours,
        &theirs,
        &Constitution::default(),
        id(9),
        id(3),
    )
    .unwrap();
    assert_eq!(state.network, nodes(&["x", "y", "z"]));
    assert_eq!(rec.parents, vec![id(3), id(9)]);
    assert_eq!(rec.message, "sync merge");
    assert!(rec.operations.is_empty());
    assert!(rec.verification.passed);
    assert_eq!(rec.state_id, StateId::of(&state));
    // The other replica builds the same commit.
    let (state2, rec2) = resolve_divergence(
        &base,
        &theirs,
        &ours,
        &Constitution::default(),
        id(3),
        id(9),
    )
    .unwrap();
    assert_eq!(state2, state);
    assert_eq!(rec2, rec);
}

#[test]
fn conflicting_divergence_fails_closed() {
    let mut base = nodes(&["x"]);
    base.add_node("w", Metadata::new()).unwrap();
    let mut ours = base.clone();
    ours.remove_interface("x", "eth0").unwrap();
    ours.remove_node("x").unwrap();
    let mut theirs = base.clone();
    theirs.add_node("z", Metadata::new()).unwrap();
    theirs.add_interface("z", "eth0").unwrap();
    theirs
        .add_link(Endpoint::new("x", "eth0").unwrap(), Endpoint::new("z", "eth0").unwrap())
        .unwrap();
    let err = resolve_divergence(&base, &ours, &theirs, &Constitution::default(), id(1), id(2))
        .unwrap_err();
    assert!(!err.conflicts.is_empty());
}

#[test]
fn merged_state_must_pass_the_constitution() {
    let base = nodes(&["a", "b"]);
    let ours = nodes(&["a", "b", "c"]);
    let theirs = nodes(&["a", "b", "d"]);
    let c = Constitution::parse("require-connectivity a b\n").unwrap();
    let err = resolve_divergence(&base, &ours, &theirs, &c, id(1), id(2)).unwrap_err();
    assert_eq!(
        err.conflicts,
        vec!["merged state rejected by verification: named-connectivity:a:b".to_string()]
    );
}

#[test]
fn rejected_merge_line_joins_ids() {
    assert_eq!(
        rejected_merge_line(&vec!["a".into(), "b".into()]),
        "merged state rejected by verification: a, b"
    );
    assert_eq!(
        rejected_merge_line(&vec![]),
        "merged state rejected by verification: "
    );
}

#[test]
fn sync_merge_record_shape() {
    let s = StateId::of(&State::empty());
    let r = sync_merge_record(s, vec![id(1), id(2)]);
    assert_eq!(r.state_id, s);
    assert_eq!(r.message, "sync merge");
}

#[test]
fn report_converges_without_conflicts() {
    let mut r = SyncReport::default();
    r.outcomes.push(("main".into(), BranchOutcome::Fetched));
    assert!(r.converged());
    r.outcomes.push(("dev".into(), BranchOutcome::Conflict(vec!["x".into()])));
    assert!(!r.converged());
}

#[test]
fn sync_step_by_tips_and_relation() {
    let c = |n: u8| CommitId([n; 32]);
    assert_eq!(sync_step(&None, &None, TipRelation::Same), SyncStep::UpToDate);
    assert_eq!(sync_step(&None, &Some(c(2)), TipRelation::Same), SyncStep::TakeFromPeer(c(2)));
    assert_eq!(sync_step(&Some(c(1)), &None, TipRelation::Same), SyncStep::GiveToPeer(c(1)));
    assert_eq!(sync_step(&Some(c(1)), &Some(c(1)), TipRelation::Same), SyncStep::UpToDate);
    assert_eq!(sync_step(&Some(c(1)), &Some(c(2)), TipRelation::Behind), SyncStep::AdoptPeerTip(c(2)));
    assert_eq!(sync_step(&Some(c(1)), &Some(c(2)), TipRelation::Ahead), SyncStep::PushOwnTip(c(1)));
    assert_eq!(
        sync_step(&Some(c(1)), &Some(c(2)), TipRelation::Diverged),
        SyncStep::Merge { ours: c(1), theirs: c(2) }
    );
}

#[test]
fn ahead_through_a_merge_commit_is_ahead() {
    // 2 -> 1 is theirs; ours is the merge 3 -> [1, 2], first parent 1.
    let mut g: BTreeMap<CommitId, Vec<CommitId>> = BTreeMap::new();
    g.insert(id(1), vec![]);
    g.insert(id(2), vec![id(1)]);
    g.insert(id(3), vec![id(1), id(2)]);
    let parents_of = |c: CommitId| g.get(&c).cloned();
    assert_eq!(relate_histories(id(3), id(2), &parents_of), TipRelation::Ahead);
    assert_eq!(relate_histories(id(2), id(3), &parents_of), TipRelation::Behind);
    assert_eq!(relate_histories(id(2), id(2), &parents_of), TipRelation::Same);
    g.insert(id(4), vec![id(1)]);
    let parents_of = |c: CommitId| g.get(&c).cloned();
    assert_eq!(relate_histories(id(4), id(2), &parents_of), TipRelation::Diverged);
}

#[test]
fn next_to_fetch_takes_the_last_unseen() {
    let mut queue = vec![id(1), id(2), id(3)];
    let mut seen = vec![id(3)];
    assert_eq!(next_to_fetch(&mut queue, &mut seen), Some(id(2)));
    assert_eq!(queue, vec![id(1)]);
    assert_eq!(seen, vec![id(3), id(2)]);
    queue.push(id(2));
    assert_eq!(next_to_fetch(&mut queue, &mut seen), Some(id(1)));
    assert_eq!(next_to_fetch(&mut queue, &mut seen), None);
    assert!(queue.is_empty());
}
