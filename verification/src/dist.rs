//! Peer synchronization decisions over content-addressed history. Each
//! replica is authoritative for its own history; divergence converges only
//! through the fail-closed semantic merge, producing the same merge commit
//! on every replica. Reading and writing the stores is left to the caller;
//! this module decides.
use vstd::prelude::*;
use crate::text::{owned, joined, lemma_joined_push, bytes_lt, bytes_compare, Compared, lemma_bytes_lt_total, lemma_bytes_lt_trans, lemma_bytes_lt_irrefl};
use crate::model::{validate_id, valid_id, VerificationSummary, push_str, id_reason};
use crate::commit::{CommitId, CommitRecord, CommitV, commit_id_eq, id_views};
use crate::history::{descends, answers_fixed, history_contains, holds_id};
use crate::identity::StateId;
use crate::merge::{MergeConflict, merge, has_conflict, merged, conflict_count, conflict_texts, starts_with};
use crate::model::{Network, State, pair_views};
use crate::constitution::Constitution;
use crate::invariants::{verify, conforms, VerificationReport, is_report_of, failed_id_views};
use crate::identity::sha256_spec;
use crate::canonical::canon;
use crate::describe::debug_str_spec;
use crate::diff::str_views;

verus! {

/// Self-asserted replica identity.
#[derive(Debug, Clone, PartialEq, Eq, PartialOrd, Ord)]
pub struct ReplicaId(pub String);

/// Why a synchronization stopped.
#[derive(Debug, Clone, PartialEq, Eq)]
pub enum SyncError {
    /// A store operation failed; the store's own explanation.
    Store(String),
    InvalidReplicaId(String),
    /// Fail-closed divergence: the merge cannot be shown safe.
    Conflict(MergeConflict),
}

impl ReplicaId {
    /// A replica id must be a valid identifier.
    pub fn new(id: &str) -> (r: Result<ReplicaId, SyncError>)
        ensures
            r is Ok <==> valid_id(id@),
            r matches Ok(x) ==> x.0@ == id@,
            r matches Err(SyncError::InvalidReplicaId(s)) ==> s@ == "invalid identifier "@ + debug_str_spec(
                id@,
            ) + ": "@ + id_reason(id@),
            r is Err ==> r matches Err(SyncError::InvalidReplicaId(_)),
    {
        match validate_id(id) {
            Ok(()) => Ok(ReplicaId(owned(id))),
            Err(e) => {
                let m = e.message();
                Err(SyncError::InvalidReplicaId(m))
            },
        }
    }
}

/// Per-branch synchronization outcome.
#[derive(Debug, Clone, PartialEq, Eq)]
pub enum BranchOutcome {
    UpToDate,
    /// Adopted the peer's tip (no divergence).
    Fetched,
    /// Divergence resolved by merge: the merge commit made on both replicas.
    Merged(CommitId),
    /// Fail-closed: the tips stay divergent; the conflict is explained.
    Conflict(Vec<String>),
}

/// The outcome of a synchronization, per branch name.
#[derive(Debug, Clone, PartialEq, Eq, Default)]
pub struct SyncReport {
    pub outcomes: Vec<(String, BranchOutcome)>,
}

impl SyncReport {
    /// No branch was left in conflict.
    pub fn converged(&self) -> (r: bool)
        ensures
            r == forall|i: int| 0 <= i < self.outcomes@.len() ==> !(#[trigger] self.outcomes@[i].1 is Conflict),
    {
        let mut i: usize = 0;
        while i < self.outcomes.len()
            invariant
                i <= self.outcomes@.len(),
                forall|j: int| 0 <= j < i ==> !(#[trigger] self.outcomes@[j].1 is Conflict),
            decreases self.outcomes@.len() - i,
        {
            if let BranchOutcome::Conflict(_) = &self.outcomes[i].1 {
                return false;
            }
            i = i + 1;
        }
        true
    }
}

/// How two branch tips relate, given their common ancestor.
#[derive(Debug, Clone, Copy, PartialEq, Eq)]
pub enum TipRelation {
    /// The same commit.
    Same,
    /// Ours is an ancestor of theirs: adopt theirs.
    Behind,
    /// Theirs is an ancestor of ours: the peer adopts ours.
    Ahead,
    /// Neither contains the other: merge over the ancestor.
    Diverged,
}

/// Relate two tips by what their histories hold: equal tips are the same;
/// when the peer's history holds ours we are behind, else when ours holds
/// the peer's we are ahead; anything else is a divergence.
pub fn relate_tips(ours: &CommitId, theirs: &CommitId, theirs_has_ours: bool, ours_has_theirs: bool) -> (r:
    TipRelation)
    ensures
        r == (if ours@ == theirs@ {
            TipRelation::Same
        } else if theirs_has_ours {
            TipRelation::Behind
        } else if ours_has_theirs {
            TipRelation::Ahead
        } else {
            TipRelation::Diverged
        }),
{
    if commit_id_eq(ours, theirs) {
        TipRelation::Same
    } else if theirs_has_ours {
        TipRelation::Behind
    } else if ours_has_theirs {
        TipRelation::Ahead
    } else {
        TipRelation::Diverged
    }
}

/// No parent lookup fails anywhere in the history of `tip`.
pub open spec fn history_readable<F: Fn(CommitId) -> Option<Vec<CommitId>>>(f: F, tip: Seq<u8>) -> bool {
    forall|c: CommitId|
        #![trigger f.ensures((c,), None::<Vec<CommitId>>)]
        descends(f, tip, c@) ==> !f.ensures((c,), None::<Vec<CommitId>>)
}

/// Relate two tips by reading their histories through `parents_of`: behind
/// when the peer's history holds our tip, ahead when ours holds the
/// peer's, diverged otherwise (a history that cannot be read counts as not
/// holding the other tip).
pub fn relate_histories<F: Fn(CommitId) -> Option<Vec<CommitId>>>(
    ours: CommitId,
    theirs: CommitId,
    parents_of: &F,
) -> (r: TipRelation)
    requires
        forall|c: CommitId| parents_of.requires((c,)),
    ensures
        (r == TipRelation::Same) <==> ours@ == theirs@,
        r == TipRelation::Behind ==> descends(*parents_of, theirs@, ours@),
        r == TipRelation::Ahead ==> descends(*parents_of, ours@, theirs@),
        answers_fixed(*parents_of) && ours@ != theirs@ && descends(*parents_of, theirs@, ours@)
            && history_readable(*parents_of, theirs@) ==> r == TipRelation::Behind,
        answers_fixed(*parents_of) && ours@ != theirs@ && !descends(*parents_of, theirs@, ours@)
            && descends(*parents_of, ours@, theirs@) && history_readable(*parents_of, ours@) ==> r
            == TipRelation::Ahead,
        answers_fixed(*parents_of) && ours@ != theirs@ && !descends(*parents_of, theirs@, ours@)
            && !descends(*parents_of, ours@, theirs@) ==> r == TipRelation::Diverged,
{
    let behind = history_contains(theirs, ours, parents_of);
    let ahead = history_contains(ours, theirs, parents_of);
    let theirs_has_ours = match behind {
        Some(b) => b,
        None => false,
    };
    let ours_has_theirs = match ahead {
        Some(b) => b,
        None => false,
    };
    relate_tips(&ours, &theirs, theirs_has_ours, ours_has_theirs)
}

/// Two tips in ascending byte order.
pub open spec fn parent_order(a: Seq<u8>, b: Seq<u8>) -> Seq<Seq<u8>> {
    if bytes_lt(b, a) {
        seq![b, a]
    } else {
        seq![a, b]
    }
}

/// The parents of a merge commit: both tips, in ascending byte order, so
/// every replica records them the same way.
pub fn merge_parents(ours: CommitId, theirs: CommitId) -> (r: Vec<CommitId>)
    ensures
        id_views(r@) == parent_order(ours@, theirs@),
{
    let mut v: Vec<CommitId> = Vec::new();
    match bytes_compare(&ours.0, &theirs.0) {
        Compared::Greater => {
            v.push(theirs);
            v.push(ours);
        },
        _ => {
            v.push(ours);
            v.push(theirs);
        },
    }
    proof {
        assert(id_views(v@) =~= seq![v@[0]@, v@[1]@]);
    }
    v
}

/// Both replicas record the same merge parents, whichever of them calls
/// its own tip "ours": the two tips, the smaller by bytes first.
pub proof fn law_merge_parents_symmetric(a: Seq<u8>, b: Seq<u8>)
    ensures
        parent_order(a, b) == parent_order(b, a),
        parent_order(a, b).len() == 2,
        parent_order(a, b).to_set() == set![a, b],
        !bytes_lt(parent_order(a, b)[1], parent_order(a, b)[0]),
{
    assert(parent_order(a, b).to_set() =~= set![a, b]) by {
        let s = parent_order(a, b);
        assert(s.contains(s[0]) && s.contains(s[1]));
        assert forall|x: Seq<u8>| s.to_set().contains(x) implies set![a, b].contains(x) by {
            if s.contains(x) {
                let i = choose|i: int| 0 <= i < s.len() && s[i] == x;
                assert(i == 0 || i == 1);
            }
        }
    }
    lemma_bytes_lt_total(a, b);
    if bytes_lt(a, b) && bytes_lt(b, a) {
        lemma_bytes_lt_trans(a, b, a);
        lemma_bytes_lt_irrefl(a);
    }
}

/// The merge commit both replicas create: the merged state, the ordered
/// parents, no operations, message `sync merge`, verification passed.
pub fn sync_merge_record(state_id: StateId, parents: Vec<CommitId>) -> (r: CommitRecord)
    ensures
        r.state_id == state_id,
        r.parents@ == parents@,
        r.operations@.len() == 0,
        r.message@ == "sync merge"@,
        r.verification.passed,
        r.verification.failed_invariants@.len() == 0,
{
    CommitRecord {
        state_id,
        parents,
        operations: Vec::new(),
        message: owned("sync merge"),
        verification: VerificationSummary::passed(),
    }
}

/// The line that reports a merged state refused by verification: the
/// failed invariant ids, joined by `, `.
pub fn rejected_merge_line(failed: &Vec<String>) -> (r: String)
    ensures
        r@ == "merged state rejected by verification: "@ + joined(str_views(failed@), ", "@),
{
    let mut s = owned("merged state rejected by verification: ");
    let ghost head = s@;
    let mut i: usize = 0;
    while i < failed.len()
        invariant
            i <= failed@.len(),
            head == "merged state rejected by verification: "@,
            s@ == head + joined(str_views(failed@.take(i as int)), ", "@),
        decreases failed@.len() - i,
    {
        proof {
            assert(str_views(failed@.take(i + 1)) =~= str_views(failed@.take(i as int)).push(failed@[i as int]@));
            lemma_joined_push(str_views(failed@.take(i as int)), ", "@, failed@[i as int]@);
        }
        if i > 0 {
            push_str(&mut s, ", ");
        }
        push_str(&mut s, failed[i].as_str());
        i = i + 1;
    }
    proof {
        assert(failed@.take(failed@.len() as int) =~= failed@);
        assert(str_views(Seq::<String>::empty()) =~= Seq::<Seq<char>>::empty());
    }
    s
}

/// What a two-way synchronization does with one branch, given each
/// replica's tip and, where both have one, how the tips relate.
#[derive(Debug, Clone, Copy, PartialEq, Eq)]
pub enum SyncStep {
    /// Nothing to do.
    UpToDate,
    /// Only the peer has the branch: copy its history here and point the
    /// branch at its tip on both replicas.
    TakeFromPeer(CommitId),
    /// Only this replica has the branch: copy its history to the peer and
    /// point the peer's branch at its tip.
    GiveToPeer(CommitId),
    /// This replica is behind: point its branch at the peer's tip.
    AdoptPeerTip(CommitId),
    /// The peer is behind: copy this history to it and point its branch
    /// at this tip.
    PushOwnTip(CommitId),
    /// The tips diverged: merge them over their common ancestor.
    Merge { ours: CommitId, theirs: CommitId },
}

/// Decide what to do with one branch: from the tips alone when a replica
/// lacks the branch, else by how the tips relate (`relation`, read only
/// when both replicas have a tip).
pub fn sync_step(ours: &Option<CommitId>, theirs: &Option<CommitId>, relation: TipRelation) -> (r: SyncStep)
    ensures
        r == (match (*ours, *theirs) {
            (None, None) => SyncStep::UpToDate,
            (None, Some(t)) => SyncStep::TakeFromPeer(t),
            (Some(o), None) => SyncStep::GiveToPeer(o),
            (Some(o), Some(t)) => match relation {
                TipRelation::Same => SyncStep::UpToDate,
                TipRelation::Behind => SyncStep::AdoptPeerTip(t),
                TipRelation::Ahead => SyncStep::PushOwnTip(o),
                TipRelation::Diverged => SyncStep::Merge { ours: o, theirs: t },
            },
        }),
{
    match (ours, theirs) {
        (None, None) => SyncStep::UpToDate,
        (None, Some(t)) => SyncStep::TakeFromPeer(*t),
        (Some(o), None) => SyncStep::GiveToPeer(*o),
        (Some(o), Some(t)) => match relation {
            TipRelation::Same => SyncStep::UpToDate,
            TipRelation::Behind => SyncStep::AdoptPeerTip(*t),
            TipRelation::Ahead => SyncStep::PushOwnTip(*o),
            TipRelation::Diverged => SyncStep::Merge { ours: *o, theirs: *t },
        },
    }
}

/// The next commit to copy when walking histories from a work list: the
/// last queued commit not seen yet, which is then marked seen; commits
/// already seen are dropped from the end of the list on the way. `None`
/// once the list holds nothing new.
pub fn next_to_fetch(queue: &mut Vec<CommitId>, seen: &mut Vec<CommitId>) -> (r: Option<CommitId>)
    ensures
        r is None ==> final(queue)@.len() == 0 && final(seen)@ == old(seen)@ && forall|j: int|
            0 <= j < old(queue)@.len() ==> id_views(old(seen)@).contains(#[trigger] old(queue)@[j]@),
        r matches Some(c) ==> exists|k: int|
            0 <= k < old(queue)@.len() && final(queue)@ == old(queue)@.take(k) && old(queue)@[k] == c
                && !id_views(old(seen)@).contains(c@) && (forall|j: int|
                k < j < old(queue)@.len() ==> id_views(old(seen)@).contains(#[trigger] old(queue)@[j]@))
                && final(seen)@ == old(seen)@.push(c),
{
    let ghost q0 = queue@;
    while queue.len() > 0
        invariant
            queue@ == q0.take(queue@.len() as int),
            queue@.len() <= q0.len(),
            seen@ == old(seen)@,
            q0 == old(queue)@,
            forall|j: int| queue@.len() <= j < q0.len() ==> id_views(seen@).contains(#[trigger] q0[j]@),
        decreases queue@.len(),
    {
        let ghost n = queue@.len();
        let c = queue.pop().unwrap();
        proof {
            assert(c == q0[n - 1]);
            assert(queue@ =~= q0.take(n - 1));
        }
        if !holds_id(seen, &c) {
            seen.push(c);
            return Some(c);
        }
    }
    None
}

/// Resolve a divergent branch: merge both tips over their common
/// ancestor's state (fail-closed), and accept the merged state only if it
/// passes verification against the constitution. On success, the merged
/// state and the merge commit that both replicas record.
pub fn resolve_divergence(
    base: &Network,
    ours: &Network,
    theirs: &Network,
    constitution: &Constitution,
    ours_tip: CommitId,
    theirs_tip: CommitId,
) -> (r: Result<(State, CommitRecord), MergeConflict>)
    requires
        base.wf(),
        ours.wf(),
        theirs.wf(),
    ensures
        r is Ok <==> !has_conflict(base@, ours@, theirs@) && merged(base@, ours@, theirs@) is Some
            && conforms(
            merged(base@, ours@, theirs@).unwrap(),
            pair_views(constitution.connectivity_requirements@),
            pair_views(constitution.prohibited_connectivity@),
        ),
        r matches Ok((s, rec)) ==> {
            &&& s.network.wf()
            &&& Some(s.network@) == merged(base@, ours@, theirs@)
            &&& rec.state_id@ == sha256_spec(canon(s.network@))
            &&& id_views(rec.parents@) == parent_order(ours_tip@, theirs_tip@)
            &&& rec.operations@.len() == 0
            &&& rec.message@ == "sync merge"@
            &&& rec.verification.passed
            &&& rec.verification.failed_invariants@.len() == 0
        },
        has_conflict(base@, ours@, theirs@) ==> (r matches Err(c) && str_views(c.conflicts@)
            == conflict_texts(base@, ours@, theirs@) && c.conflicts@.len() == conflict_count(
            base@,
            ours@,
            theirs@,
        )),
        !has_conflict(base@, ours@, theirs@) && merged(base@, ours@, theirs@) is Some && !conforms(
            merged(base@, ours@, theirs@).unwrap(),
            pair_views(constitution.connectivity_requirements@),
            pair_views(constitution.prohibited_connectivity@),
        ) ==> (r matches Err(c) && c.conflicts@.len() == 1 && exists|rep: VerificationReport|
            is_report_of(rep, merged(base@, ours@, theirs@).unwrap(), *constitution) && c.conflicts@[0]@
                == "merged state rejected by verification: "@ + joined(
                #[trigger] failed_id_views(rep.reports@),
                ", "@,
            )),
{
    let network = match merge(base, ours, theirs) {
        Ok(m) => m,
        Err(c) => return Err(c),
    };
    let state = State { network };
    let report = verify(&state, constitution);
    if !report.passed() {
        let ids = report.failed_ids();
        let line = rejected_merge_line(&ids);
        let mut conflicts: Vec<String> = Vec::new();
        conflicts.push(line);
        return Err(MergeConflict { conflicts });
    }
    let state_id = StateId::of(&state);
    let parents = merge_parents(ours_tip, theirs_tip);
    let record = sync_merge_record(state_id, parents);
    Ok((state, record))
}

} // verus!
