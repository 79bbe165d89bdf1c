//! The rules a repository command applies before it writes anything:
//! a commit must change the topology and its state must pass
//! verification; a checkout must not discard uncommitted work unless
//! forced; a merge result must pass verification like any other state.
use vstd::prelude::*;
use crate::text::owned;
use crate::model::{Network, State, pair_views, push_str};
use crate::diff::{diff, same_topology};
use crate::merge::{
    merge, operations_between, ops_wf, op_views, diff_ops, has_conflict, merged, conflict_count, conflict_texts,
};
use crate::invariants::{VerificationReport, is_report_of, report_text};
use crate::identity::hex_bytes;
use crate::text::sbytes;
use crate::describe::{decimal, conflict_lines};
use crate::constitution::Constitution;
use crate::invariants::{verify, conforms};
use crate::transition::Operation;
use crate::cli::CliError;

verus! {

/// What a commit records: the operations from the parent state to the
/// working state. Nothing is committed when the topology is unchanged,
/// and a working state that fails verification is refused before any
/// write.
pub fn prepare_commit(parent: &Network, working: &State, constitution: &Constitution) -> (r: Result<
    Vec<Operation>,
    CliError,
>)
    requires
        parent.wf(),
        working.network.wf(),
    ensures
        r is Ok <==> !same_topology(parent@, working.network@) && conforms(
            working.network@,
            pair_views(constitution.connectivity_requirements@),
            pair_views(constitution.prohibited_connectivity@),
        ),
        r matches Ok(ops) ==> ops_wf(ops@) && op_views(ops@) == diff_ops(parent@, working.network@),
        same_topology(parent@, working.network@) ==> (r matches Err(CliError::Runtime(m)) && m@
            == "nothing to commit (working state equals HEAD)"@),
        r is Err && !same_topology(parent@, working.network@) ==> (r matches Err(CliError::Runtime(m))
            && exists|rep: VerificationReport, h: Seq<char>|
            is_report_of(rep, working.network@, *constitution) && sbytes(h) == hex_bytes(rep.state_id@)
                && m@ == "commit rejected by verification:\n"@ + #[trigger] report_text(h, rep.reports@)),
{
    let d = diff(parent, &working.network);
    if d.is_empty() {
        return Err(CliError::Runtime(owned("nothing to commit (working state equals HEAD)")));
    }
    let operations = operations_between(parent, &working.network);
    let report = verify(working, constitution);
    if !report.passed() {
        let mut m = owned("commit rejected by verification:\n");
        let t = report.text();
        push_str(&mut m, t.as_str());
        proof {
            let p = "commit rejected by verification:\n"@;
            assert(m@ =~= p + t@);
        }
        return Err(CliError::Runtime(m));
    }
    Ok(operations)
}

/// Whether a checkout from `current` to `target` may proceed: not onto the
/// branch already checked out, and not over uncommitted changes unless
/// `force` discards them.
pub fn check_checkout(current: &str, target: &str, dirty: bool, force: bool) -> (r: Result<(), CliError>)
    ensures
        r is Ok <==> current@ != target@ && (!dirty || force),
        current@ == target@ ==> (r matches Err(CliError::Runtime(m)) && m@ == "already on branch "@
            + crate::describe::debug_str_spec(target@)),
        current@ != target@ && dirty && !force ==> (r matches Err(CliError::Runtime(m)) && m@
            == "cannot checkout: working state has uncommitted changes (commit them first, or use --force to discard them)"@),
{
    if crate::text::str_eq(current, target) {
        let mut m = owned("already on branch ");
        let q = crate::describe::debug_str(target);
        push_str(&mut m, q.as_str());
        return Err(CliError::Runtime(m));
    }
    if dirty && !force {
        return Err(
            CliError::Runtime(
                owned(
                    "cannot checkout: working state has uncommitted changes (commit them first, or use --force to discard them)",
                ),
            ),
        );
    }
    Ok(())
}

/// The state a merge produces: the fail-closed semantic merge of both
/// sides over their common ancestor, accepted only if it passes
/// verification.
pub fn prepare_merge(base: &Network, ours: &Network, theirs: &Network, constitution: &Constitution) -> (r:
    Result<State, CliError>)
    requires
        base.wf(),
        ours.wf(),
        theirs.wf(),
    ensures
        r is Ok <==> !has_conflict(base@, ours@, theirs@) && merged(base@, ours@, theirs@) is Some
            && conforms(
            merged(base@, ours@, theirs@).unwrap(),
            pair_views(constitution.connectivity_requirements@),
            pair_views(constitution.prohibited_connectivity@),
        ),
        r matches Ok(s) ==> s.network.wf() && Some(s.network@) == merged(base@, ours@, theirs@),
        has_conflict(base@, ours@, theirs@) ==> (r matches Err(CliError::Runtime(m)) && m@
            == "merge rejected: "@ + decimal(conflict_count(base@, ours@, theirs@))
            + " semantic conflict(s):\n"@ + conflict_lines(conflict_texts(base@, ours@, theirs@))),
        !has_conflict(base@, ours@, theirs@) && merged(base@, ours@, theirs@) is Some && !conforms(
            merged(base@, ours@, theirs@).unwrap(),
            pair_views(constitution.connectivity_requirements@),
            pair_views(constitution.prohibited_connectivity@),
        ) ==> (r matches Err(CliError::Runtime(m)) && exists|rep: VerificationReport, h: Seq<char>|
            is_report_of(rep, merged(base@, ours@, theirs@).unwrap(), *constitution) && sbytes(h)
                == hex_bytes(rep.state_id@) && m@ == "merge result rejected by verification:\n"@
                + #[trigger] report_text(h, rep.reports@)),
{
    let network = match merge(base, ours, theirs) {
        Ok(m) => m,
        Err(c) => {
            let m = c.message();
            proof {
                let p = "merge rejected: "@;
                assert(m@.subrange(0, p.len() as int) =~= p);
            }
            return Err(CliError::Runtime(m));
        },
    };
    let state = State { network };
    let report = verify(&state, constitution);
    if !report.passed() {
        let mut m = owned("merge result rejected by verification:\n");
        let t = report.text();
        push_str(&mut m, t.as_str());
        proof {
            let p = "merge result rejected by verification:\n"@;
            assert(m@ =~= p + t@);
        }
        return Err(CliError::Runtime(m));
    }
    Ok(state)
}

} // verus!
