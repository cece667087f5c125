//! Install transaction: hands the resolved system packages and the
//! freshly built artifacts to the system package manager as one
//! transaction, under restored privilege.
//!
//! The package manager itself is an external capability; the embedder
//! reports its verdict.  What is proved here: the transaction can only be
//! committed while the effective identity is elevated, the transaction's
//! system half is exactly the closure's system-origin references, and on
//! success the artifacts' paths are handed back for cleanup.

use crate::builder::BuildArtifact;
use crate::identity::Identity;
use crate::resolver::DependencyClosure;
use crate::resolver::Origin;
use crate::resolver::PackageRef;
use vstd::prelude::*;

verus! {

/// What the external system package manager reported for a transaction.
pub enum ManagerOutcome {
    /// The transaction was applied.
    Accepted,
    /// The transaction was refused — a conflict, or a missing transitive
    /// dependency outside the resolved closure — with this diagnostic.
    Rejected { detail: String },
}

/// A failed install transaction.
#[derive(Debug)]
pub enum InstallError {
    /// The package manager refused the transaction; the diagnostic is
    /// passed through verbatim.
    TransactionRejected(String),
}

/// The names of the system-origin packages of a closure, in closure order.
pub open spec fn system_names_spec(refs: Seq<PackageRef>) -> Seq<Seq<char>>
    decreases refs.len(),
{
    if refs.len() == 0 {
        Seq::empty()
    } else {
        let rest = system_names_spec(refs.drop_last());
        if refs.last().origin is System {
            rest.push(refs.last().name@)
        } else {
            rest
        }
    }
}

/// The system half of the transaction: the closure's system-origin
/// references, in order.
pub fn system_refs(closure: &DependencyClosure) -> (r: Vec<PackageRef>)
    ensures
        r@.len() == system_names_spec(closure.refs@).len(),
        forall|k: int|
            0 <= k < r@.len() ==> (#[trigger] r@[k]).name@ == system_names_spec(closure.refs@)[k]
                && r@[k].origin is System,
{
    let n = closure.refs.len();
    let mut r: Vec<PackageRef> = Vec::new();
    let mut i: usize = 0;
    while i < n
        invariant
            0 <= i <= n,
            n == closure.refs@.len(),
            r@.len() == system_names_spec(closure.refs@.subrange(0, i as int)).len(),
            forall|k: int|
                0 <= k < r@.len() ==> (#[trigger] r@[k]).name@ == system_names_spec(
                    closure.refs@.subrange(0, i as int),
                )[k] && r@[k].origin is System,
        decreases n - i,
    {
        let is_system = match closure.refs[i].origin {
            Origin::System => true,
            _ => false,
        };
        if is_system {
            r.push(PackageRef { name: closure.refs[i].name.clone(), origin: Origin::System });
        }
        proof {
            let sub1 = closure.refs@.subrange(0, i + 1);
            assert(sub1.drop_last() =~= closure.refs@.subrange(0, i as int));
            assert(sub1.last() == closure.refs@[i as int]);
        }
        i += 1;
    }
    proof {
        assert(closure.refs@.subrange(0, n as int) =~= closure.refs@);
    }
    r
}

/// Commits the transaction: the system references plus the built
/// artifacts, as one unit, while privilege is restored.  The artifacts are
/// consumed; on acceptance their paths are returned so the embedder can
/// remove the temporary files, and on rejection the package manager's
/// diagnostic is surfaced verbatim.  No compensating action is attempted
/// beyond what the package manager itself guarantees transactionally.
pub fn commit(
    identity: &Identity,
    system_refs: &Vec<PackageRef>,
    artifacts: Vec<BuildArtifact>,
    outcome: ManagerOutcome,
) -> (r: Result<Vec<String>, InstallError>)
    requires
        identity.is_elevated_spec(),
        forall|k: int| 0 <= k < system_refs@.len() ==> (#[trigger] system_refs@[k]).origin is System,
    ensures
        match r {
            Ok(paths) => outcome is Accepted && paths@.len() == artifacts@.len() && forall|k: int|
                0 <= k < paths@.len() ==> (#[trigger] paths@[k])@ == artifacts@[k].artifact_path@,
            Err(e) => ({
                &&& e matches InstallError::TransactionRejected(d)
                &&& outcome matches ManagerOutcome::Rejected { detail }
                &&& d@ == detail@
            }),
        },
{
    match outcome {
        ManagerOutcome::Accepted => {
            let n = artifacts.len();
            let mut paths: Vec<String> = Vec::new();
            let mut i: usize = 0;
            while i < n
                invariant
                    0 <= i <= n,
                    n == artifacts@.len(),
                    paths@.len() == i,
                    forall|k: int|
                        0 <= k < i ==> (#[trigger] paths@[k])@ == artifacts@[k].artifact_path@,
                decreases n - i,
            {
                paths.push(artifacts[i].artifact_path.clone());
                i += 1;
            }
            Ok(paths)
        },
        ManagerOutcome::Rejected { detail } => Err(InstallError::TransactionRejected(detail)),
    }
}

} // verus!
