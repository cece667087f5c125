//! Build orchestrator: turns the remote-origin packages of a resolved
//! closure into installable artifacts, in closure order, under the dropped
//! (unprivileged) identity.
//!
//! The external build tool runs outside this core; the embedder reports
//! one outcome per attempted package, in order.  The orchestration rule is
//! proved here: every remote package up to the first failure is built, a
//! failure aborts the run and discards all artifacts of the run, and only
//! a fully successful run hands an artifact set onward.

use crate::identity::Identity;
use crate::resolver::DependencyClosure;
use crate::resolver::Origin;
use crate::resolver::PackageRef;
use vstd::prelude::*;

verus! {

/// An installable artifact produced by building one remote package.
pub struct BuildArtifact {
    pub source_package_name: String,
    pub artifact_path: String,
    pub built_by_uid: u32,
}

/// What the external build tool reported for one package.
pub enum BuildOutcome {
    /// The build produced an installable artifact at this path.
    Produced { artifact_path: String },
    /// The build failed with this diagnostic.
    Failed { cause: String },
}

/// A failed build run: the package whose build failed, and the diagnostic
/// the build tool gave.
#[derive(Debug)]
pub enum BuildError {
    Failed(String, String),
}

/// The names of the remote-origin packages of a closure, in closure
/// (build) order.
pub open spec fn remote_names_spec(refs: Seq<PackageRef>) -> Seq<Seq<char>>
    decreases refs.len(),
{
    if refs.len() == 0 {
        Seq::empty()
    } else {
        let rest = remote_names_spec(refs.drop_last());
        if refs.last().origin is Remote {
            rest.push(refs.last().name@)
        } else {
            rest
        }
    }
}

/// The build targets of a closure: its remote-origin package names, in
/// build order.
pub fn remote_names(closure: &DependencyClosure) -> (r: Vec<String>)
    ensures
        r.deep_view() == remote_names_spec(closure.refs@),
{
    let n = closure.refs.len();
    let mut r: Vec<String> = Vec::new();
    let mut i: usize = 0;
    while i < n
        invariant
            0 <= i <= n,
            n == closure.refs@.len(),
            r.deep_view() == remote_names_spec(closure.refs@.subrange(0, i as int)),
        decreases n - i,
    {
        let ghost old_dv = r.deep_view();
        proof {
            assert forall|t: int| 0 <= t < r@.len() implies (#[trigger] r@[t])@ == old_dv[t] by {
                assert(r.deep_view()[t] == old_dv[t]);
            }
        }
        let is_remote = match closure.refs[i].origin {
            Origin::Remote => true,
            _ => false,
        };
        if is_remote {
            r.push(closure.refs[i].name.clone());
            proof {
                assert(r.deep_view() =~= old_dv.push(closure.refs@[i as int].name@));
            }
        }
        proof {
            let sub1 = closure.refs@.subrange(0, i + 1);
            assert(sub1.drop_last() =~= closure.refs@.subrange(0, i as int));
            assert(sub1.last() == closure.refs@[i as int]);
            assert(r.deep_view() == remote_names_spec(sub1));
        }
        i += 1;
    }
    proof {
        assert(closure.refs@.subrange(0, n as int) =~= closure.refs@);
    }
    r
}

/// The build tool reported a failure for the target at position `k`, every
/// earlier target having built, and `(n, c)` name that target and the
/// diagnostic.
pub open spec fn failure_reported(
    targets: Seq<Seq<char>>,
    outcomes: Seq<BuildOutcome>,
    n: Seq<char>,
    c: Seq<char>,
) -> bool {
    exists|k: int|
        #![trigger targets[k]]
        {
            &&& 0 <= k < targets.len()
            &&& outcomes[k] matches BuildOutcome::Failed { cause }
            &&& n == targets[k]
            &&& c == cause@
            &&& forall|j: int| 0 <= j < k ==> (#[trigger] outcomes[j]) is Produced
        }
}

/// Builds every remote-origin package of the closure, in order, under the
/// dropped identity; `outcomes[k]` is what the external build tool
/// reported for the `k`-th target.  Succeeds with one artifact per target
/// exactly when every target built; the first failure aborts the run with
/// that package's name and cause, and no artifact set is handed onward.
pub fn build_all(
    closure: &DependencyClosure,
    identity: &Identity,
    outcomes: &Vec<BuildOutcome>,
) -> (r: Result<Vec<BuildArtifact>, BuildError>)
    requires
        !identity.is_elevated_spec(),
        outcomes@.len() >= remote_names_spec(closure.refs@).len(),
    ensures
        ({
            let targets = remote_names_spec(closure.refs@);
            match r {
                Ok(arts) => {
                    &&& arts@.len() == targets.len()
                    &&& forall|k: int| 0 <= k < targets.len() ==> (#[trigger] outcomes@[k]) is Produced
                    &&& forall|k: int|
                        0 <= k < targets.len() ==> (#[trigger] arts@[k]).source_package_name@
                            == targets[k] && arts@[k].artifact_path@
                            == outcomes@[k]->artifact_path@ && arts@[k].built_by_uid
                            == identity.effective_user_id
                },
                Err(e) => e matches BuildError::Failed(n, c) && failure_reported(
                    targets,
                    outcomes@,
                    n@,
                    c@,
                ),
            }
        }),
{
    let targets_vec = remote_names(closure);
    let ghost targets = remote_names_spec(closure.refs@);
    let n = targets_vec.len();
    proof {
        assert(n == targets.len());
    }
    let mut arts: Vec<BuildArtifact> = Vec::new();
    let mut i: usize = 0;
    while i < n
        invariant
            0 <= i <= n,
            n == targets.len(),
            targets == remote_names_spec(closure.refs@),
            targets_vec.deep_view() == targets,
            n == targets_vec@.len(),
            outcomes@.len() >= targets.len(),
            arts@.len() == i,
            forall|k: int| 0 <= k < i ==> (#[trigger] outcomes@[k]) is Produced,
            forall|k: int|
                0 <= k < i ==> (#[trigger] arts@[k]).source_package_name@ == targets[k]
                    && arts@[k].artifact_path@ == outcomes@[k]->artifact_path@
                    && arts@[k].built_by_uid == identity.effective_user_id,
        decreases n - i,
    {
        proof {
            assert(targets_vec.deep_view()[i as int] == targets[i as int]);
        }
        match &outcomes[i] {
            BuildOutcome::Produced { artifact_path } => {
                arts.push(
                    BuildArtifact {
                        source_package_name: targets_vec[i].clone(),
                        artifact_path: artifact_path.clone(),
                        built_by_uid: identity.effective_user_id,
                    },
                );
            },
            BuildOutcome::Failed { cause } => {
                let name_s = targets_vec[i].clone();
                let cause_s = cause.clone();
                proof {
                    assert(name_s@ == targets[i as int]);
                    assert(outcomes@[i as int] matches BuildOutcome::Failed { cause: c0 }
                        && c0@ == cause_s@);
                    assert(remote_names_spec(closure.refs@)[i as int] == targets[i as int]);
                    assert(failure_reported(
                        remote_names_spec(closure.refs@),
                        outcomes@,
                        name_s@,
                        cause_s@,
                    ));
                }
                return Err(BuildError::Failed(name_s, cause_s));
            },
        }
        i += 1;
    }
    Ok(arts)
}

} // verus!
