//! Privilege controller: the process-wide identity value and the
//! drop/restore state machine around the untrusted build step.
//!
//! The controller mirrors the process credentials as a plain value.  The
//! actual set-effective-user syscall is performed by the embedder (changing
//! process credentials is outside the verified core); the embedder reports
//! each syscall's outcome here, and the controller refuses to treat a failed
//! change as a success — a failed drop that is believed to have succeeded
//! would run untrusted build code with the wrong privilege.

use vstd::prelude::*;

verus! {

/// A snapshot of the process identity: the real (invoking) user id and the
/// current effective user id.  The process is elevated exactly when the
/// effective user id is the superuser's (0).
#[derive(Clone, Copy, Debug, PartialEq, Eq, Structural)]
pub struct Identity {
    pub real_user_id: u32,
    pub effective_user_id: u32,
}

impl Identity {
    /// Elevated means the effective identity is the superuser.
    pub open spec fn is_elevated_spec(self) -> bool {
        self.effective_user_id == 0
    }

    /// Runtime check of [`Identity::is_elevated_spec`].
    pub fn is_elevated(&self) -> (b: bool)
        ensures
            b == self.is_elevated_spec(),
    {
        self.effective_user_id == 0
    }
}

/// The identity after a successful drop: effective identity becomes the
/// real (invoking) user's.
pub open spec fn dropped_identity(id: Identity) -> Identity {
    Identity { real_user_id: id.real_user_id, effective_user_id: id.real_user_id }
}

/// The identity after a successful restore: effective identity becomes the
/// superuser's.
pub open spec fn restored_identity(id: Identity) -> Identity {
    Identity { real_user_id: id.real_user_id, effective_user_id: 0 }
}

/// What the embedder's set-effective-user syscall reported.
#[derive(Clone, Copy, Debug, PartialEq, Eq, Structural)]
pub enum SetuidOutcome {
    Succeeded,
    Failed,
}

/// A privilege-change failure.  Always fatal for the caller: a drop or
/// restore is never retried and never silently ignored.
#[derive(Clone, Copy, Debug, PartialEq, Eq, Structural)]
pub enum PrivilegeError {
    DropFailed,
    RestoreFailed,
}

/// The subcommands of the front end, as far as the privilege rules care
/// about them.
#[derive(Clone, Copy, Debug, PartialEq, Eq, Structural)]
pub enum CommandKind {
    ClonePackage,
    Comment,
    Install,
    List,
    ListComments,
    Remove,
    Search,
    Update,
    Upgrade,
    Whoami,
}

/// Commands that run an untrusted build step and therefore need a genuine
/// non-superuser real identity to drop to.
pub open spec fn requires_build_separation(kind: CommandKind) -> bool {
    kind is Install || kind is Upgrade
}

/// Commands that mutate the system package state and therefore need
/// elevated effective identity.
pub open spec fn mutates_system_state(kind: CommandKind) -> bool {
    kind is Install || kind is Upgrade || kind is Remove || kind is Update
}

/// Runtime check of [`mutates_system_state`]: whether a command needs the
/// restored superuser identity before it may run.
pub fn command_requires_privilege(kind: CommandKind) -> (b: bool)
    ensures
        b == mutates_system_state(kind),
{
    match kind {
        CommandKind::Install | CommandKind::Upgrade | CommandKind::Remove
            | CommandKind::Update => true,
        _ => false,
    }
}

/// Refusal of a command at the privilege gate.
#[derive(Clone, Copy, Debug, PartialEq, Eq, Structural)]
pub enum UsageError {
    /// The whole process was invoked with a superuser real identity, so
    /// there is no unprivileged identity to run the build under.
    CannotRunAsRoot,
}

/// The single writer of the process identity value.
pub struct PrivilegeController {
    identity: Identity,
}

impl PrivilegeController {
    /// The identity the controller currently records.
    pub closed spec fn identity_spec(self) -> Identity {
        self.identity
    }

    /// Starts tracking the given process identity (as read at process
    /// start, after the entrypoint gate has passed).
    pub fn new(real_user_id: u32, effective_user_id: u32) -> (c: Self)
        ensures
            c.identity_spec() == (Identity { real_user_id, effective_user_id }),
    {
        PrivilegeController { identity: Identity { real_user_id, effective_user_id } }
    }

    /// Read-only snapshot of the current identity.
    pub fn current(&self) -> (id: Identity)
        ensures
            id == self.identity_spec(),
    {
        self.identity
    }

    /// Records the outcome of dropping the effective identity to the real
    /// user.  On a reported success the tracked effective identity becomes
    /// the real user id; on a reported failure nothing changes and the
    /// caller gets `DropFailed` — never a silent no-op.
    pub fn drop_to_real_user(&mut self, outcome: SetuidOutcome) -> (r: Result<(), PrivilegeError>)
        ensures
            r is Ok <==> outcome is Succeeded,
            outcome is Succeeded ==> final(self).identity_spec() == dropped_identity(
                old(self).identity_spec(),
            ),
            outcome is Failed ==> final(self).identity_spec() == old(self).identity_spec()
                && r == Err::<(), PrivilegeError>(PrivilegeError::DropFailed),
    {
        match outcome {
            SetuidOutcome::Succeeded => {
                self.identity = Identity {
                    real_user_id: self.identity.real_user_id,
                    effective_user_id: self.identity.real_user_id,
                };
                Ok(())
            },
            SetuidOutcome::Failed => Err(PrivilegeError::DropFailed),
        }
    }

    /// Records the outcome of restoring the effective identity to the
    /// superuser.  On a reported success the tracked effective identity
    /// becomes 0; on a reported failure nothing changes and the caller gets
    /// `RestoreFailed`.
    pub fn restore_privilege(&mut self, outcome: SetuidOutcome) -> (r: Result<(), PrivilegeError>)
        ensures
            r is Ok <==> outcome is Succeeded,
            outcome is Succeeded ==> final(self).identity_spec() == restored_identity(
                old(self).identity_spec(),
            ),
            outcome is Failed ==> final(self).identity_spec() == old(self).identity_spec()
                && r == Err::<(), PrivilegeError>(PrivilegeError::RestoreFailed),
    {
        match outcome {
            SetuidOutcome::Succeeded => {
                self.identity = Identity {
                    real_user_id: self.identity.real_user_id,
                    effective_user_id: 0,
                };
                Ok(())
            },
            SetuidOutcome::Failed => Err(PrivilegeError::RestoreFailed),
        }
    }

    /// Rejects build-separating commands (install, upgrade) when the real
    /// user is already the superuser: the build step needs a genuinely
    /// unprivileged identity to drop to, and an externally elevated
    /// invocation removes that separation.  Other commands pass.
    pub fn reject_if_externally_elevated(&self, kind: CommandKind) -> (r: Result<(), UsageError>)
        ensures
            r is Err <==> (requires_build_separation(kind) && self.identity_spec().real_user_id
                == 0),
            r is Err ==> r == Err::<(), UsageError>(UsageError::CannotRunAsRoot),
    {
        match kind {
            CommandKind::Install | CommandKind::Upgrade => {
                if self.identity.real_user_id == 0 {
                    Err(UsageError::CannotRunAsRoot)
                } else {
                    Ok(())
                }
            },
            _ => Ok(()),
        }
    }
}

/// Whether the invoking (real) user is the superuser, whatever the current
/// effective identity.  Build-separating commands refuse to run in this
/// situation.
pub fn is_running_as_sudo(identity: &Identity) -> (b: bool)
    ensures
        b == (identity.real_user_id == 0),
{
    identity.real_user_id == 0
}

/// A completed drop followed by a completed restore brings the identity
/// back to elevated, with effective user id 0 and the real user id
/// untouched — the round trip the install pipeline performs around the
/// untrusted build step.
pub proof fn lemma_drop_then_restore_elevates(id: Identity)
    ensures
        restored_identity(dropped_identity(id)).is_elevated_spec(),
        restored_identity(dropped_identity(id)).effective_user_id == 0,
        restored_identity(dropped_identity(id)).real_user_id == id.real_user_id,
{
}

} // verus!
