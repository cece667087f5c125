//! Identity gate: refuses to run unless the executable is owned by the
//! superuser and carries the set-user-ID permission bit.
//!
//! The whole privilege model of the installer rests on this check running
//! before anything else: only a root-owned setuid executable can later
//! restore privilege for the install transaction after dropping it for the
//! untrusted build step.

use vstd::prelude::*;

verus! {

/// The mask of the set-user-ID bit inside a file's mode bits.
pub const SETUID_BIT: u32 = 0o4000;

/// What the embedder read from the executable's metadata: the owning user
/// id and the permission/mode bits.
#[derive(Clone, Copy, Debug, PartialEq, Eq, Structural)]
pub struct ExecutableMeta {
    pub owner_uid: u32,
    pub mode: u32,
}

/// Why the entrypoint was refused.  Either failure is fatal: there is no
/// recovery path once the trust anchor is missing.
#[derive(Clone, Copy, Debug, PartialEq, Eq, Structural)]
pub enum FatalError {
    /// The executable is not owned by the superuser (user id 0).
    UntrustedOwner,
    /// The executable's mode lacks the set-user-ID bit.
    MissingPrivilegeBit,
}

/// Whether the set-user-ID bit is present in `mode`.
pub open spec fn has_setuid_bit(mode: u32) -> bool {
    mode & SETUID_BIT != 0
}

/// Whether an executable with these attributes is an acceptable trusted
/// entrypoint: owned by the superuser and marked set-user-ID.
pub open spec fn trusted_entrypoint(meta: ExecutableMeta) -> bool {
    meta.owner_uid == 0 && has_setuid_bit(meta.mode)
}

/// Validates the running executable's ownership and mode.  Succeeds exactly
/// when the file is owned by user id 0 and has the set-user-ID bit; the two
/// failure modes are distinguished, ownership being checked first.  The
/// check only validates: it does not itself change process identity.
pub fn verify_trusted_entrypoint(meta: &ExecutableMeta) -> (r: Result<(), FatalError>)
    ensures
        r is Ok <==> trusted_entrypoint(*meta),
        r == Err::<(), FatalError>(FatalError::UntrustedOwner) <==> meta.owner_uid != 0,
        r == Err::<(), FatalError>(FatalError::MissingPrivilegeBit) <==> (meta.owner_uid == 0
            && !has_setuid_bit(meta.mode)),
{
    if meta.owner_uid != 0 {
        Err(FatalError::UntrustedOwner)
    } else if meta.mode & SETUID_BIT == 0 {
        Err(FatalError::MissingPrivilegeBit)
    } else {
        Ok(())
    }
}

} // verus!
