use mist::gate::{verify_trusted_entrypoint, ExecutableMeta, FatalError, SETUID_BIT};

#[test]
fn setuid_root_executable_passes() {
    let meta = ExecutableMeta { owner_uid: 0, mode: 0o104755 };
    assert!(verify_trusted_entrypoint(&meta).is_ok());
}

#[test]
fn non_root_owner_refused() {
    let meta = ExecutableMeta { owner_uid: 1000, mode: 0o104755 };
    assert_eq!(verify_trusted_entrypoint(&meta), Err(FatalError::UntrustedOwner));
}

#[test]
fn missing_setuid_bit_refused() {
    let meta = ExecutableMeta { owner_uid: 0, mode: 0o100755 };
    assert_eq!(verify_trusted_entrypoint(&meta), Err(FatalError::MissingPrivilegeBit));
}

#[test]
fn ownership_checked_before_mode() {
    let meta = ExecutableMeta { owner_uid: 7, mode: 0o100644 };
    assert_eq!(verify_trusted_entrypoint(&meta), Err(FatalError::UntrustedOwner));
}

#[test]
fn setuid_bit_alone_decides_mode_check() {
    let meta = ExecutableMeta { owner_uid: 0, mode: SETUID_BIT };
    assert!(verify_trusted_entrypoint(&meta).is_ok());
    let meta = ExecutableMeta { owner_uid: 0, mode: 0o102755 };
    assert_eq!(verify_trusted_entrypoint(&meta), Err(FatalError::MissingPrivilegeBit));
}
