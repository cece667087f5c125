use mist::identity::{
    command_requires_privilege, is_running_as_sudo, CommandKind, Identity, PrivilegeController,
    PrivilegeError, SetuidOutcome, UsageError,
};

#[test]
fn drop_then_restore_round_trip() {
    let mut controller = PrivilegeController::new(1000, 0);
    assert!(controller.current().is_elevated());

    assert!(controller.drop_to_real_user(SetuidOutcome::Succeeded).is_ok());
    let dropped = controller.current();
    assert!(!dropped.is_elevated());
    assert_eq!(dropped.effective_user_id, 1000);
    assert_eq!(dropped.real_user_id, 1000);

    assert!(controller.restore_privilege(SetuidOutcome::Succeeded).is_ok());
    let restored = controller.current();
    assert!(restored.is_elevated());
    assert_eq!(restored.effective_user_id, 0);
    assert_eq!(restored.real_user_id, 1000);
}

#[test]
fn failed_drop_is_fatal_not_silent() {
    let mut controller = PrivilegeController::new(1000, 0);
    let r = controller.drop_to_real_user(SetuidOutcome::Failed);
    assert_eq!(r, Err(PrivilegeError::DropFailed));
    assert!(controller.current().is_elevated());
}

#[test]
fn failed_restore_is_fatal_not_silent() {
    let mut controller = PrivilegeController::new(1000, 0);
    assert!(controller.drop_to_real_user(SetuidOutcome::Succeeded).is_ok());
    let r = controller.restore_privilege(SetuidOutcome::Failed);
    assert_eq!(r, Err(PrivilegeError::RestoreFailed));
    assert_eq!(controller.current().effective_user_id, 1000);
}

#[test]
fn install_invoked_as_root_is_rejected() {
    let controller = PrivilegeController::new(0, 0);
    assert_eq!(
        controller.reject_if_externally_elevated(CommandKind::Install),
        Err(UsageError::CannotRunAsRoot)
    );
    assert_eq!(
        controller.reject_if_externally_elevated(CommandKind::Upgrade),
        Err(UsageError::CannotRunAsRoot)
    );
}

#[test]
fn install_with_real_user_passes() {
    let controller = PrivilegeController::new(1000, 0);
    assert!(controller.reject_if_externally_elevated(CommandKind::Install).is_ok());
    assert!(controller.reject_if_externally_elevated(CommandKind::Upgrade).is_ok());
}

#[test]
fn non_build_commands_pass_even_as_root() {
    let controller = PrivilegeController::new(0, 0);
    assert!(controller.reject_if_externally_elevated(CommandKind::Remove).is_ok());
    assert!(controller.reject_if_externally_elevated(CommandKind::Update).is_ok());
    assert!(controller.reject_if_externally_elevated(CommandKind::Search).is_ok());
    assert!(controller.reject_if_externally_elevated(CommandKind::Whoami).is_ok());
}

#[test]
fn only_mutating_commands_require_privilege() {
    assert!(command_requires_privilege(CommandKind::Install));
    assert!(command_requires_privilege(CommandKind::Upgrade));
    assert!(command_requires_privilege(CommandKind::Remove));
    assert!(command_requires_privilege(CommandKind::Update));
    assert!(!command_requires_privilege(CommandKind::Search));
    assert!(!command_requires_privilege(CommandKind::List));
    assert!(!command_requires_privilege(CommandKind::ListComments));
    assert!(!command_requires_privilege(CommandKind::ClonePackage));
    assert!(!command_requires_privilege(CommandKind::Comment));
    assert!(!command_requires_privilege(CommandKind::Whoami));
}

#[test]
fn is_running_as_sudo_looks_at_real_user() {
    assert!(is_running_as_sudo(&Identity { real_user_id: 0, effective_user_id: 0 }));
    assert!(!is_running_as_sudo(&Identity { real_user_id: 1000, effective_user_id: 0 }));
    assert!(is_running_as_sudo(&Identity { real_user_id: 0, effective_user_id: 1000 }));
}
