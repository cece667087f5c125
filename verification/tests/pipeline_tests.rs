//! One full install pipeline over in-memory indexes and scripted external
//! outcomes: gate, privilege checks, resolution, dropped-identity build,
//! restored-identity commit.

use mist::builder::{build_all, BuildOutcome};
use mist::gate::{verify_trusted_entrypoint, ExecutableMeta};
use mist::identity::{CommandKind, PrivilegeController, SetuidOutcome};
use mist::install::{commit, system_refs, ManagerOutcome};
use mist::resolver::{resolve, Origin, PackageIndex, PackageMeta};

#[test]
fn full_install_pipeline() {
    // The executable gate.
    let meta = ExecutableMeta { owner_uid: 0, mode: 0o104755 };
    assert!(verify_trusted_entrypoint(&meta).is_ok());

    // A setuid binary invoked by user 1000: effective 0, real 1000.
    let mut controller = PrivilegeController::new(1000, 0);
    assert!(controller.reject_if_externally_elevated(CommandKind::Install).is_ok());

    // Resolution across both universes.
    let sys = PackageIndex {
        entries: vec![PackageMeta { name: "libfoo".to_string(), deps: vec![] }],
    };
    let rem = PackageIndex {
        entries: vec![
            PackageMeta { name: "app".to_string(), deps: vec!["libfoo".to_string(), "helper".to_string()] },
            PackageMeta { name: "helper".to_string(), deps: vec![] },
        ],
    };
    let closure = resolve(&vec!["app".to_string()], &sys, &rem).unwrap();
    let order: Vec<&str> = closure.refs.iter().map(|r| r.name.as_str()).collect();
    assert_eq!(order, vec!["libfoo", "helper", "app"]);

    // Builds run only under the dropped identity.
    assert!(controller.drop_to_real_user(SetuidOutcome::Succeeded).is_ok());
    let identity = controller.current();
    assert!(!identity.is_elevated());
    let outcomes = vec![
        BuildOutcome::Produced { artifact_path: "/tmp/helper.deb".to_string() },
        BuildOutcome::Produced { artifact_path: "/tmp/app.deb".to_string() },
    ];
    let artifacts = build_all(&closure, &identity, &outcomes).unwrap();
    assert_eq!(artifacts.len(), 2);
    assert!(artifacts.iter().all(|a| a.built_by_uid == 1000));

    // The commit runs only after privilege is restored.
    assert!(controller.restore_privilege(SetuidOutcome::Succeeded).is_ok());
    let identity = controller.current();
    assert!(identity.is_elevated());
    let sys_half = system_refs(&closure);
    assert_eq!(sys_half.len(), 1);
    assert_eq!(sys_half[0].name, "libfoo");
    assert_eq!(sys_half[0].origin, Origin::System);
    let paths = commit(&identity, &sys_half, artifacts, ManagerOutcome::Accepted).unwrap();
    assert_eq!(paths, vec!["/tmp/helper.deb".to_string(), "/tmp/app.deb".to_string()]);
}
