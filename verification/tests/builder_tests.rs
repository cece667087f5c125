use mist::builder::{build_all, remote_names, BuildError, BuildOutcome};
use mist::identity::Identity;
use mist::resolver::{DependencyClosure, Origin, PackageRef};

fn pkg(name: &str, origin: Origin) -> PackageRef {
    PackageRef { name: name.to_string(), origin }
}

fn dropped() -> Identity {
    Identity { real_user_id: 1000, effective_user_id: 1000 }
}

#[test]
fn remote_names_keep_order_and_skip_system() {
    let closure = DependencyClosure {
        refs: vec![
            pkg("libfoo", Origin::System),
            pkg("b", Origin::Remote),
            pkg("a", Origin::Remote),
        ],
    };
    assert_eq!(remote_names(&closure), vec!["b".to_string(), "a".to_string()]);
}

#[test]
fn all_successful_builds_yield_artifacts() {
    let closure = DependencyClosure {
        refs: vec![pkg("b", Origin::Remote), pkg("a", Origin::Remote)],
    };
    let outcomes = vec![
        BuildOutcome::Produced { artifact_path: "/tmp/b.deb".to_string() },
        BuildOutcome::Produced { artifact_path: "/tmp/a.deb".to_string() },
    ];
    let arts = build_all(&closure, &dropped(), &outcomes).unwrap();
    assert_eq!(arts.len(), 2);
    assert_eq!(arts[0].source_package_name, "b");
    assert_eq!(arts[0].artifact_path, "/tmp/b.deb");
    assert_eq!(arts[0].built_by_uid, 1000);
    assert_eq!(arts[1].source_package_name, "a");
    assert_eq!(arts[1].artifact_path, "/tmp/a.deb");
    assert_eq!(arts[1].built_by_uid, 1000);
}

#[test]
fn second_failure_aborts_and_discards_artifacts() {
    let closure = DependencyClosure {
        refs: vec![pkg("first", Origin::Remote), pkg("second", Origin::Remote)],
    };
    let outcomes = vec![
        BuildOutcome::Produced { artifact_path: "/tmp/first.deb".to_string() },
        BuildOutcome::Failed { cause: "compiler exited with status 2".to_string() },
    ];
    let r = build_all(&closure, &dropped(), &outcomes);
    match r {
        Err(BuildError::Failed(name, cause)) => {
            assert_eq!(name, "second");
            assert_eq!(cause, "compiler exited with status 2");
        },
        Ok(_) => panic!("expected the run to fail"),
    }
    // The failed run handed no artifact set onward: the earlier artifact
    // was discarded with the run.
}

#[test]
fn first_failure_stops_before_later_packages() {
    let closure = DependencyClosure {
        refs: vec![pkg("first", Origin::Remote), pkg("second", Origin::Remote)],
    };
    let outcomes = vec![
        BuildOutcome::Failed { cause: "missing source".to_string() },
        BuildOutcome::Produced { artifact_path: "/tmp/second.deb".to_string() },
    ];
    match build_all(&closure, &dropped(), &outcomes) {
        Err(BuildError::Failed(name, cause)) => {
            assert_eq!(name, "first");
            assert_eq!(cause, "missing source");
        },
        Ok(_) => panic!("expected the run to fail"),
    }
}

#[test]
fn closure_without_remote_packages_builds_nothing() {
    let closure = DependencyClosure { refs: vec![pkg("libfoo", Origin::System)] };
    let outcomes: Vec<BuildOutcome> = vec![];
    let arts = build_all(&closure, &dropped(), &outcomes).unwrap();
    assert_eq!(arts.len(), 0);
}
