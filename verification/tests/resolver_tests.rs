use mist::resolver::{resolve, Origin, PackageIndex, PackageMeta, ResolveError};

fn meta(name: &str, deps: &[&str]) -> PackageMeta {
    PackageMeta {
        name: name.to_string(),
        deps: deps.iter().map(|d| d.to_string()).collect(),
    }
}

fn index(entries: Vec<PackageMeta>) -> PackageIndex {
    PackageIndex { entries }
}

fn names(v: &[&str]) -> Vec<String> {
    v.iter().map(|s| s.to_string()).collect()
}

#[test]
fn system_only_package_resolves_as_system() {
    let sys = index(vec![meta("a", &[])]);
    let rem = index(vec![]);
    let c = resolve(&names(&["a"]), &sys, &rem).unwrap();
    assert_eq!(c.refs.len(), 1);
    assert_eq!(c.refs[0].name, "a");
    assert_eq!(c.refs[0].origin, Origin::System);
}

#[test]
fn remote_only_package_resolves_as_remote() {
    let sys = index(vec![]);
    let rem = index(vec![meta("a", &[])]);
    let c = resolve(&names(&["a"]), &sys, &rem).unwrap();
    assert_eq!(c.refs.len(), 1);
    assert_eq!(c.refs[0].name, "a");
    assert_eq!(c.refs[0].origin, Origin::Remote);
}

#[test]
fn package_in_both_universes_prefers_system() {
    let sys = index(vec![meta("a", &[])]);
    let rem = index(vec![meta("a", &["b"])]);
    let c = resolve(&names(&["a"]), &sys, &rem).unwrap();
    assert_eq!(c.refs.len(), 1);
    assert_eq!(c.refs[0].name, "a");
    assert_eq!(c.refs[0].origin, Origin::System);
}

#[test]
fn remote_cycle_is_detected() {
    let sys = index(vec![]);
    let rem = index(vec![meta("a", &["b"]), meta("b", &["a"])]);
    match resolve(&names(&["a"]), &sys, &rem) {
        Err(ResolveError::Cycle(path)) => {
            assert_eq!(path, vec!["a".to_string(), "b".to_string()]);
        },
        _ => panic!("expected a cycle error"),
    }
}

#[test]
fn self_dependency_is_a_cycle() {
    let sys = index(vec![]);
    let rem = index(vec![meta("a", &["a"])]);
    match resolve(&names(&["a"]), &sys, &rem) {
        Err(ResolveError::Cycle(path)) => {
            assert_eq!(path, vec!["a".to_string()]);
        },
        _ => panic!("expected a cycle error"),
    }
}

#[test]
fn absent_dependency_is_unresolvable() {
    let sys = index(vec![]);
    let rem = index(vec![meta("a", &["b"])]);
    match resolve(&names(&["a"]), &sys, &rem) {
        Err(ResolveError::Unresolvable(n)) => assert_eq!(n, "b"),
        _ => panic!("expected an unresolvable error"),
    }
}

#[test]
fn absent_request_is_unresolvable() {
    let sys = index(vec![meta("a", &[])]);
    let rem = index(vec![meta("b", &[])]);
    match resolve(&names(&["z"]), &sys, &rem) {
        Err(ResolveError::Unresolvable(n)) => assert_eq!(n, "z"),
        _ => panic!("expected an unresolvable error"),
    }
}

#[test]
fn remote_dependencies_come_before_dependents() {
    let sys = index(vec![]);
    let rem = index(vec![meta("a", &["b", "c"]), meta("b", &["c"]), meta("c", &[])]);
    let c = resolve(&names(&["a"]), &sys, &rem).unwrap();
    let order: Vec<&str> = c.refs.iter().map(|r| r.name.as_str()).collect();
    assert_eq!(order, vec!["c", "b", "a"]);
    assert!(c.refs.iter().all(|r| r.origin == Origin::Remote));
}

#[test]
fn mixed_universe_dependencies() {
    let sys = index(vec![meta("libfoo", &[])]);
    let rem = index(vec![meta("a", &["libfoo", "b"]), meta("b", &[])]);
    let c = resolve(&names(&["a"]), &sys, &rem).unwrap();
    let got: Vec<(&str, Origin)> = c.refs.iter().map(|r| (r.name.as_str(), r.origin)).collect();
    assert_eq!(
        got,
        vec![("libfoo", Origin::System), ("b", Origin::Remote), ("a", Origin::Remote)]
    );
}

#[test]
fn duplicate_requests_enter_once() {
    let sys = index(vec![meta("a", &[])]);
    let rem = index(vec![]);
    let c = resolve(&names(&["a", "a"]), &sys, &rem).unwrap();
    assert_eq!(c.refs.len(), 1);
}

#[test]
fn shared_dependency_enters_once() {
    let sys = index(vec![]);
    let rem = index(vec![meta("a", &["c"]), meta("b", &["c"]), meta("c", &[])]);
    let c = resolve(&names(&["a", "b"]), &sys, &rem).unwrap();
    let order: Vec<&str> = c.refs.iter().map(|r| r.name.as_str()).collect();
    assert_eq!(order, vec!["c", "a", "b"]);
}

#[test]
fn empty_request_yields_empty_closure() {
    let sys = index(vec![]);
    let rem = index(vec![]);
    let c = resolve(&names(&[]), &sys, &rem).unwrap();
    assert_eq!(c.refs.len(), 0);
}

#[test]
fn failure_aborts_whole_resolution() {
    // The first request resolves, the second does not: no closure at all.
    let sys = index(vec![meta("a", &[])]);
    let rem = index(vec![]);
    match resolve(&names(&["a", "missing"]), &sys, &rem) {
        Err(ResolveError::Unresolvable(n)) => assert_eq!(n, "missing"),
        _ => panic!("expected an unresolvable error"),
    }
}

#[test]
fn index_lookup_helpers() {
    let sys = index(vec![meta("a", &["x", "y"])]);
    assert!(sys.contains_name(&"a".to_string()));
    assert!(!sys.contains_name(&"b".to_string()));
    let ds = sys.deps_of(&"a".to_string()).unwrap();
    assert_eq!(ds, vec!["x".to_string(), "y".to_string()]);
    assert!(sys.deps_of(&"b".to_string()).is_none());
}
