use rdo::error::Error;
use rdo::resolver::Resolver;
use rdo::script::Script;

fn task(name: &str, deps: &[&str], enabled: bool) -> Script {
    Script::new(
        name,
        Some(format!("echo {}", name)),
        None,
        None,
        Vec::new(),
        deps.iter().map(|d| d.to_string()).collect(),
        enabled,
    )
}

fn names(plan: &[Script]) -> Vec<String> {
    plan.iter().map(|s| s.name.clone()).collect()
}

fn keys(ks: &[&str]) -> Vec<String> {
    ks.iter().map(|k| k.to_string()).collect()
}

#[test]
fn resolve_all_linear_chain() {
    let resolver = Resolver::new(vec![
        task("a", &[], true),
        task("b", &["a"], true),
        task("c", &["b"], true),
    ])
    .unwrap();
    let plan = resolver.resolve_all().unwrap();
    assert_eq!(names(&plan), vec!["a", "b", "c"]);
}

#[test]
fn resolve_subset_pulls_in_closure() {
    let resolver = Resolver::new(vec![
        task("a", &[], true),
        task("b", &["a"], true),
        task("c", &["b"], true),
    ])
    .unwrap();
    let plan = resolver.resolve(keys(&["c"])).unwrap();
    assert_eq!(names(&plan), vec!["a", "b", "c"]);
    let plan = resolver.resolve(keys(&["b"])).unwrap();
    assert_eq!(names(&plan), vec!["a", "b"]);
}

#[test]
fn resolve_all_diamondish_order() {
    // x depends on y and z; y depends on z: z must precede y, y precede x.
    let resolver = Resolver::new(vec![
        task("x", &["y", "z"], true),
        task("y", &["z"], true),
        task("z", &[], true),
    ])
    .unwrap();
    let plan = resolver.resolve_all().unwrap();
    assert_eq!(names(&plan), vec!["z", "y", "x"]);
}

#[test]
fn resolve_is_idempotent() {
    let resolver = Resolver::new(vec![
        task("x", &["y", "z"], true),
        task("y", &["z"], true),
        task("z", &[], true),
        task("w", &[], true),
    ])
    .unwrap();
    let first = resolver.resolve(keys(&["x"])).unwrap();
    assert_eq!(names(&first), vec!["z", "y", "x"]);
    let again = resolver.resolve(names(&first)).unwrap();
    assert_eq!(names(&again), names(&first));
}

#[test]
fn resolve_unknown_name_fails_not_found() {
    let resolver = Resolver::new(vec![task("a", &[], true)]).unwrap();
    match resolver.resolve(keys(&["missing"])) {
        Err(Error::NotFound(task, key)) => {
            assert!(task.is_none());
            assert_eq!(key, "missing");
        }
        other => panic!("expected NotFound, got {:?}", other.map(|p| names(&p))),
    }
}

#[test]
fn duplicate_names_fail_construction() {
    let result = Resolver::new(vec![task("a", &[], true), task("a", &[], true)]);
    match result {
        Err(Error::DuplicateKey(name)) => assert_eq!(name, "a"),
        Err(_) => panic!("expected DuplicateKey"),
        Ok(_) => panic!("expected an error"),
    }
}

#[test]
fn missing_dependency_fails_construction() {
    let result = Resolver::new(vec![task("a", &["ghost"], true)]);
    match result {
        Err(Error::NotFound(task, dep)) => {
            assert_eq!(task.as_deref(), Some("a"));
            assert_eq!(dep, "ghost");
        }
        Err(_) => panic!("expected NotFound"),
        Ok(_) => panic!("expected an error"),
    }
}

#[test]
fn cycle_fails_resolution() {
    let resolver = Resolver::new(vec![
        task("a", &["b"], true),
        task("b", &["a"], true),
        task("free", &[], true),
    ])
    .unwrap();
    match resolver.resolve_all() {
        Err(Error::CycleDetected(involved)) => {
            assert!(involved.contains(&"a".to_string()));
            assert!(involved.contains(&"b".to_string()));
            assert!(!involved.contains(&"free".to_string()));
        }
        Err(_) => panic!("expected CycleDetected"),
        Ok(plan) => panic!("expected an error, got {:?}", names(&plan)),
    }
}

#[test]
fn cycle_outside_requested_closure_is_harmless() {
    let resolver = Resolver::new(vec![
        task("a", &["b"], true),
        task("b", &["a"], true),
        task("free", &[], true),
    ])
    .unwrap();
    let plan = resolver.resolve(keys(&["free"])).unwrap();
    assert_eq!(names(&plan), vec!["free"]);
    assert!(resolver.resolve(keys(&["a"])).is_err());
}

#[test]
fn self_dependency_is_a_cycle() {
    let resolver = Resolver::new(vec![task("a", &["a"], true)]).unwrap();
    match resolver.resolve_all() {
        Err(Error::CycleDetected(involved)) => assert_eq!(involved, vec!["a".to_string()]),
        _ => panic!("expected CycleDetected"),
    }
}

#[test]
fn resolve_all_is_a_permutation() {
    let resolver = Resolver::new(vec![
        task("d", &["b", "c"], true),
        task("b", &["a"], true),
        task("c", &["a"], true),
        task("a", &[], true),
    ])
    .unwrap();
    let plan = resolver.resolve_all().unwrap();
    let mut got = names(&plan);
    got.sort();
    assert_eq!(got, vec!["a", "b", "c", "d"]);
    // Dependencies stand strictly earlier.
    let order = names(&plan);
    for (p, s) in plan.iter().enumerate() {
        for dep in &s.dependencies {
            let q = order.iter().position(|n| n == dep).unwrap();
            assert!(q < p, "{} should precede {}", dep, s.name);
        }
    }
}

#[test]
fn resolve_with_duplicate_keys_in_request() {
    let resolver = Resolver::new(vec![task("a", &[], true), task("b", &["a"], true)]).unwrap();
    let plan = resolver.resolve(keys(&["b", "b"])).unwrap();
    assert_eq!(names(&plan), vec!["a", "b"]);
}

#[test]
fn empty_task_set_resolves_to_nothing() {
    let resolver = Resolver::new(Vec::new()).unwrap();
    assert!(resolver.resolve_all().unwrap().is_empty());
    assert!(resolver.resolve(Vec::new()).unwrap().is_empty());
}

#[test]
fn empty_request_on_nonempty_set() {
    let resolver = Resolver::new(vec![task("a", &[], true)]).unwrap();
    assert!(resolver.resolve(Vec::new()).unwrap().is_empty());
}
