use rdo::error::Error;
use rdo::runner::{exit_to_result, Runner, RunStep};
use rdo::script::Script;

fn task(name: &str, deps: &[&str], enabled: bool) -> Script {
    Script::new(
        name,
        Some(format!("echo {}", name)),
        None,
        None,
        Vec::new(),
        deps.iter().map(|d| d.to_string()).collect(),
        enabled,
    )
}

#[test]
fn walks_a_plan_in_order() {
    let plan = vec![task("a", &[], true), task("b", &["a"], true)];
    let mut runner = Runner::new(plan, None);
    match runner.next_step() {
        Ok(RunStep::Execute(0)) => runner.complete_current(),
        _ => panic!("expected Execute(0)"),
    }
    match runner.next_step() {
        Ok(RunStep::Execute(1)) => runner.complete_current(),
        _ => panic!("expected Execute(1)"),
    }
    match runner.next_step() {
        Ok(RunStep::Done) => {}
        _ => panic!("expected Done"),
    }
}

#[test]
fn failure_aborts_but_keeps_completions() {
    // Running [a, b, c] where b fails: c is never reached, the run ends
    // with b's error, and a's completion stays recorded.
    let plan = vec![task("a", &[], true), task("b", &["a"], true), task("c", &["b"], true)];
    let mut runner = Runner::new(plan, None);

    match runner.next_step() {
        Ok(RunStep::Execute(0)) => runner.complete_current(),
        _ => panic!("expected Execute(0)"),
    }
    // b's turn: the defensive check passes only because a's completion was
    // recorded.
    let step = runner.next_step();
    match step {
        Ok(RunStep::Execute(1)) => {}
        _ => panic!("expected Execute(1)"),
    }
    // b's process exits nonzero: fail fast, do not record b.
    let err = exit_to_result("b", Some(3)).unwrap_err();
    match err {
        Error::Task(name) => assert_eq!(name, "b"),
        _ => panic!("expected Task error"),
    }
    // The walk stopped at b; c was never offered for execution.
    match runner.next_step() {
        Ok(RunStep::Execute(1)) => {}
        _ => panic!("runner should still stand at b"),
    }
}

#[test]
fn dependency_not_run_is_caught() {
    let plan = vec![task("a", &[], true), task("b", &["a"], true)];
    let mut runner = Runner::new(plan, None);
    // Skip a's completion on purpose: pretend an engine defect jumped it.
    runner.skip_current();
    match runner.next_step() {
        Err(Error::DependencyNotRun(name, dep)) => {
            assert_eq!(name, "b");
            assert_eq!(dep, "a");
        }
        _ => panic!("expected DependencyNotRun"),
    }
}

#[test]
fn disabled_task_skipped_in_full_run() {
    let plan = vec![task("d", &[], false), task("e", &["d"], true)];
    let mut runner = Runner::new(plan, None);
    match runner.next_step() {
        Ok(RunStep::Skip(0)) => runner.skip_current(),
        _ => panic!("expected Skip(0)"),
    }
    // e still waits on d, which never completed: the defensive check
    // reports it rather than running e out of order.
    match runner.next_step() {
        Err(Error::DependencyNotRun(name, dep)) => {
            assert_eq!(name, "e");
            assert_eq!(dep, "d");
        }
        _ => panic!("expected DependencyNotRun"),
    }
}

#[test]
fn disabled_task_requested_by_name_fails() {
    let plan = vec![task("d", &[], false)];
    let runner = Runner::new(plan, Some(vec!["d".to_string()]));
    match runner.next_step() {
        Err(Error::TaskDisabled(name)) => assert_eq!(name, "d"),
        _ => panic!("expected TaskDisabled"),
    }
}

#[test]
fn disabled_dependency_of_a_request_is_skipped() {
    // d is disabled but only pulled in as a dependency: it is skipped, not
    // an error.
    let plan = vec![task("d", &[], false), task("e", &["d"], true)];
    let runner = Runner::new(plan, Some(vec!["e".to_string()]));
    match runner.next_step() {
        Ok(RunStep::Skip(0)) => {}
        _ => panic!("expected Skip(0)"),
    }
}

#[test]
fn exit_status_maps_to_outcome() {
    assert!(exit_to_result("t", Some(0)).is_ok());
    match exit_to_result("t", Some(1)) {
        Err(Error::Task(name)) => assert_eq!(name, "t"),
        _ => panic!("expected Task error"),
    }
    match exit_to_result("t", None) {
        Err(Error::Task(name)) => assert_eq!(name, "t"),
        _ => panic!("expected Task error"),
    }
}

#[test]
fn task_at_hands_out_the_plan_entry() {
    let plan = vec![task("a", &[], true), task("b", &["a"], true)];
    let runner = Runner::new(plan, None);
    assert_eq!(runner.task_at(1).name, "b");
    assert_eq!(runner.task_at(1).dependencies, vec!["a".to_string()]);
}
