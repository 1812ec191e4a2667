use rdo::error::Error;
use rdo::graph_binding::{GraphBinding, GraphLike};
use rdo::script::{Script, ScriptType};

fn task(name: &str, deps: &[&str]) -> Script {
    Script::new(
        name,
        Some(format!("echo {}", name)),
        None,
        None,
        Vec::new(),
        deps.iter().map(|d| d.to_string()).collect(),
        true,
    )
}

fn names(plan: &[Script]) -> Vec<String> {
    plan.iter().map(|s| s.name.clone()).collect()
}

#[test]
fn get_all_nodes_returns_every_task() {
    let graph = GraphBinding::new(vec![task("a", &[]), task("b", &["a"])]).unwrap();
    assert_eq!(names(&graph.get_all_nodes()), vec!["a", "b"]);
}

#[test]
fn find_nodes_by_keys_in_request_order() {
    let graph = GraphBinding::new(vec![task("a", &[]), task("b", &["a"])]).unwrap();
    let found = graph
        .find_nodes_by_keys(vec!["b".to_string(), "a".to_string()])
        .unwrap();
    assert_eq!(names(&found), vec!["b", "a"]);
}

#[test]
fn find_nodes_by_keys_reports_first_missing() {
    let graph = GraphBinding::new(vec![task("a", &[])]).unwrap();
    match graph.find_nodes_by_keys(vec!["a".to_string(), "nope".to_string(), "nor".to_string()]) {
        Err(Error::NotFound(task, key)) => {
            assert!(task.is_none());
            assert_eq!(key, "nope");
        }
        _ => panic!("expected NotFound"),
    }
}

#[test]
fn topological_sort_orders_the_closure_of_its_seeds() {
    let graph = GraphBinding::new(vec![
        task("a", &[]),
        task("b", &["a"]),
        task("c", &["b"]),
        task("other", &[]),
    ])
    .unwrap();
    let seeds = graph.find_nodes_by_keys(vec!["c".to_string()]).unwrap();
    let plan = graph.topological_sort(seeds).unwrap();
    assert_eq!(names(&plan), vec!["a", "b", "c"]);
}

#[test]
fn graph_like_exposes_key_and_children() {
    let t = task("a", &["x", "y"]);
    assert_eq!(t.get_key().as_str(), "a");
    assert_eq!(t.get_children_keys(), vec!["x".to_string(), "y".to_string()]);
}

#[test]
fn script_type_defaults_to_bash() {
    assert!(matches!(ScriptType::default(), ScriptType::Bash));
}
