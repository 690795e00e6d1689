use wk::command::{CommandBuilder, Host};
use wk::concurrent::ConcurrentBuilder;
use wk::context::{CommandImported, Context};
use wk::error::Error;
use wk::vars::VarMap;

fn plain_host() -> Host {
    Host { current_dir: None, source_dirs: VarMap::new(), windows: false }
}

fn task(name: &str, deps: &[&str]) -> CommandImported {
    let mut b = CommandBuilder::new();
    b.with_name(name.to_string());
    b.with_command("echo");
    b.with_dependencies(deps.iter().map(|d| d.to_string()).collect());
    CommandImported::Command(b)
}

fn registry(entries: Vec<(&str, CommandImported)>) -> Context {
    let mut c = Context::new();
    for (n, e) in entries {
        c.insert(n.to_string(), e);
    }
    c
}

fn order(c: &Context, root: &str) -> Vec<String> {
    match c.plan(root, None, &plain_host()) {
        Ok(v) => v.into_iter().map(|c| c.name).collect(),
        Err(_) => panic!("no plan"),
    }
}

#[test]
fn dependencies_come_first() {
    let c = registry(vec![("a", task("a", &["b", "c"])), ("b", task("b", &["c"])), ("c", task("c", &[]))]);
    assert_eq!(order(&c, "a"), vec!["c", "b", "a"]);
}

#[test]
fn shared_dependency_once() {
    let c = registry(vec![
        ("a", task("a", &["b", "c"])),
        ("b", task("b", &["d"])),
        ("c", task("c", &["d"])),
        ("d", task("d", &[])),
    ]);
    assert_eq!(order(&c, "a"), vec!["d", "b", "c", "a"]);
}

#[test]
fn cycle_terminates() {
    let c = registry(vec![("a", task("a", &["b"])), ("b", task("b", &["a"]))]);
    assert_eq!(order(&c, "a"), vec!["b", "a"]);
}

#[test]
fn self_dependency_ignored() {
    let c = registry(vec![("a", task("a", &["a"]))]);
    assert_eq!(order(&c, "a"), vec!["a"]);
}

#[test]
fn unknown_dependency_skipped() {
    let c = registry(vec![("a", task("a", &["zz"]))]);
    assert_eq!(order(&c, "a"), vec!["a"]);
}

#[test]
fn group_runs_its_members() {
    let mut g = ConcurrentBuilder::new();
    g.with_name("g".to_string());
    g.with_commands(vec!["x".to_string(), "y".to_string()]);
    let c = registry(vec![
        ("g", CommandImported::Concurrent(g)),
        ("x", task("x", &[])),
        ("y", task("y", &["x"])),
    ]);
    assert_eq!(order(&c, "g"), vec!["x", "y"]);
    assert!(c.find_builder("g").is_none());
    assert!(c.find("g").is_some());
}

#[test]
fn missing_task_is_not_found() {
    let c = registry(vec![("a", task("a", &[]))]);
    match c.plan("missing", None, &plain_host()) {
        Err(Error::Command(m)) => assert_eq!(m, "Command \"missing\" not found"),
        _ => panic!("expected a not-found error"),
    }
}

#[test]
fn create_stack_keeps_existing() {
    let c = registry(vec![("a", task("a", &["b"])), ("b", task("b", &[]))]);
    let mut tasks = Vec::new();
    c.create_stack("b", &mut tasks, None, &plain_host());
    c.create_stack("a", &mut tasks, None, &plain_host());
    let names: Vec<String> = tasks.into_iter().map(|t| t.name).collect();
    assert_eq!(names, vec!["b", "a"]);
}

#[test]
fn extend_overwrites_by_name() {
    let mut c = registry(vec![("a", task("a", &[])), ("b", task("b", &[]))]);
    let other = registry(vec![("b", task("b", &["a"])), ("c", task("c", &[]))]);
    c.extend(other);
    assert_eq!(c.tasks.len(), 3);
    assert_eq!(c.find_builder("b").map(|b| b.dependencies.clone()), Some(vec!["a".to_string()]));
    assert!(c.create_command("c", None, &plain_host()).is_some());
    assert!(c.create_command("zz", None, &plain_host()).is_none());
}
