use wk::command::CommandBuilder;
use wk::concurrent::ConcurrentBuilder;
use wk::resolver::{ExtendedCommand, ExtendedCommandDescription};
use wk::vars::VarMap;

#[test]
fn group_builder_setters() {
    let mut g = ConcurrentBuilder::new();
    assert_eq!(g.name, "task");
    g.with_name("all".to_string())
        .with_description("everything".to_string())
        .with_source("/p/wk.yml".to_string())
        .with_hidden(true);
    g.with_command("a".to_string());
    g.with_commands(vec!["b".to_string(), "c".to_string()]);
    g.with_dependency("x".to_string());
    g.with_dependencies(vec!["y".to_string()]);
    let mut v = VarMap::new();
    v.insert("k".to_string(), "v".to_string());
    g.with_variables(v);
    let mut e = VarMap::new();
    e.insert("E".to_string(), "1".to_string());
    g.with_environments(e);
    assert_eq!(g.name, "all");
    assert_eq!(g.commands, vec!["a", "b", "c"]);
    assert_eq!(g.dependencies, vec!["x", "y"]);
    assert!(g.hidden);
    assert_eq!(g.source, "/p/wk.yml");
    assert_eq!(g.description.as_deref(), Some("everything"));
    assert_eq!(g.variables.get("k").map(|s| s.as_str()), Some("v"));
    assert_eq!(g.environments.get("E").map(|s| s.as_str()), Some("1"));
}

#[test]
fn extension_appends_and_overrides() {
    let mut base = CommandBuilder::new();
    base.with_name("build".to_string());
    base.with_command("make");
    base.with_shell("sh".to_string());
    base.with_dependency("fetch".to_string());
    let mut bv = VarMap::new();
    bv.insert("a".to_string(), "1".to_string());
    bv.insert("b".to_string(), "2".to_string());
    base.with_variables(bv);
    let mut dv = VarMap::new();
    dv.insert("b".to_string(), "3".to_string());
    let desc = ExtendedCommandDescription {
        cwd: None,
        args: Some(vec!["install".to_string()]),
        shell: None,
        hidden: Some(true),
        extend: "build".to_string(),
        depends: Some(vec!["test".to_string()]),
        variables: Some(dv),
        description: Some("installs".to_string()),
        environments: None,
    };
    let r = CommandBuilder::from_extended(ExtendedCommand { extend: base, desc });
    assert_eq!(r.name, "build");
    assert_eq!(r.args, vec!["make", "install"]);
    assert_eq!(r.shell.as_deref(), Some("sh"));
    assert_eq!(r.cwd, None);
    assert!(r.hidden);
    assert_eq!(r.dependencies, vec!["fetch", "test"]);
    assert_eq!(r.variables.get("a").map(|s| s.as_str()), Some("1"));
    assert_eq!(r.variables.get("b").map(|s| s.as_str()), Some("3"));
    assert_eq!(r.description.as_deref(), Some("installs"));
}
