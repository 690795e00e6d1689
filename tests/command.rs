use wk::command::{Command, CommandBuilder, Host};
use wk::vars::VarMap;

fn host_at(dir: Option<&str>, windows: bool) -> Host {
    Host { current_dir: dir.map(|d| d.to_string()), source_dirs: VarMap::new(), windows }
}

fn vars_of(pairs: &[(&str, &str)]) -> VarMap {
    let mut m = VarMap::new();
    for (k, v) in pairs {
        m.insert(k.to_string(), v.to_string());
    }
    m
}

fn args_of(c: &Command) -> Vec<&str> {
    c.args.iter().map(|s| s.as_str()).collect()
}

#[test]
fn materialize_with_overrides() {
    let mut b = CommandBuilder::new();
    b.with_name("greet".to_string());
    b.with_command("echo ${name} ${other}");
    b.with_variables(vars_of(&[("name", "world")]));
    let overrides = vars_of(&[("name", "you")]);
    let c = b.to_command(Some(&overrides), &host_at(Some("/work"), false));
    assert_eq!(c.name, "greet");
    assert_eq!(c.shell, "bash");
    assert_eq!(args_of(&c), vec!["-c", "echo", "you", "${other}"]);
    assert_eq!(c.cwd.as_deref(), Some("/work"));
}

#[test]
fn own_variables_without_overrides() {
    let mut b = CommandBuilder::new();
    b.with_command("echo ${name}${name}");
    b.with_variables(vars_of(&[("name", "ab")]));
    let c = b.to_command(None, &host_at(None, false));
    assert_eq!(args_of(&c), vec!["-c", "echo", "abab"]);
    assert_eq!(c.cwd, None);
}

#[test]
fn plain_arguments_are_unchanged() {
    let mut b = CommandBuilder::new();
    b.with_command("ls -la $HOME {x}");
    b.with_variables(vars_of(&[("HOME", "/root"), ("x", "1")]));
    let c = b.to_command(None, &host_at(None, false));
    assert_eq!(args_of(&c), vec!["-c", "ls", "-la", "$HOME", "{x}"]);
}

#[test]
fn single_override_replaces_each_token() {
    let mut b = CommandBuilder::new();
    b.with_command("cp ${K}.txt out/${K}/${KEY}");
    let c = b.to_command(Some(&vars_of(&[("K", "V")])), &host_at(None, false));
    assert_eq!(args_of(&c), vec!["-c", "cp", "V.txt", "out/V/${KEY}"]);
}

#[test]
fn windows_default_shell() {
    let mut b = CommandBuilder::new();
    b.with_command("dir");
    let c = b.to_command(None, &host_at(None, true));
    assert_eq!(c.shell, "cmd.exe");
    assert_eq!(args_of(&c), vec!["/c", "dir"]);
}

#[test]
fn explicit_shell_and_cwd() {
    let mut b = CommandBuilder::new();
    b.with_command("make");
    b.with_shell("zsh".to_string());
    b.with_cwd(Some("/src".to_string()));
    let c = b.to_command(None, &host_at(Some("/work"), true));
    assert_eq!(c.shell, "zsh");
    assert_eq!(args_of(&c), vec!["-c", "make"]);
    assert_eq!(c.cwd.as_deref(), Some("/src"));
}

#[test]
fn source_directory_is_last_resort() {
    let mut b = CommandBuilder::new();
    b.with_command("make");
    b.with_source("/p/wk.yml".to_string());
    let host = Host { current_dir: None, source_dirs: vars_of(&[("/p/wk.yml", "/p")]), windows: false };
    let c = b.to_command(None, &host);
    assert_eq!(c.cwd.as_deref(), Some("/p"));
}

#[test]
fn dependencies_and_environments_carried() {
    let mut b = CommandBuilder::new();
    b.with_command("run");
    b.with_dependencies(vec!["a".to_string(), "b".to_string()]);
    b.with_dependency("a".to_string());
    b.with_environments(vars_of(&[("X", "1")]));
    let c = b.to_command(None, &host_at(None, false));
    assert_eq!(c.dependencies, vec!["a".to_string(), "b".to_string(), "a".to_string()]);
    assert_eq!(c.environments.get("X").map(|s| s.as_str()), Some("1"));
}

#[test]
fn builder_setters() {
    let mut b = CommandBuilder::new();
    assert_eq!(b.name, "command");
    b.with_name("t".to_string()).with_hidden(true).with_description("d".to_string());
    b.with_command("a b");
    b.with_arg("c".to_string());
    b.with_args(vec!["d".to_string()]);
    assert_eq!(b.args, vec!["a", "b", "c", "d"]);
    b.override_args(vec!["z".to_string()]);
    assert_eq!(b.args, vec!["z"]);
    assert!(b.hidden);
    assert_eq!(b.description.as_deref(), Some("d"));
    assert_eq!(b.name, "t");
}

#[test]
fn builder_from_text() {
    let b = CommandBuilder::from_str("echo hello").ok().unwrap();
    assert_eq!(b.args, vec!["echo", "hello"]);
    assert!(CommandBuilder::from_str("").is_err());
}
