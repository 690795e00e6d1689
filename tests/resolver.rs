use wk::command::Host;
use wk::context::Context;
use wk::error::Error;
use wk::resolver::{
    check_extension, is_shell_task, load, split_command, CommandDescription, CommandFileDescription,
    CommandsFile, ConcurrentDescription, ExtendedCommandDescription,
};
use wk::vars::VarMap;

fn no_host() -> Host {
    Host { current_dir: None, source_dirs: VarMap::new(), windows: false }
}

fn map_of(pairs: &[(&str, &str)]) -> VarMap {
    let mut m = VarMap::new();
    for (k, v) in pairs {
        m.insert(k.to_string(), v.to_string());
    }
    m
}

fn extending(target: &str, cwd: Option<&str>) -> CommandFileDescription {
    CommandFileDescription::ExtendedCommand(ExtendedCommandDescription {
        cwd: cwd.map(|c| c.to_string()),
        args: None,
        shell: None,
        hidden: None,
        extend: target.to_string(),
        depends: None,
        variables: None,
        description: None,
        environments: None,
    })
}

fn line(s: &str) -> CommandFileDescription {
    CommandFileDescription::StringCommand(s.to_string())
}

fn file_of(entries: Vec<(&str, CommandFileDescription)>) -> CommandsFile {
    CommandsFile {
        extends: None,
        commands: entries.into_iter().map(|(n, e)| (n.to_string(), e)).collect(),
        variables: None,
        environments: None,
    }
}

fn loaded(file: CommandsFile) -> Context {
    match load(file, "/p/wk.yml".to_string()) {
        Ok(c) => c,
        Err(e) => panic!("{}", e.message()),
    }
}

fn run_args(c: &Context, name: &str) -> Vec<String> {
    c.create_command(name, None, &no_host()).unwrap().args
}

#[test]
fn shorthand_splits_program_and_args() {
    let d = CommandDescription::from_str("echo hello").ok().unwrap();
    assert_eq!(d.command, "echo");
    assert_eq!(d.args, Some(vec!["hello".to_string()]));
    let c = loaded(file_of(vec![("hello", line("echo hello"))]));
    let b = c.find_builder("hello").unwrap();
    assert_eq!(b.args, vec!["echo", "hello"]);
    assert_eq!(b.name, "hello");
    assert_eq!(b.source, "/p/wk.yml");
    assert_eq!(run_args(&c, "hello"), vec!["-c", "echo", "hello"]);
}

#[test]
fn empty_shorthand_is_refused() {
    assert!(CommandDescription::from_str("  ").is_err());
    match load(file_of(vec![("e", line("   "))]), "/p/wk.yml".to_string()) {
        Err(Error::Command(_)) => {}
        _ => panic!("expected a command error"),
    }
}

#[test]
fn alias_rewrites_to_extension() {
    let d = CommandDescription {
        cwd: None,
        args: None,
        shell: None,
        hidden: None,
        command: "wk:build --var.target=release".to_string(),
        depends: None,
        variables: None,
        environments: None,
        description: None,
    };
    assert!(!is_shell_task(&d));
    let x = ExtendedCommandDescription::from_alias(d);
    assert_eq!(x.extend, "build");
    assert_eq!(x.args, Some(vec![]));
    let vars = x.variables.unwrap();
    assert_eq!(vars.len(), 1);
    assert_eq!(vars.get("target").map(|s| s.as_str()), Some("release"));
}

#[test]
fn alias_line_runs_base_with_variable() {
    let c = loaded(file_of(vec![
        ("build", line("cargo build --profile ${target}")),
        ("release", line("wk:build --var.target=release extra")),
    ]));
    let b = c.find_builder("release").unwrap();
    assert_eq!(b.name, "release");
    assert_eq!(b.variables.get("target").map(|s| s.as_str()), Some("release"));
    assert_eq!(run_args(&c, "release"), vec!["-c", "cargo", "build", "--profile", "release", "extra"]);
}

#[test]
fn split_command_strips_mark() {
    assert_eq!(split_command("wk:build x"), vec!["build".to_string(), "x".to_string()]);
    assert_eq!(split_command("ls x"), vec!["ls".to_string(), "x".to_string()]);
    assert_eq!(split_command("wk: x"), vec!["wk:".to_string(), "x".to_string()]);
}

#[test]
fn forward_reference_resolves() {
    let c = loaded(file_of(vec![("a", extending("b", Some("/tmp"))), ("b", line("ls -l"))]));
    let a = c.find_builder("a").unwrap();
    assert_eq!(a.args, vec!["ls", "-l"]);
    assert_eq!(a.cwd.as_deref(), Some("/tmp"));
    assert_eq!(a.name, "a");
}

#[test]
fn chained_extensions_in_either_order() {
    let c = loaded(file_of(vec![("a", extending("b", None)), ("b", extending("c", None)), ("c", line("ls"))]));
    assert_eq!(c.find_builder("a").unwrap().args, vec!["ls"]);
    let c = loaded(file_of(vec![("b", extending("c", None)), ("a", extending("b", None)), ("c", line("ls"))]));
    assert_eq!(c.find_builder("a").unwrap().args, vec!["ls"]);
}

#[test]
fn mutual_extension_fails() {
    match load(file_of(vec![("a", extending("b", None)), ("b", extending("a", None))]), "/p/wk.yml".to_string()) {
        Err(Error::Import(_)) => {}
        _ => panic!("expected an import error"),
    }
}

#[test]
fn missing_base_fails() {
    match load(file_of(vec![("e", extending("nope", None))]), "/p/wk.yml".to_string()) {
        Err(Error::Import(m)) => assert_eq!(m, "e cannot extend nope."),
        _ => panic!("expected an import error"),
    }
}

#[test]
fn group_cannot_be_extended() {
    let g = CommandFileDescription::Concurrent(ConcurrentDescription {
        hidden: None,
        depends: None,
        commands: vec!["x".to_string()],
        variables: None,
        description: None,
        environments: None,
    });
    match load(file_of(vec![("g", g), ("e", extending("g", None))]), "/p/wk.yml".to_string()) {
        Err(Error::Import(m)) => assert_eq!(m, "e cannot extend g."),
        _ => panic!("expected an import error"),
    }
}

#[test]
fn file_defaults_cascade() {
    let d = CommandDescription {
        cwd: None,
        args: Some(vec!["${a}".to_string(), "${b}".to_string()]),
        shell: None,
        hidden: Some(true),
        command: "echo".to_string(),
        depends: Some(vec!["x".to_string()]),
        variables: Some(map_of(&[("b", "3")])),
        environments: None,
        description: Some("says".to_string()),
    };
    let file = CommandsFile {
        extends: None,
        commands: vec![("t".to_string(), CommandFileDescription::Command(d))],
        variables: Some(map_of(&[("a", "1"), ("b", "2")])),
        environments: Some(map_of(&[("E", "e")])),
    };
    let c = loaded(file);
    let b = c.find_builder("t").unwrap();
    assert!(b.hidden);
    assert_eq!(b.dependencies, vec!["x"]);
    assert_eq!(b.environments.get("E").map(|s| s.as_str()), Some("e"));
    assert_eq!(run_args(&c, "t"), vec!["-c", "echo", "1", "3"]);
}

#[test]
fn extending_only_cwd_keeps_the_rest() {
    let base = CommandDescription {
        cwd: None,
        args: None,
        shell: Some("sh".to_string()),
        hidden: None,
        command: "make all".to_string(),
        depends: None,
        variables: None,
        environments: Some(map_of(&[("X", "1")])),
        description: None,
    };
    let c = loaded(file_of(vec![
        ("build", CommandFileDescription::Command(base)),
        ("dbg", extending("build", Some("/src"))),
    ]));
    let host = Host { current_dir: Some("/work".to_string()), source_dirs: VarMap::new(), windows: false };
    let a = c.create_command("build", None, &host).unwrap();
    let b = c.create_command("dbg", None, &host).unwrap();
    assert_eq!(a.args, b.args);
    assert_eq!(a.shell, b.shell);
    assert_eq!(b.environments.get("X").map(|s| s.as_str()), Some("1"));
    assert_eq!(a.cwd.as_deref(), Some("/work"));
    assert_eq!(b.cwd.as_deref(), Some("/src"));
}

#[test]
fn self_extension_refused() {
    assert!(matches!(check_extension("/p/wk.yml", "/p/wk.yml"), Err(Error::Import(_))));
    assert!(check_extension("/p/wk.yml", "/p/other.yml").is_ok());
}
