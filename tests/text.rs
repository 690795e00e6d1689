use wk::error::Error;
use wk::lookup::{config_names, find_config};
use wk::text::{replace, split_whitespace};
use wk::vars::VarMap;

#[test]
fn split_on_any_whitespace() {
    assert_eq!(split_whitespace("  echo \t hello\n "), vec!["echo".to_string(), "hello".to_string()]);
    assert!(split_whitespace("   ").is_empty());
    assert!(split_whitespace("").is_empty());
}

#[test]
fn replace_every_occurrence() {
    assert_eq!(replace("a${x}b${x}", "${x}", "1"), "a1b1");
    assert_eq!(replace("aaa", "aa", "b"), "ba");
    assert_eq!(replace("none", "${x}", "1"), "none");
}

#[test]
fn var_map_insert_replaces() {
    let mut m = VarMap::new();
    m.insert("a".to_string(), "1".to_string());
    m.insert("b".to_string(), "2".to_string());
    m.insert("a".to_string(), "3".to_string());
    assert_eq!(m.len(), 2);
    assert_eq!(m.get("a").map(|s| s.as_str()), Some("3"));
    assert_eq!(m.key_at(0).as_str(), "a");
    assert_eq!(m.get("c"), None);
}

#[test]
fn var_map_extend_prefers_other() {
    let mut m = VarMap::new();
    m.insert("a".to_string(), "1".to_string());
    let mut o = VarMap::new();
    o.insert("a".to_string(), "2".to_string());
    o.insert("b".to_string(), "3".to_string());
    m.extend(&o);
    assert_eq!(m.len(), 2);
    assert_eq!(m.get("a").map(|s| s.as_str()), Some("2"));
    assert_eq!(m.get("b").map(|s| s.as_str()), Some("3"));
}

#[test]
fn error_messages_are_tagged() {
    assert_eq!(Error::Import("x".to_string()).message(), "[Import] x");
    assert_eq!(Error::Command("y".to_string()).message(), "[Command] y");
    assert_eq!(Error::Std("z".to_string()).message(), "[Std] z");
}

#[test]
fn first_listed_config_file_wins() {
    let entries: Vec<String> = vec!["a.txt".into(), "wk.yml".into(), "commands.yml".into()];
    assert_eq!(find_config(&entries, &config_names()), Some(1));
    let none: Vec<String> = vec!["a.txt".into()];
    assert_eq!(find_config(&none, &config_names()), None);
    assert_eq!(config_names(), vec!["commands.yml".to_string(), "Commands.yml".to_string(), "wk.yml".to_string()]);
}
