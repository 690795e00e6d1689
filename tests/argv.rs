use wk::argv::{
    extract_option, extract_vars, get_bool_option, get_option, get_var_option, is_bool_option,
    is_option, is_var_option, match_pattern,
};

fn to_strings(v: &[&str]) -> Vec<String> {
    v.iter().map(|s| s.to_string()).collect()
}

#[test]
fn parse_arguments() {
    let args = vec![
        "wk:hello",
        "--var.buddy=\"john\"",
        "--var.buddy0=",
        "--var.greeting",
        "hello",
        "--var.debug",
        "-d",
        "--var0",
        "-var1",
        "--var2.=",
        "--v=toto=plouf",
    ];
    println!("{:?}", args.join(" "));
    let (params, vars) = extract_vars(&to_strings(&args));
    assert_eq!(
        params,
        to_strings(&["wk:hello", "--var.buddy0=", "-d", "--var0", "-var1", "--var2.=", "--v=toto=plouf"])
    );
    assert_eq!(vars.len(), 3);
    assert_eq!(vars.get("buddy").map(|s| s.as_str()), Some("\"john\""));
    assert_eq!(vars.get("greeting").map(|s| s.as_str()), Some("hello"));
    assert_eq!(vars.get("debug").map(|s| s.as_str()), Some("true"));
}

#[test]
fn trailing_var_flag_is_true() {
    let (params, vars) = extract_vars(&to_strings(&["build", "--var.release"]));
    assert_eq!(params, to_strings(&["build"]));
    assert_eq!(vars.get("release").map(|s| s.as_str()), Some("true"));
}

#[test]
fn later_var_wins() {
    let (_, vars) = extract_vars(&to_strings(&["--var.a=1", "--var.a=2"]));
    assert_eq!(vars.len(), 1);
    assert_eq!(vars.get("a").map(|s| s.as_str()), Some("2"));
}

#[test]
fn options_of_every_form() {
    let (params, vars) =
        extract_option(&to_strings(&["build", "-d", "--out=dist", "--mode", "fast", "--flag"]));
    assert_eq!(params, to_strings(&["build"]));
    assert_eq!(vars.len(), 4);
    assert_eq!(vars.get("d").map(|s| s.as_str()), Some("true"));
    assert_eq!(vars.get("out").map(|s| s.as_str()), Some("dist"));
    assert_eq!(vars.get("mode").map(|s| s.as_str()), Some("fast"));
    assert_eq!(vars.get("flag").map(|s| s.as_str()), Some("true"));
}

#[test]
fn pattern_needs_something_after_it() {
    assert_eq!(match_pattern("--var.x", "--var."), Some(("--var.", "x")));
    assert_eq!(match_pattern("--var.", "--var."), None);
    assert_eq!(match_pattern("abc", ""), None);
    assert_eq!(match_pattern("abc", "b"), None);
}

#[test]
fn option_predicates() {
    assert!(!is_option("-"));
    assert!(is_option("-a"));
    assert!(is_option("--a"));
    assert!(!is_option("a"));
    assert_eq!(get_option("--name"), Some(("--", "name")));
    assert_eq!(get_option("-n"), Some(("-", "n")));
    assert!(is_bool_option("-a"));
    assert!(!is_bool_option("--a"));
    assert_eq!(get_bool_option("-x"), Some(("-", "x")));
    assert_eq!(get_bool_option("--x"), None);
    assert!(is_var_option("--var.a"));
    assert!(!is_var_option("--var."));
    assert_eq!(get_var_option("--var.a=b"), Some(("--var.", "a=b")));
}
