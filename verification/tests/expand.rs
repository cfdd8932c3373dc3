use msh::env::EnvState;
use msh::expand::{expand_line, expand_var};

fn env_with(pairs: &[(&str, &str)]) -> EnvState {
    let mut env = EnvState::new();
    for (name, value) in pairs {
        env.set(name.to_string(), value.to_string());
    }
    env
}

#[test]
fn set_variable_expands() {
    let env = env_with(&[("HOME", "/u")]);
    assert_eq!(expand_var("$HOME/x", &env, "/u"), "/u/x");
}

#[test]
fn unset_variable_stays_literal() {
    let env = EnvState::new();
    assert_eq!(expand_var("$UNSET", &env, "/u"), "$UNSET");
}

#[test]
fn single_quoted_token_is_verbatim() {
    let env = env_with(&[("HOME", "/u")]);
    assert_eq!(expand_var("'~/lit'", &env, "/u"), "'~/lit'");
    assert_eq!(expand_var("'$HOME'", &env, "/u"), "'$HOME'");
}

#[test]
fn tilde_expands_anywhere() {
    let env = EnvState::new();
    assert_eq!(expand_var("~/x", &env, "/home/u"), "/home/u/x");
    assert_eq!(expand_var("a~b", &env, "/h"), "a/hb");
}

#[test]
fn backslash_makes_next_literal() {
    let env = env_with(&[("X", "1")]);
    assert_eq!(expand_var("a\\$X", &env, "/u"), "a$X");
    assert_eq!(expand_var("\\~", &env, "/u"), "~");
}

#[test]
fn dollar_without_name_stays() {
    let env = EnvState::new();
    assert_eq!(expand_var("$", &env, "/u"), "$");
    assert_eq!(expand_var("a$/b", &env, "/u"), "a$/b");
}

#[test]
fn variable_name_stops_at_non_name_char() {
    let env = env_with(&[("AB", "x")]);
    assert_eq!(expand_var("$AB-c", &env, "/u"), "x-c");
}

#[test]
fn environment_updates_are_visible() {
    let mut env = EnvState::new();
    env.set("V".to_string(), "one".to_string());
    assert_eq!(expand_var("$V", &env, "/u"), "one");
    env.set("V".to_string(), "two".to_string());
    assert_eq!(expand_var("$V", &env, "/u"), "two");
    env.unset(&"V".to_string());
    assert_eq!(expand_var("$V", &env, "/u"), "$V");
}

#[test]
fn expand_line_expands_each_token() {
    let env = env_with(&[("X", "1")]);
    let out = expand_line("echo $X '$X'", &env, "/u").expect("expand_line failed");
    assert_eq!(out, vec!["echo", "1", "'$X'"]);
}

#[test]
fn expand_line_propagates_lex_error() {
    let env = EnvState::new();
    assert!(expand_line("echo \"abc", &env, "/u").is_err());
}

#[test]
fn double_quoted_token_is_still_scanned() {
    let env = env_with(&[("X", "1")]);
    assert_eq!(expand_var("\"$X\"", &env, "/u"), "\"1\"");
}
