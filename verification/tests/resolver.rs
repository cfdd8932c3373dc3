use msh::context::Context;
use msh::env::EnvState;
use msh::resolve::{get_builtin, handle_line, trailing_backslash_count, Action, Resolved};

const HOME: &str = "/home/u";

fn args(words: &[&str]) -> Vec<String> {
    words.iter().map(|w| w.to_string()).collect()
}

fn builtin(words: &[&str]) -> Option<Resolved> {
    get_builtin(&args(words), HOME)
}

#[test]
fn exit_and_quit_resolve_to_exit() {
    assert_eq!(builtin(&["exit"]).unwrap().action, Action::Exit(None));
    assert_eq!(builtin(&["quit"]).unwrap().action, Action::Exit(None));
}

#[test]
fn exit_with_arguments_is_an_error_not_a_spawn() {
    let res = builtin(&["exit", "now"]).unwrap();
    assert_eq!(res.action, Action::Loop);
    assert_eq!(res.output, Some("exit: expected no arguments".to_string()));
}

#[test]
fn help_prints_usage() {
    let res = builtin(&["help"]).unwrap();
    assert_eq!(res.action, Action::Loop);
    let text = res.output.unwrap();
    assert!(text.contains("register-file"));
    assert!(text.contains("clear-register"));
}

#[test]
fn dump_resolves() {
    assert_eq!(builtin(&["dump"]).unwrap().action, Action::Dump);
}

#[test]
fn cd_without_argument_goes_home() {
    assert_eq!(
        builtin(&["cd"]).unwrap().action,
        Action::ChDir(HOME.to_string())
    );
}

#[test]
fn cd_with_argument() {
    assert_eq!(
        builtin(&["cd", "/tmp"]).unwrap().action,
        Action::ChDir("/tmp".to_string())
    );
}

#[test]
fn cd_with_two_arguments_is_an_error() {
    let res = builtin(&["cd", "/a", "/b"]).unwrap();
    assert_eq!(res.action, Action::Loop);
    assert_eq!(
        res.output,
        Some("cd: expected at most one argument".to_string())
    );
}

#[test]
fn echo_joins_arguments() {
    let res = builtin(&["echo", "a", "b c", "d"]).unwrap();
    assert_eq!(res.action, Action::Loop);
    assert_eq!(res.output, Some("a b c d".to_string()));
}

#[test]
fn echo_without_arguments_prints_empty_line() {
    let res = builtin(&["echo"]).unwrap();
    assert_eq!(res.output, Some("".to_string()));
}

#[test]
fn var_with_name_and_value_stores() {
    assert_eq!(
        builtin(&["var", "X", "1"]).unwrap().action,
        Action::StoreEnv {
            name: "X".to_string(),
            value: "1".to_string()
        }
    );
}

#[test]
fn var_with_delete_flag_removes() {
    assert_eq!(
        builtin(&["var", "-d", "X"]).unwrap().action,
        Action::RemoveEnv {
            name: "X".to_string()
        }
    );
    assert_eq!(
        builtin(&["var", "X", "--delete"]).unwrap().action,
        Action::RemoveEnv {
            name: "X".to_string()
        }
    );
}

#[test]
fn var_delete_takes_precedence_over_value() {
    assert_eq!(
        builtin(&["var", "X", "1", "-d"]).unwrap().action,
        Action::RemoveEnv {
            name: "X".to_string()
        }
    );
}

#[test]
fn var_without_value_or_flag_is_an_error() {
    let res = builtin(&["var", "X"]).unwrap();
    assert_eq!(res.action, Action::Loop);
    assert!(res.output.is_some());
}

#[test]
fn var_without_name_is_an_error() {
    let res = builtin(&["var"]).unwrap();
    assert_eq!(res.action, Action::Loop);
    assert!(res.output.is_some());
}

#[test]
fn register_needs_at_least_one_directory() {
    assert_eq!(
        builtin(&["register", "/a", "/b"]).unwrap().action,
        Action::Register(args(&["/a", "/b"]))
    );
    assert_eq!(
        builtin(&["reg", "/a"]).unwrap().action,
        Action::Register(args(&["/a"]))
    );
    let res = builtin(&["register"]).unwrap();
    assert_eq!(res.action, Action::Loop);
    assert!(res.output.is_some());
}

#[test]
fn unregister_needs_at_least_one_directory() {
    assert_eq!(
        builtin(&["unregister", "/a"]).unwrap().action,
        Action::Unregister(args(&["/a"]))
    );
    assert_eq!(
        builtin(&["unreg", "/a"]).unwrap().action,
        Action::Unregister(args(&["/a"]))
    );
    assert!(builtin(&["unregister"]).unwrap().output.is_some());
}

#[test]
fn register_file_takes_exactly_one_file() {
    assert_eq!(
        builtin(&["register-file", "list.txt"]).unwrap().action,
        Action::RegisterFile("list.txt".to_string())
    );
    assert_eq!(
        builtin(&["regfile", "list.txt"]).unwrap().action,
        Action::RegisterFile("list.txt".to_string())
    );
    assert!(builtin(&["register-file"]).unwrap().output.is_some());
    assert!(builtin(&["register-file", "a", "b"]).unwrap().output.is_some());
}

#[test]
fn clear_register_takes_any_arguments() {
    assert_eq!(
        builtin(&["clear-register"]).unwrap().action,
        Action::ClearRegistry(args(&[]))
    );
    assert_eq!(
        builtin(&["clreg", "/a"]).unwrap().action,
        Action::ClearRegistry(args(&["/a"]))
    );
}

#[test]
fn unknown_flag_is_reported_not_data() {
    let res = builtin(&["register", "-x", "p"]).unwrap();
    assert_eq!(res.action, Action::Loop);
    assert_eq!(res.output, Some("register: unknown flag -x".to_string()));
}

#[test]
fn unknown_flag_on_var_is_reported() {
    let res = builtin(&["var", "-x", "X"]).unwrap();
    assert_eq!(res.action, Action::Loop);
    assert_eq!(res.output, Some("var: unknown flag -x".to_string()));
}

#[test]
fn unknown_flag_names_the_alias_as_typed() {
    let res = builtin(&["reg", "--force", "/a"]).unwrap();
    assert_eq!(res.action, Action::Loop);
    assert_eq!(res.output, Some("reg: unknown flag --force".to_string()));
}

#[test]
fn echo_with_dash_led_argument_is_reported() {
    let res = builtin(&["echo", "-n", "hi"]).unwrap();
    assert_eq!(res.action, Action::Loop);
    assert_eq!(res.output, Some("echo: unknown flag -n".to_string()));
}

#[test]
fn var_delete_flags_are_still_known() {
    assert_eq!(
        builtin(&["var", "--delete", "X"]).unwrap().action,
        Action::RemoveEnv {
            name: "X".to_string()
        }
    );
    assert_eq!(
        builtin(&["var", "-d", "X"]).unwrap().action,
        Action::RemoveEnv {
            name: "X".to_string()
        }
    );
}

#[test]
fn dash_led_value_for_var_is_reported() {
    let res = builtin(&["var", "X", "-1"]).unwrap();
    assert_eq!(res.action, Action::Loop);
    assert_eq!(res.output, Some("var: unknown flag -1".to_string()));
}

#[test]
fn unknown_command_falls_through() {
    assert!(builtin(&["ls", "-l"]).is_none());
    assert!(builtin(&["exitt"]).is_none());
}

#[test]
fn quoted_builtin_name_is_not_a_builtin() {
    assert!(builtin(&["\"exit\""]).is_none());
}

#[test]
fn handle_line_spawns_unknown_commands() {
    let mut ctx = Context::new();
    let env = EnvState::new();
    let res = handle_line(&mut ctx, &env, HOME, "ls -l");
    assert_eq!(res.action, Action::Execute(args(&["ls", "-l"])));
}

#[test]
fn handle_line_blank_is_a_no_op() {
    let mut ctx = Context::new();
    let env = EnvState::new();
    let res = handle_line(&mut ctx, &env, HOME, "   ");
    assert_eq!(res.action, Action::Loop);
    assert_eq!(res.output, None);
}

#[test]
fn handle_line_reports_unterminated_quote_and_recovers() {
    let mut ctx = Context::new();
    let env = EnvState::new();
    let res = handle_line(&mut ctx, &env, HOME, "echo \"abc");
    assert_eq!(res.action, Action::Loop);
    assert_eq!(res.output, Some("Unterminated double quote".to_string()));
    // the session goes on: the next line is interpreted normally
    let res2 = handle_line(&mut ctx, &env, HOME, "echo ok");
    assert_eq!(res2.action, Action::Loop);
    assert_eq!(res2.output, Some("ok".to_string()));
}

#[test]
fn continuation_line_is_buffered_then_joined() {
    let mut ctx = Context::new();
    let env = EnvState::new();
    let res = handle_line(&mut ctx, &env, HOME, "a \\");
    match res.action {
        Action::Buffer(stored) => {
            assert_eq!(stored, "a ");
            ctx.push_buffer(&stored);
        }
        other => panic!("expected Buffer, got {:?}", other),
    }
    let res2 = handle_line(&mut ctx, &env, HOME, "b");
    assert_eq!(res2.action, Action::Execute(args(&["a", "b"])));
}

#[test]
fn escaped_trailing_backslash_is_not_continuation() {
    let mut ctx = Context::new();
    let env = EnvState::new();
    let res = handle_line(&mut ctx, &env, HOME, "a \\\\");
    assert_eq!(res.action, Action::Execute(args(&["a", "\\"])));
}

#[test]
fn trailing_backslashes_are_counted() {
    assert_eq!(trailing_backslash_count("a"), 0);
    assert_eq!(trailing_backslash_count("a\\"), 1);
    assert_eq!(trailing_backslash_count("a\\\\"), 2);
    assert_eq!(trailing_backslash_count("\\\\\\"), 3);
}

#[test]
fn handle_line_expands_before_resolving() {
    let mut ctx = Context::new();
    let mut env = EnvState::new();
    env.set("GREETING".to_string(), "hi".to_string());
    let res = handle_line(&mut ctx, &env, HOME, "echo $GREETING");
    assert_eq!(res.output, Some("hi".to_string()));
}

#[test]
fn handle_line_var_builtin_round_trip() {
    let mut ctx = Context::new();
    let mut env = EnvState::new();
    let res = handle_line(&mut ctx, &env, HOME, "var X 1");
    match res.action {
        Action::StoreEnv { name, value } => env.set(name, value),
        other => panic!("expected StoreEnv, got {:?}", other),
    }
    let res2 = handle_line(&mut ctx, &env, HOME, "echo $X");
    assert_eq!(res2.output, Some("1".to_string()));
}
