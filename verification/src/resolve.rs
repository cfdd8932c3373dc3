//! Classifies one logical line as a builtin command or a program to spawn.
//!
//! The builtin grammar is a fixed table, matched here directly: a line whose
//! first token names no builtin falls through to program invocation on
//! purpose, while a malformed use of a known builtin name is reported and
//! never falls through.

use vstd::prelude::*;

use crate::context::Context;
use crate::env::EnvState;
use crate::expand::{expand_line, spec_expand_line};
use crate::lexer::LexError;
use crate::lexer_laws::join_tokens;
use crate::strutil::{blank, is_blank, join_with_spaces, str_eq};

verus! {

/// What the driver should do after one line is interpreted.
#[derive(Debug, PartialEq)]
pub enum Action {
    /// Nothing left to do for this line.
    Loop,
    /// Print the registry listing.
    Dump,
    /// Hold this partial line until the next one arrives.
    Buffer(String),
    /// Add these directories to the registry.
    Register(Vec<String>),
    /// Remove these directories from the registry.
    Unregister(Vec<String>),
    /// Register every path named in this file.
    RegisterFile(String),
    /// Empty the registry, then add these directories.
    ClearRegistry(Vec<String>),
    /// Change the working directory.
    ChDir(String),
    /// Set an environment variable.
    StoreEnv { name: String, value: String },
    /// Remove an environment variable.
    RemoveEnv { name: String },
    /// Spawn this command in every registered directory.
    Execute(Vec<String>),
    /// End the session, with an optional farewell.
    Exit(Option<String>),
}

/// The mathematical shadow of `Action`, over character sequences.
pub enum ActionV {
    Loop,
    Dump,
    Buffer(Seq<char>),
    Register(Seq<Seq<char>>),
    Unregister(Seq<Seq<char>>),
    RegisterFile(Seq<char>),
    ClearRegistry(Seq<Seq<char>>),
    ChDir(Seq<char>),
    StoreEnv { name: Seq<char>, value: Seq<char> },
    RemoveEnv { name: Seq<char> },
    Execute(Seq<Seq<char>>),
    Exit(Option<Seq<char>>),
}

pub open spec fn action_view(a: Action) -> ActionV {
    match a {
        Action::Loop => ActionV::Loop,
        Action::Dump => ActionV::Dump,
        Action::Buffer(s) => ActionV::Buffer(s@),
        Action::Register(v) => ActionV::Register(v.deep_view()),
        Action::Unregister(v) => ActionV::Unregister(v.deep_view()),
        Action::RegisterFile(s) => ActionV::RegisterFile(s@),
        Action::ClearRegistry(v) => ActionV::ClearRegistry(v.deep_view()),
        Action::ChDir(s) => ActionV::ChDir(s@),
        Action::StoreEnv { name, value } => ActionV::StoreEnv { name: name@, value: value@ },
        Action::RemoveEnv { name } => ActionV::RemoveEnv { name: name@ },
        Action::Execute(v) => ActionV::Execute(v.deep_view()),
        Action::Exit(o) => ActionV::Exit(
            match o {
                Some(s) => Some(s@),
                None => None,
            },
        ),
    }
}

/// A resolved line: the action to apply, and any text to show the user
/// (echo output, the help text, or a complaint about a malformed builtin).
pub struct Resolved {
    pub action: Action,
    pub output: Option<String>,
}

pub open spec fn resolved_view(r: Resolved) -> (ActionV, Option<Seq<char>>) {
    (
        action_view(r.action),
        match r.output {
            Some(s) => Some(s@),
            None => None,
        },
    )
}

/// The help text the `help` builtin prints.
pub open spec fn spec_help_text() -> Seq<char> {
    "Builtins:\n  exit | quit\n  help\n  dump\n  cd [DIR]\n  echo [ARGS...]\n  var NAME [VALUE] [-d|--delete]\n  register DIRS... (alias reg)\n  unregister DIRS... (alias unreg)\n  register-file FILE (alias regfile)\n  clear-register [DIRS...] (alias clreg)"@
}

pub open spec fn var_is_delete_flag(t: Seq<char>) -> bool {
    t == "-d"@ || t == "--delete"@
}

/// The non-flag arguments of the `var` builtin, in order.
pub open spec fn var_positionals(rest: Seq<Seq<char>>) -> Seq<Seq<char>>
    decreases rest.len(),
{
    if rest.len() == 0 {
        Seq::empty()
    } else {
        let front = var_positionals(rest.drop_last());
        if var_is_delete_flag(rest.last()) {
            front
        } else {
            front.push(rest.last())
        }
    }
}

pub open spec fn var_has_delete(rest: Seq<Seq<char>>) -> bool {
    exists|k: int| 0 <= k < rest.len() && var_is_delete_flag(#[trigger] rest[k])
}

/// What the `var` builtin does with its arguments: the delete flag wins,
/// a name alone or more than two positionals is a complaint.
pub open spec fn spec_var_resolution(rest: Seq<Seq<char>>) -> (ActionV, Option<Seq<char>>) {
    let pos = var_positionals(rest);
    let del = var_has_delete(rest);
    if pos.len() == 0 || pos.len() > 2 {
        (ActionV::Loop, Some("var: expected NAME [VALUE] with optional -d/--delete"@))
    } else if del {
        (ActionV::RemoveEnv { name: pos[0] }, None)
    } else if pos.len() == 2 {
        (ActionV::StoreEnv { name: pos[0], value: pos[1] }, None)
    } else {
        (ActionV::Loop, Some("var: expected NAME [VALUE] with optional -d/--delete"@))
    }
}

/// The names and aliases of the builtin table.
pub open spec fn is_builtin_name(cmd: Seq<char>) -> bool {
    ||| cmd == "exit"@
    ||| cmd == "quit"@
    ||| cmd == "help"@
    ||| cmd == "dump"@
    ||| cmd == "cd"@
    ||| cmd == "echo"@
    ||| cmd == "var"@
    ||| cmd == "register"@
    ||| cmd == "reg"@
    ||| cmd == "unregister"@
    ||| cmd == "unreg"@
    ||| cmd == "register-file"@
    ||| cmd == "regfile"@
    ||| cmd == "clear-register"@
    ||| cmd == "clreg"@
}

/// A token a builtin reads as a flag it does not know: it begins with `-`
/// and is not one of `var`'s own delete flags where those are allowed.
pub open spec fn unknown_flag(t: Seq<char>, allow_delete: bool) -> bool {
    t.len() > 0 && t[0] == '-' && !(allow_delete && var_is_delete_flag(t))
}

/// The first unknown flag among the arguments from position `i` on, if any.
pub open spec fn find_unknown_flag(rest: Seq<Seq<char>>, allow_delete: bool, i: int) -> Option<
    Seq<char>,
>
    decreases rest.len() - i,
{
    if i < 0 || i >= rest.len() {
        None
    } else if unknown_flag(rest[i], allow_delete) {
        Some(rest[i])
    } else {
        find_unknown_flag(rest, allow_delete, i + 1)
    }
}

/// The builtin table: what a token sequence resolves to, or `None` when its
/// first token names no builtin and the line is a program invocation.  A
/// recognized builtin handed a flag it does not know complains and resolves
/// to the no-op action: a mistyped use of a builtin never falls through to
/// a spawn.
pub open spec fn spec_resolve(args: Seq<Seq<char>>, home: Seq<char>) -> Option<
    (ActionV, Option<Seq<char>>),
>
    recommends
        args.len() > 0,
{
    let cmd = args[0];
    if !is_builtin_name(cmd) {
        None
    } else {
        match find_unknown_flag(args.skip(1), cmd == "var"@, 0) {
            Some(tok) => Some((ActionV::Loop, Some(cmd + ": unknown flag "@ + tok))),
            None => spec_resolve_builtin(args, home),
        }
    }
}

/// What each builtin does with its flag-free arguments.
pub open spec fn spec_resolve_builtin(args: Seq<Seq<char>>, home: Seq<char>) -> Option<
    (ActionV, Option<Seq<char>>),
>
    recommends
        args.len() > 0,
        is_builtin_name(args[0]),
{
    let cmd = args[0];
    if cmd == "exit"@ || cmd == "quit"@ {
        if args.len() == 1 {
            Some((ActionV::Exit(None), None))
        } else {
            Some((ActionV::Loop, Some("exit: expected no arguments"@)))
        }
    } else if cmd == "help"@ {
        if args.len() == 1 {
            Some((ActionV::Loop, Some(spec_help_text())))
        } else {
            Some((ActionV::Loop, Some("help: expected no arguments"@)))
        }
    } else if cmd == "dump"@ {
        if args.len() == 1 {
            Some((ActionV::Dump, None))
        } else {
            Some((ActionV::Loop, Some("dump: expected no arguments"@)))
        }
    } else if cmd == "cd"@ {
        if args.len() == 1 {
            Some((ActionV::ChDir(home), None))
        } else if args.len() == 2 {
            Some((ActionV::ChDir(args[1]), None))
        } else {
            Some((ActionV::Loop, Some("cd: expected at most one argument"@)))
        }
    } else if cmd == "echo"@ {
        Some((ActionV::Loop, Some(join_tokens(args.skip(1)))))
    } else if cmd == "var"@ {
        Some(spec_var_resolution(args.skip(1)))
    } else if cmd == "register"@ || cmd == "reg"@ {
        if args.len() >= 2 {
            Some((ActionV::Register(args.skip(1)), None))
        } else {
            Some((ActionV::Loop, Some("register: expected at least one directory"@)))
        }
    } else if cmd == "unregister"@ || cmd == "unreg"@ {
        if args.len() >= 2 {
            Some((ActionV::Unregister(args.skip(1)), None))
        } else {
            Some((ActionV::Loop, Some("unregister: expected at least one directory"@)))
        }
    } else if cmd == "register-file"@ || cmd == "regfile"@ {
        if args.len() == 2 {
            Some((ActionV::RegisterFile(args[1]), None))
        } else {
            Some((ActionV::Loop, Some("register-file: expected exactly one file"@)))
        }
    } else if cmd == "clear-register"@ || cmd == "clreg"@ {
        Some((ActionV::ClearRegistry(args.skip(1)), None))
    } else {
        None
    }
}

/// The items of `args` from index 1 on, as owned strings.
fn tail_of(args: &Vec<String>) -> (r: Vec<String>)
    requires
        args.len() > 0,
    ensures
        r.deep_view() == args.deep_view().skip(1),
{
    let n = args.len();
    let mut r: Vec<String> = Vec::new();
    let mut idx: usize = 1;
    while idx < n
        invariant
            1 <= idx <= n,
            n == args.len(),
            r.len() == idx - 1,
            forall|l: int| 0 <= l < idx - 1 ==> (#[trigger] r@[l])@ == args@[l + 1]@,
        decreases n - idx,
    {
        let ghost pre = r@;
        let item = args[idx].clone();
        proof {
            assert(item@ == args@[idx as int]@);
        }
        r.push(item);
        proof {
            assert(r@ == pre.push(item));
            assert forall|l: int| 0 <= l < idx as int implies (#[trigger] r@[l])@ == args@[l
                + 1]@ by {
                if l < idx as int - 1 {
                    assert(r@[l] == pre[l]);
                }
            }
        }
        idx = idx + 1;
    }
    proof {
        assert forall|l: int| 0 <= l < r@.len() implies r.deep_view()[l] == args.deep_view().skip(
            1,
        )[l] by {
            assert(r@[l]@ == args@[l + 1]@);
        }
        assert(r.deep_view() =~= args.deep_view().skip(1));
    }
    r
}

/// Whether one argument reads as a flag the builtin does not know.
fn flag_token(t: &String, allow_delete: bool) -> (r: bool)
    ensures
        r == unknown_flag(t@, allow_delete),
{
    let n = t.as_str().unicode_len();
    if n == 0 {
        return false;
    }
    if t.as_str().get_char(0) != '-' {
        return false;
    }
    if allow_delete && (str_eq(t.as_str(), "-d") || str_eq(t.as_str(), "--delete")) {
        return false;
    }
    true
}

/// The first argument after the command name that reads as an unknown flag.
fn find_flag(args: &Vec<String>, allow_delete: bool) -> (r: Option<String>)
    requires
        args.len() > 0,
    ensures
        match r {
            Some(t) => find_unknown_flag(args.deep_view().skip(1), allow_delete, 0) == Some(t@),
            None => find_unknown_flag(args.deep_view().skip(1), allow_delete, 0) is None,
        },
{
    let ghost rest = args.deep_view().skip(1);
    let n = args.len();
    let mut idx: usize = 1;
    while idx < n
        invariant
            1 <= idx <= n,
            n == args.len(),
            rest == args.deep_view().skip(1),
            find_unknown_flag(rest, allow_delete, 0) == find_unknown_flag(
                rest,
                allow_delete,
                idx as int - 1,
            ),
        decreases n - idx,
    {
        proof {
            assert(rest[idx as int - 1] == args.deep_view()[idx as int]);
        }
        if flag_token(&args[idx], allow_delete) {
            return Some(args[idx].clone());
        }
        idx = idx + 1;
    }
    None
}

/// Matches the token sequence against the builtin table.  `None` means the
/// first token names no builtin, and the caller treats the line as a program
/// to spawn; a malformed use of a builtin name — wrong arity or an unknown
/// flag — resolves to a complaint and `Loop`, never to a spawn.
pub fn get_builtin(args: &Vec<String>, home: &str) -> (r: Option<Resolved>)
    requires
        args.len() > 0,
    ensures
        match r {
            Some(res) => spec_resolve(args.deep_view(), home@) == Some(resolved_view(res)),
            None => spec_resolve(args.deep_view(), home@) is None,
        },
{
    let cmd = args[0].as_str();
    let nargs = args.len();
    let is_exit = str_eq(cmd, "exit") || str_eq(cmd, "quit");
    let is_help = str_eq(cmd, "help");
    let is_dump = str_eq(cmd, "dump");
    let is_cd = str_eq(cmd, "cd");
    let is_echo = str_eq(cmd, "echo");
    let is_var = str_eq(cmd, "var");
    let is_register = str_eq(cmd, "register") || str_eq(cmd, "reg");
    let is_unregister = str_eq(cmd, "unregister") || str_eq(cmd, "unreg");
    let is_register_file = str_eq(cmd, "register-file") || str_eq(cmd, "regfile");
    let is_clear_register = str_eq(cmd, "clear-register") || str_eq(cmd, "clreg");
    if !(is_exit || is_help || is_dump || is_cd || is_echo || is_var || is_register
        || is_unregister || is_register_file || is_clear_register) {
        return None;
    }
    if let Some(tok) = find_flag(args, is_var) {
        let msg = args[0].clone().concat(": unknown flag ").concat(tok.as_str());
        return Some(Resolved { action: Action::Loop, output: Some(msg) });
    }
    if is_exit {
        if nargs == 1 {
            Some(
                Resolved {
                    action: Action::Exit(None),
                    output: None,
                },
            )
        } else {
            Some(
                Resolved {
                    action: Action::Loop,
                    output: Some(String::from_str("exit: expected no arguments")),
                },
            )
        }
    } else if is_help {
        if nargs == 1 {
            Some(
                Resolved {
                    action: Action::Loop,
                    output: Some(
                        String::from_str(
                            "Builtins:\n  exit | quit\n  help\n  dump\n  cd [DIR]\n  echo [ARGS...]\n  var NAME [VALUE] [-d|--delete]\n  register DIRS... (alias reg)\n  unregister DIRS... (alias unreg)\n  register-file FILE (alias regfile)\n  clear-register [DIRS...] (alias clreg)",
                        ),
                    ),
                },
            )
        } else {
            Some(
                Resolved {
                    action: Action::Loop,
                    output: Some(String::from_str("help: expected no arguments")),
                },
            )
        }
    } else if is_dump {
        if nargs == 1 {
            Some(
                Resolved {
                    action: Action::Dump,
                    output: None,
                },
            )
        } else {
            Some(
                Resolved {
                    action: Action::Loop,
                    output: Some(String::from_str("dump: expected no arguments")),
                },
            )
        }
    } else if is_cd {
        if nargs == 1 {
            Some(
                Resolved {
                    action: Action::ChDir(home.to_owned()),
                    output: None,
                },
            )
        } else if nargs == 2 {
            Some(
                Resolved {
                    action: Action::ChDir(args[1].clone()),
                    output: None,
                },
            )
        } else {
            Some(
                Resolved {
                    action: Action::Loop,
                    output: Some(String::from_str("cd: expected at most one argument")),
                },
            )
        }
    } else if is_echo {
        let joined = join_with_spaces(args, 1);
        Some(
            Resolved {
                action: Action::Loop,
                output: Some(joined),
            },
        )
    } else if is_var {
        resolve_var(args)
    } else if is_register {
        if nargs >= 2 {
            Some(
                Resolved {
                    action: Action::Register(tail_of(args)),
                    output: None,
                },
            )
        } else {
            Some(
                Resolved {
                    action: Action::Loop,
                    output: Some(String::from_str("register: expected at least one directory")),
                },
            )
        }
    } else if is_unregister {
        if nargs >= 2 {
            Some(
                Resolved {
                    action: Action::Unregister(tail_of(args)),
                    output: None,
                },
            )
        } else {
            Some(
                Resolved {
                    action: Action::Loop,
                    output: Some(String::from_str("unregister: expected at least one directory")),
                },
            )
        }
    } else if is_register_file {
        if nargs == 2 {
            Some(
                Resolved {
                    action: Action::RegisterFile(args[1].clone()),
                    output: None,
                },
            )
        } else {
            Some(
                Resolved {
                    action: Action::Loop,
                    output: Some(String::from_str("register-file: expected exactly one file")),
                },
            )
        }
    } else if is_clear_register {
        Some(
            Resolved {
                action: Action::ClearRegistry(tail_of(args)),
                output: None,
            },
        )
    } else {
        None
    }
}

/// Interprets the arguments of the `var` builtin: positionals in order, the
/// delete flag anywhere among them.
fn resolve_var(args: &Vec<String>) -> (r: Option<Resolved>)
    requires
        args.len() > 0,
    ensures
        match r {
            Some(res) => resolved_view(res) == spec_var_resolution(args.deep_view().skip(1)),
            None => false,
        },
{
    let ghost rest = args.deep_view().skip(1);
    let n = args.len();
    let mut pos: Vec<String> = Vec::new();
    let mut del = false;
    let mut idx: usize = 1;
    while idx < n
        invariant
            1 <= idx <= n,
            n == args.len(),
            rest == args.deep_view().skip(1),
            pos.deep_view() =~= var_positionals(rest.take(idx as int - 1)),
            del == var_has_delete(rest.take(idx as int - 1)),
        decreases n - idx,
    {
        let ghost shorter = rest.take(idx as int - 1);
        let ghost longer = rest.take(idx as int);
        proof {
            assert(longer.drop_last() =~= shorter);
            assert(longer.last() == rest[idx as int - 1]);
            assert(rest[idx as int - 1] == args.deep_view()[idx as int]);
        }
        let a = &args[idx];
        if str_eq(a.as_str(), "-d") || str_eq(a.as_str(), "--delete") {
            del = true;
            proof {
                assert(var_is_delete_flag(longer.last()));
                assert(var_has_delete(longer)) by {
                    assert(0 <= idx as int - 1 < longer.len() && var_is_delete_flag(
                        longer[idx as int - 1],
                    ));
                }
            }
        } else {
            let ghost pre = pos@;
            pos.push(a.clone());
            proof {
                assert(pos@ == pre.push(pos@[pre.len() as int]));
                assert(pos.deep_view() =~= var_positionals(shorter).push(longer.last()));
                if var_has_delete(shorter) {
                    let k = choose|k: int|
                        0 <= k < shorter.len() && var_is_delete_flag(#[trigger] shorter[k]);
                    assert(var_is_delete_flag(longer[k]));
                }
                if var_has_delete(longer) {
                    let k = choose|k: int|
                        0 <= k < longer.len() && var_is_delete_flag(#[trigger] longer[k]);
                    if k < idx as int - 1 {
                        assert(var_is_delete_flag(shorter[k]));
                    }
                }
            }
        }
        idx = idx + 1;
    }
    proof {
        assert(rest.take(n as int - 1) =~= rest);
    }
    if pos.len() == 0 || pos.len() > 2 {
        Some(
            Resolved {
                action: Action::Loop,
                output: Some(
                    String::from_str("var: expected NAME [VALUE] with optional -d/--delete"),
                ),
            },
        )
    } else if del {
        let name = pos[0].clone();
        Some(
            Resolved {
                action: Action::RemoveEnv { name },
                output: None,
            },
        )
    } else if pos.len() == 2 {
        let name = pos[0].clone();
        let value = pos[1].clone();
        Some(
            Resolved {
                action: Action::StoreEnv { name, value },
                output: None,
            },
        )
    } else {
        Some(
            Resolved {
                action: Action::Loop,
                output: Some(
                    String::from_str("var: expected NAME [VALUE] with optional -d/--delete"),
                ),
            },
        )
    }
}

/// How many backslashes the line ends with.
pub open spec fn trailing_backslashes(s: Seq<char>) -> int
    decreases s.len(),
{
    if s.len() == 0 || s.last() != '\\' {
        0
    } else {
        1 + trailing_backslashes(s.drop_last())
    }
}

/// A line asks for continuation exactly when it ends in an odd run of
/// backslashes: the last backslash is then unescaped.  An even run is a row
/// of escaped backslashes and the line stands as it is.
pub open spec fn ends_with_continuation(s: Seq<char>) -> bool {
    trailing_backslashes(s) % 2 == 1
}

proof fn lemma_trailing_run(s: Seq<char>, k: int)
    requires
        0 <= k <= s.len(),
        forall|l: int| k <= l < s.len() ==> s[l] == '\\',
        k == 0 || s[k - 1] != '\\',
    ensures
        trailing_backslashes(s) == s.len() - k,
    decreases s.len(),
{
    if s.len() == 0 {
    } else if k == s.len() {
    } else {
        assert(s.last() == '\\');
        assert forall|l: int| k <= l < s.drop_last().len() implies s.drop_last()[l] == '\\' by {
            assert(s[l] == '\\');
        }
        lemma_trailing_run(s.drop_last(), k);
    }
}

/// Counts the backslashes the line ends with.
pub fn trailing_backslash_count(line: &str) -> (r: usize)
    ensures
        r as int == trailing_backslashes(line@),
{
    let n = line.unicode_len();
    let mut k = n;
    while k > 0 && line.get_char(k - 1) == '\\'
        invariant
            0 <= k <= n,
            n == line@.len(),
            forall|l: int| k <= l < n ==> line@[l] == '\\',
        decreases k,
    {
        k = k - 1;
    }
    proof {
        lemma_trailing_run(line@, k as int);
    }
    n - k
}

/// What a tokenization failure reads as.
pub open spec fn lex_error_message(e: LexError) -> Seq<char> {
    match e {
        LexError::UnterminatedDoubleQuote => "Unterminated double quote"@,
        LexError::UnterminatedSingleQuote => "Unterminated single quote"@,
    }
}

/// What interpreting one raw line does, given the pending buffer: the action
/// and output for the driver, and the buffer contents afterwards.  A
/// continuation line is stored without its final backslash and nothing else
/// happens; any other line is joined with the buffer, and the joined line is
/// tokenized, expanded and resolved.
pub open spec fn spec_handle_line(
    buffer: Seq<char>,
    line: Seq<char>,
    env: Map<Seq<char>, Seq<char>>,
    home: Seq<char>,
) -> (ActionV, Option<Seq<char>>, Seq<char>) {
    if ends_with_continuation(line) {
        (ActionV::Buffer(line.drop_last()), None, buffer)
    } else {
        let res = spec_interpret(buffer + line, env, home);
        (res.0, res.1, Seq::empty())
    }
}

/// What one complete logical line does: a blank line does nothing, a line
/// that fails to tokenize is reported and does nothing, and any other line
/// resolves to a builtin or to a program invocation.
pub open spec fn spec_interpret(
    full: Seq<char>,
    env: Map<Seq<char>, Seq<char>>,
    home: Seq<char>,
) -> (ActionV, Option<Seq<char>>) {
    if is_blank(full) {
        (ActionV::Loop, None)
    } else {
        match spec_expand_line(full, env, home) {
            Err(e) => (ActionV::Loop, Some(lex_error_message(e))),
            Ok(args) => if args.len() == 0 {
                (ActionV::Loop, None)
            } else {
                match spec_resolve(args, home) {
                    Some(res) => res,
                    None => (ActionV::Execute(args), None),
                }
            },
        }
    }
}

/// Interprets one raw line against the session state.  The registry is never
/// touched here; the buffer is taken and cleared unless the line asks for
/// continuation, in which case the driver is told to push the stored part.
pub fn handle_line(ctx: &mut Context, env: &EnvState, home: &str, line: &str) -> (r: Resolved)
    requires
        old(ctx).wf(),
        env.wf(),
    ensures
        final(ctx).wf(),
        final(ctx).dir_entries() == old(ctx).dir_entries(),
        ({
            let (act, out, buf) = spec_handle_line(
                old(ctx).buffer_view(),
                line@,
                env.as_map(),
                home@,
            );
            resolved_view(r) == (act, out) && final(ctx).buffer_view() == buf
        }),
{
    let n = line.unicode_len();
    let tb = trailing_backslash_count(line);
    if tb % 2 == 1 {
        let store = line.substring_char(0, n - 1).to_owned();
        proof {
            assert(store@ =~= line@.drop_last());
        }
        return Resolved { action: Action::Buffer(store), output: None };
    }
    let full = ctx.take_buffer(line);
    if blank(full.as_str()) {
        return Resolved { action: Action::Loop, output: None };
    }
    match expand_line(full.as_str(), env, home) {
        Err(e) => {
            let msg = match e {
                LexError::UnterminatedDoubleQuote => String::from_str(
                    "Unterminated double quote",
                ),
                LexError::UnterminatedSingleQuote => String::from_str(
                    "Unterminated single quote",
                ),
            };
            Resolved { action: Action::Loop, output: Some(msg) }
        },
        Ok(args) => {
            if args.len() == 0 {
                Resolved { action: Action::Loop, output: None }
            } else {
                match get_builtin(&args, home) {
                    Some(res) => res,
                    None => Resolved { action: Action::Execute(args), output: None },
                }
            }
        },
    }
}

/// Continuation joins lines: a line ending in an unescaped backslash is
/// buffered without that final backslash and nothing is interpreted yet; a
/// following line that asks for no further continuation is interpreted as
/// the concatenation of the stored text and that line, as one logical line.
pub proof fn lemma_continuation_joins(
    buffer: Seq<char>,
    l1: Seq<char>,
    l2: Seq<char>,
    env: Map<Seq<char>, Seq<char>>,
    home: Seq<char>,
)
    requires
        ends_with_continuation(l1),
        !ends_with_continuation(l2),
    ensures
        spec_handle_line(buffer, l1, env, home) == (
            ActionV::Buffer(l1.drop_last()),
            None::<Seq<char>>,
            buffer,
        ),
        ({
            let joined = spec_interpret((buffer + l1.drop_last()) + l2, env, home);
            spec_handle_line(buffer + l1.drop_last(), l2, env, home) == (
                joined.0,
                joined.1,
                Seq::<char>::empty(),
            )
        }),
{
}

} // verus!
