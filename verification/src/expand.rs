//! Expansion of one token: escapes, `$NAME` variables, and `~`.
//!
//! A token that begins with a single quote is literal and comes back
//! unchanged, quotes and all.  In any other token, a backslash makes the
//! character after it literal (a backslash that ends the token expands to
//! nothing), `$` followed by a name run is replaced by the variable's value
//! or kept literally when the variable is unset, and `~` is replaced by the
//! home directory wherever it stands.

use vstd::prelude::*;

use crate::env::EnvState;
use crate::lexer::{spec_tokenize, tokenize, LexError};

verus! {

/// The characters a variable name is made of: letters, digits, underscore.
pub open spec fn is_name_char(c: char) -> bool {
    ('a' as u32 <= c as u32 && c as u32 <= 'z' as u32) || ('A' as u32 <= c as u32 && c as u32
        <= 'Z' as u32) || ('0' as u32 <= c as u32 && c as u32 <= '9' as u32) || c == '_'
}

/// How many name characters follow position `i`.
pub open spec fn name_len(s: Seq<char>, i: int) -> int
    decreases s.len() - i,
{
    if i < 0 || i >= s.len() || !is_name_char(s[i]) {
        0
    } else {
        1 + name_len(s, i + 1)
    }
}

pub proof fn lemma_name_len_bounds(s: Seq<char>, i: int)
    requires
        0 <= i <= s.len(),
    ensures
        0 <= name_len(s, i) <= s.len() - i,
    decreases s.len() - i,
{
    if i < s.len() && is_name_char(s[i]) {
        lemma_name_len_bounds(s, i + 1);
    }
}

proof fn lemma_name_len_run(s: Seq<char>, a: int, b: int)
    requires
        0 <= a <= b <= s.len(),
        forall|l: int| a <= l < b ==> is_name_char(#[trigger] s[l]),
        b == s.len() || !is_name_char(s[b]),
    ensures
        name_len(s, a) == b - a,
    decreases b - a,
{
    if a < b {
        lemma_name_len_run(s, a + 1, b);
    }
}

/// What the scan from position `i` to the end of the token expands to.
pub open spec fn spec_expand_chars(
    s: Seq<char>,
    i: int,
    env: Map<Seq<char>, Seq<char>>,
    home: Seq<char>,
) -> Seq<char>
    decreases s.len() - i,
{
    if i < 0 || i >= s.len() {
        Seq::empty()
    } else if s[i] == '\\' {
        if i + 2 <= s.len() {
            seq![s[i + 1]] + spec_expand_chars(s, i + 2, env, home)
        } else {
            Seq::empty()
        }
    } else if s[i] == '$' {
        let k = name_len(s, i + 1);
        proof {
            lemma_name_len_bounds(s, i + 1);
        }
        if k == 0 {
            seq!['$'] + spec_expand_chars(s, i + 1, env, home)
        } else {
            let name = s.subrange(i + 1, i + 1 + k);
            (if env.contains_key(name) {
                env[name]
            } else {
                seq!['$'] + name
            }) + spec_expand_chars(s, i + 1 + k, env, home)
        }
    } else if s[i] == '~' {
        home + spec_expand_chars(s, i + 1, env, home)
    } else {
        seq![s[i]] + spec_expand_chars(s, i + 1, env, home)
    }
}

/// What one whole token expands to: single-quoted tokens stay verbatim,
/// every other token is scanned character by character.
pub open spec fn spec_expand_token(
    t: Seq<char>,
    env: Map<Seq<char>, Seq<char>>,
    home: Seq<char>,
) -> Seq<char> {
    if t.len() > 0 && t[0] == '\'' {
        t
    } else {
        spec_expand_chars(t, 0, env, home)
    }
}

/// A token that was single-quoted comes back from expansion exactly as it
/// went in, whatever the environment and home directory are.
pub proof fn lemma_single_quoted_literal(
    t: Seq<char>,
    env: Map<Seq<char>, Seq<char>>,
    home: Seq<char>,
)
    requires
        t.len() > 0,
        t[0] == '\'',
    ensures
        spec_expand_token(t, env, home) == t,
{
}

fn name_char(c: char) -> (r: bool)
    ensures
        r == is_name_char(c),
{
    let u = c as u32;
    (97 <= u && u <= 122) || (65 <= u && u <= 90) || (48 <= u && u <= 57) || u == 95
}

/// Expands one token against the environment overlay and the home directory.
pub fn expand_var(s: &str, env: &EnvState, home: &str) -> (r: String)
    requires
        env.wf(),
    ensures
        r@ == spec_expand_token(s@, env.as_map(), home@),
{
    let n = s.unicode_len();
    if n > 0 && s.get_char(0) == '\'' {
        return s.to_owned();
    }
    let ghost envm = env.as_map();
    let mut buf = String::new();
    let mut i: usize = 0;
    while i < n
        invariant
            0 <= i <= n,
            n == s@.len(),
            env.wf(),
            envm == env.as_map(),
            buf@ + spec_expand_chars(s@, i as int, envm, home@) == spec_expand_chars(
                s@,
                0,
                envm,
                home@,
            ),
        decreases n - i,
    {
        let ghost pre = buf@;
        let c = s.get_char(i);
        if c == '\\' {
            if n - i >= 2 {
                buf.append(s.substring_char(i + 1, i + 2));
                proof {
                    assert(s@.subrange(i as int + 1, i as int + 2) =~= seq![s@[i as int + 1]]);
                    assert(buf@ + spec_expand_chars(s@, i as int + 2, envm, home@) =~= pre
                        + spec_expand_chars(s@, i as int, envm, home@));
                }
                i = i + 2;
            } else {
                proof {
                    assert(spec_expand_chars(s@, i as int, envm, home@) =~= Seq::<char>::empty());
                    assert(buf@ + spec_expand_chars(s@, n as int, envm, home@) =~= buf@
                        + spec_expand_chars(s@, i as int, envm, home@));
                }
                i = n;
            }
        } else if c == '$' {
            let start = i + 1;
            let mut j = start;
            while j < n && name_char(s.get_char(j))
                invariant
                    start <= j <= n,
                    n == s@.len(),
                    forall|l: int| start <= l < j ==> is_name_char(#[trigger] s@[l]),
                decreases n - j,
            {
                j = j + 1;
            }
            proof {
                lemma_name_len_run(s@, start as int, j as int);
            }
            if j == start {
                buf.append("$");
                proof {
                    reveal_strlit("$");
                    assert("$"@ =~= seq!['$']);
                    assert(buf@ + spec_expand_chars(s@, start as int, envm, home@) =~= pre
                        + spec_expand_chars(s@, i as int, envm, home@));
                }
                i = start;
            } else {
                let name = s.substring_char(start, j).to_owned();
                proof {
                    assert(name@ == s@.subrange(start as int, j as int));
                }
                match env.get(&name) {
                    Some(v) => {
                        buf.append(v.as_str());
                        proof {
                            assert(buf@ + spec_expand_chars(s@, j as int, envm, home@) =~= pre
                                + spec_expand_chars(s@, i as int, envm, home@));
                        }
                    },
                    None => {
                        buf.append("$");
                        buf.append(name.as_str());
                        proof {
                            reveal_strlit("$");
                            assert("$"@ =~= seq!['$']);
                            assert(buf@ + spec_expand_chars(s@, j as int, envm, home@) =~= pre
                                + spec_expand_chars(s@, i as int, envm, home@));
                        }
                    },
                }
                i = j;
            }
        } else if c == '~' {
            buf.append(home);
            proof {
                assert(buf@ + spec_expand_chars(s@, i as int + 1, envm, home@) =~= pre
                    + spec_expand_chars(s@, i as int, envm, home@));
            }
            i = i + 1;
        } else {
            buf.append(s.substring_char(i, i + 1));
            proof {
                assert(s@.subrange(i as int, i as int + 1) =~= seq![s@[i as int]]);
                assert(buf@ + spec_expand_chars(s@, i as int + 1, envm, home@) =~= pre
                    + spec_expand_chars(s@, i as int, envm, home@));
            }
            i = i + 1;
        }
    }
    proof {
        assert(buf@ + Seq::<char>::empty() =~= buf@);
    }
    buf
}

/// What a whole line yields once tokenized and expanded.
pub open spec fn spec_expand_line(
    s: Seq<char>,
    env: Map<Seq<char>, Seq<char>>,
    home: Seq<char>,
) -> Result<Seq<Seq<char>>, LexError> {
    match spec_tokenize(s) {
        Ok(toks) => Ok(toks.map_values(|t: Seq<char>| spec_expand_token(t, env, home))),
        Err(e) => Err(e),
    }
}

/// Tokenizes a line and expands each token, left to right.  Fails exactly
/// when tokenization fails.
pub fn expand_line(line: &str, env: &EnvState, home: &str) -> (r: Result<Vec<String>, LexError>)
    requires
        env.wf(),
    ensures
        match spec_expand_line(line@, env.as_map(), home@) {
            Ok(toks) => r is Ok && r->Ok_0.deep_view() == toks,
            Err(e) => r == Err::<Vec<String>, LexError>(e),
        },
{
    let ghost envm = env.as_map();
    match tokenize(line) {
        Err(e) => Err(e),
        Ok(toks) => {
            let ghost toks_view = toks.deep_view();
            let count = toks.len();
            let mut out: Vec<String> = Vec::new();
            let mut idx: usize = 0;
            while idx < count
                invariant
                    0 <= idx <= count,
                    count == toks.len(),
                    env.wf(),
                    envm == env.as_map(),
                    toks_view == toks.deep_view(),
                    out.len() == idx,
                    forall|k: int|
                        0 <= k < idx ==> out.deep_view()[k] == spec_expand_token(
                            #[trigger] toks_view[k],
                            envm,
                            home@,
                        ),
                decreases count - idx,
            {
                let ghost old_out = out@;
                let expanded = expand_var(toks[idx].as_str(), env, home);
                out.push(expanded);
                proof {
                    assert(out@ == old_out.push(expanded));
                    assert forall|k: int| 0 <= k < idx as int + 1 implies out.deep_view()[k]
                        == spec_expand_token(#[trigger] toks_view[k], envm, home@) by {
                        if k < idx as int {
                            assert(out@[k] == old_out[k]);
                        } else {
                            assert(out@[k] == expanded);
                        }
                    }
                }
                idx = idx + 1;
            }
            proof {
                let f = |t: Seq<char>| spec_expand_token(t, envm, home@);
                assert forall|k: int| 0 <= k < count as int implies out.deep_view()[k]
                    == toks_view.map_values(f)[k] by {
                    assert(out.deep_view()[k] == spec_expand_token(toks_view[k], envm, home@));
                }
                assert(out.deep_view() =~= toks_view.map_values(f));
            }
            Ok(out)
        },
    }
}

} // verus!
