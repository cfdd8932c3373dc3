//! Splits one logical command line into word tokens.
//!
//! A token runs from a non-blank character to the next word separator that is
//! neither quoted nor escaped.  Double quotes open a region that ends at the
//! next unescaped double quote; single quotes open a verbatim region that ends
//! at the next single quote; a backslash outside single quotes escapes the
//! character after it.  Quote characters are kept inside the token: expansion
//! decides later what they mean.

use vstd::prelude::*;

verus! {

/// A line that ends inside a quoted region cannot be tokenized; the error
/// names the kind of quote left open.
#[derive(Debug, Clone, Copy, PartialEq, Eq, Structural)]
pub enum LexError {
    UnterminatedDoubleQuote,
    UnterminatedSingleQuote,
}

/// The characters that separate words: space and tab.
pub open spec fn is_word_sep(c: char) -> bool {
    c == ' ' || c == '\t'
}

/// Scanning a double-quoted region that begins at `i` (just after the opening
/// quote): the index just past the closing quote, or the error if the line
/// ends first.  A backslash skips the character after it.
pub open spec fn scan_double_quoted(s: Seq<char>, i: int) -> Result<int, LexError>
    decreases s.len() - i,
{
    if i < 0 || i >= s.len() {
        Err(LexError::UnterminatedDoubleQuote)
    } else if s[i] == '"' {
        Ok(i + 1)
    } else if s[i] == '\\' {
        if i + 2 <= s.len() {
            scan_double_quoted(s, i + 2)
        } else {
            Err(LexError::UnterminatedDoubleQuote)
        }
    } else {
        scan_double_quoted(s, i + 1)
    }
}

/// Scanning a single-quoted region that begins at `i` (just after the opening
/// quote): the index just past the closing quote.  Nothing escapes inside
/// single quotes.
pub open spec fn scan_single_quoted(s: Seq<char>, i: int) -> Result<int, LexError>
    decreases s.len() - i,
{
    if i < 0 || i >= s.len() {
        Err(LexError::UnterminatedSingleQuote)
    } else if s[i] == '\'' {
        Ok(i + 1)
    } else {
        scan_single_quoted(s, i + 1)
    }
}

pub proof fn lemma_scan_double_quoted_bounds(s: Seq<char>, i: int)
    requires
        0 <= i <= s.len(),
    ensures
        match scan_double_quoted(s, i) {
            Ok(j) => i < j <= s.len(),
            Err(_) => true,
        },
    decreases s.len() - i,
{
    if i >= s.len() {
    } else if s[i] == '"' {
    } else if s[i] == '\\' {
        if i + 2 <= s.len() {
            lemma_scan_double_quoted_bounds(s, i + 2);
        }
    } else {
        lemma_scan_double_quoted_bounds(s, i + 1);
    }
}

pub proof fn lemma_scan_single_quoted_bounds(s: Seq<char>, i: int)
    requires
        0 <= i <= s.len(),
    ensures
        match scan_single_quoted(s, i) {
            Ok(j) => i < j <= s.len(),
            Err(_) => true,
        },
    decreases s.len() - i,
{
    if i >= s.len() {
    } else if s[i] == '\'' {
    } else {
        lemma_scan_single_quoted_bounds(s, i + 1);
    }
}

/// Scanning one token that begins at `i`: the index of its end, which is the
/// first word separator outside quotes and escapes, or the end of the line.
/// At a separator or at the end of the line the result is `i` itself.
pub open spec fn scan_token(s: Seq<char>, i: int) -> Result<int, LexError>
    decreases s.len() - i,
{
    if i < 0 || i >= s.len() {
        Ok(if i < 0 { i } else { s.len() as int })
    } else if is_word_sep(s[i]) {
        Ok(i)
    } else if s[i] == '"' {
        match scan_double_quoted(s, i + 1) {
            Err(e) => Err(e),
            Ok(j) => {
                proof {
                    lemma_scan_double_quoted_bounds(s, i + 1);
                }
                scan_token(s, j)
            },
        }
    } else if s[i] == '\'' {
        match scan_single_quoted(s, i + 1) {
            Err(e) => Err(e),
            Ok(j) => {
                proof {
                    lemma_scan_single_quoted_bounds(s, i + 1);
                }
                scan_token(s, j)
            },
        }
    } else if s[i] == '\\' {
        if i + 2 <= s.len() {
            scan_token(s, i + 2)
        } else {
            Ok(s.len() as int)
        }
    } else {
        scan_token(s, i + 1)
    }
}

pub proof fn lemma_scan_token_bounds(s: Seq<char>, i: int)
    requires
        0 <= i <= s.len(),
    ensures
        match scan_token(s, i) {
            Ok(j) => i <= j <= s.len() && (i < s.len() && !is_word_sep(s[i]) ==> i < j),
            Err(_) => true,
        },
    decreases s.len() - i,
{
    if i >= s.len() {
    } else if is_word_sep(s[i]) {
    } else if s[i] == '"' {
        lemma_scan_double_quoted_bounds(s, i + 1);
        if let Ok(j) = scan_double_quoted(s, i + 1) {
            lemma_scan_token_bounds(s, j);
        }
    } else if s[i] == '\'' {
        lemma_scan_single_quoted_bounds(s, i + 1);
        if let Ok(j) = scan_single_quoted(s, i + 1) {
            lemma_scan_token_bounds(s, j);
        }
    } else if s[i] == '\\' {
        if i + 2 <= s.len() {
            lemma_scan_token_bounds(s, i + 2);
        }
    } else {
        lemma_scan_token_bounds(s, i + 1);
    }
}

/// The token sequence of the line from `i` on: separators are skipped, and
/// each token is the span the scanner found for it, quotes and escapes kept.
pub open spec fn scan_tokens(s: Seq<char>, i: int) -> Result<Seq<Seq<char>>, LexError>
    decreases s.len() - i,
{
    if i < 0 || i >= s.len() {
        Ok(Seq::empty())
    } else if is_word_sep(s[i]) {
        scan_tokens(s, i + 1)
    } else {
        match scan_token(s, i) {
            Err(e) => Err(e),
            Ok(j) => {
                proof {
                    lemma_scan_token_bounds(s, i);
                }
                match scan_tokens(s, j) {
                    Err(e) => Err(e),
                    Ok(rest) => Ok(seq![s.subrange(i, j)] + rest),
                }
            },
        }
    }
}

/// What tokenizing a whole line yields.
pub open spec fn spec_tokenize(s: Seq<char>) -> Result<Seq<Seq<char>>, LexError> {
    scan_tokens(s, 0)
}

/// Finds the end of the double-quoted region that begins at `start`, which is
/// the position just after the opening quote.  Returns the index just past
/// the closing quote.
pub fn double_quoted(line: &str, start: usize) -> (r: Result<usize, LexError>)
    requires
        start <= line@.len(),
    ensures
        match scan_double_quoted(line@, start as int) {
            Ok(j) => r is Ok && r->Ok_0 as int == j,
            Err(e) => r == Err::<usize, LexError>(e),
        },
{
    let n = line.unicode_len();
    let mut i = start;
    loop
        invariant
            start <= i <= n,
            n == line@.len(),
            scan_double_quoted(line@, start as int) == scan_double_quoted(line@, i as int),
        decreases n - i,
    {
        if i >= n {
            return Err(LexError::UnterminatedDoubleQuote);
        }
        let c = line.get_char(i);
        if c == '"' {
            return Ok(i + 1);
        } else if c == '\\' {
            if n - i >= 2 {
                i = i + 2;
            } else {
                return Err(LexError::UnterminatedDoubleQuote);
            }
        } else {
            i = i + 1;
        }
    }
}

/// Finds the end of the single-quoted region that begins at `start`, which is
/// the position just after the opening quote.  Returns the index just past
/// the closing quote.
pub fn single_quoted(line: &str, start: usize) -> (r: Result<usize, LexError>)
    requires
        start <= line@.len(),
    ensures
        match scan_single_quoted(line@, start as int) {
            Ok(j) => r is Ok && r->Ok_0 as int == j,
            Err(e) => r == Err::<usize, LexError>(e),
        },
{
    let n = line.unicode_len();
    let mut i = start;
    loop
        invariant
            start <= i <= n,
            n == line@.len(),
            scan_single_quoted(line@, start as int) == scan_single_quoted(line@, i as int),
        decreases n - i,
    {
        if i >= n {
            return Err(LexError::UnterminatedSingleQuote);
        }
        let c = line.get_char(i);
        if c == '\'' {
            return Ok(i + 1);
        } else {
            i = i + 1;
        }
    }
}

/// Scans the token that begins at `start` and returns it together with the
/// index of its end.  At a separator or at the end of the line the token is
/// empty.
pub fn arg<'a>(line: &'a str, start: usize) -> (r: Result<(&'a str, usize), LexError>)
    requires
        start <= line@.len(),
    ensures
        match scan_token(line@, start as int) {
            Ok(j) => r is Ok && r->Ok_0.0@ == line@.subrange(start as int, j) && r->Ok_0.1 as int
                == j,
            Err(e) => r == Err::<(&'a str, usize), LexError>(e),
        },
{
    let n = line.unicode_len();
    let mut i = start;
    loop
        invariant
            start <= i <= n,
            n == line@.len(),
            scan_token(line@, start as int) == scan_token(line@, i as int),
        decreases n - i,
    {
        if i >= n {
            return Ok((line.substring_char(start, i), i));
        }
        let c = line.get_char(i);
        if c == ' ' || c == '\t' {
            return Ok((line.substring_char(start, i), i));
        } else if c == '"' {
            match double_quoted(line, i + 1) {
                Ok(j) => {
                    proof {
                        lemma_scan_double_quoted_bounds(line@, i + 1);
                    }
                    i = j;
                },
                Err(e) => {
                    return Err(e);
                },
            }
        } else if c == '\'' {
            match single_quoted(line, i + 1) {
                Ok(j) => {
                    proof {
                        lemma_scan_single_quoted_bounds(line@, i + 1);
                    }
                    i = j;
                },
                Err(e) => {
                    return Err(e);
                },
            }
        } else if c == '\\' {
            if n - i >= 2 {
                i = i + 2;
            } else {
                i = n;
            }
        } else {
            i = i + 1;
        }
    }
}

/// Splits a line into its tokens, left to right.  Fails exactly when the line
/// ends inside a quoted region, and the session goes on: the error concerns
/// that line alone.
pub fn tokenize(line: &str) -> (r: Result<Vec<String>, LexError>)
    ensures
        match spec_tokenize(line@) {
            Ok(toks) => r is Ok && r->Ok_0.deep_view() == toks,
            Err(e) => r == Err::<Vec<String>, LexError>(e),
        },
{
    let n = line.unicode_len();
    let mut args: Vec<String> = Vec::new();
    let mut i: usize = 0;
    loop
        invariant
            0 <= i <= n,
            n == line@.len(),
            scan_tokens(line@, 0) == (match scan_tokens(line@, i as int) {
                Ok(rest) => Ok::<Seq<Seq<char>>, LexError>(args.deep_view() + rest),
                Err(e) => Err::<Seq<Seq<char>>, LexError>(e),
            }),
        decreases n - i,
    {
        if i >= n {
            proof {
                assert(args.deep_view() + Seq::<Seq<char>>::empty() =~= args.deep_view());
            }
            return Ok(args);
        }
        let c = line.get_char(i);
        if c == ' ' || c == '\t' {
            i = i + 1;
        } else {
            match arg(line, i) {
                Ok((tok, j)) => {
                    proof {
                        lemma_scan_token_bounds(line@, i as int);
                    }
                    let ghost old_args = args.deep_view();
                    let ghost tok_view = tok@;
                    args.push(tok.to_owned());
                    proof {
                        assert(args.deep_view() =~= old_args + seq![tok_view]);
                        if let Ok(rest) = scan_tokens(line@, j as int) {
                            assert(old_args + (seq![tok_view] + rest) =~= (old_args + seq![
                                tok_view,
                            ]) + rest);
                        }
                    }
                    i = j;
                },
                Err(e) => {
                    return Err(e);
                },
            }
        }
    }
}

} // verus!
