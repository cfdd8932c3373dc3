use msh::lexer::{arg, double_quoted, single_quoted, tokenize, LexError};

fn toks(line: &str) -> Vec<String> {
    tokenize(line).expect("tokenize failed")
}

#[test]
fn splits_on_spaces() {
    assert_eq!(toks("a b"), vec!["a".to_string(), "b".to_string()]);
}

#[test]
fn splits_on_tabs_and_runs_of_blanks() {
    assert_eq!(toks("  a \t b   c "), vec!["a", "b", "c"]);
}

#[test]
fn keeps_double_quotes_in_token() {
    assert_eq!(toks("a \"b c\" d"), vec!["a", "\"b c\"", "d"]);
}

#[test]
fn keeps_single_quotes_in_token() {
    assert_eq!(toks("a 'b c' d"), vec!["a", "'b c'", "d"]);
}

#[test]
fn escaped_space_stays_in_token() {
    assert_eq!(toks("a\\ b"), vec!["a\\ b"]);
}

#[test]
fn escaped_quote_does_not_open_region() {
    assert_eq!(toks("a\\\"b c"), vec!["a\\\"b", "c"]);
}

#[test]
fn backslash_inside_double_quotes_escapes() {
    assert_eq!(toks("\"a\\\" b\" c"), vec!["\"a\\\" b\"", "c"]);
}

#[test]
fn empty_line_has_no_tokens() {
    assert_eq!(toks(""), Vec::<String>::new());
    assert_eq!(toks("   \t "), Vec::<String>::new());
}

#[test]
fn unterminated_double_quote_fails() {
    assert_eq!(tokenize("echo \"abc"), Err(LexError::UnterminatedDoubleQuote));
}

#[test]
fn unterminated_single_quote_fails() {
    assert_eq!(tokenize("echo 'abc"), Err(LexError::UnterminatedSingleQuote));
}

#[test]
fn tokenizer_recovers_after_error() {
    assert_eq!(tokenize("echo \"abc"), Err(LexError::UnterminatedDoubleQuote));
    assert_eq!(toks("echo ok"), vec!["echo", "ok"]);
}

#[test]
fn retokenizing_joined_tokens_is_identity() {
    for line in [
        "a b",
        "a \"b c\" d",
        "x 'y z' w",
        "cmd --flag \"two words\" 'lit $x' a\\ b",
        "x a\\",
        "a\\",
    ] {
        let first = toks(line);
        let joined = first.join(" ");
        let second = toks(&joined);
        assert_eq!(first, second, "line: {:?}", line);
    }
}

#[test]
fn arg_reports_token_and_end() {
    let (tok, end) = arg("foo bar", 0).expect("arg failed");
    assert_eq!(tok, "foo");
    assert_eq!(end, 3);
    let (tok2, end2) = arg("foo bar", 4).expect("arg failed");
    assert_eq!(tok2, "bar");
    assert_eq!(end2, 7);
}

#[test]
fn double_quoted_finds_closing_quote() {
    assert_eq!(double_quoted("\"ab\" x", 1), Ok(4));
    assert_eq!(double_quoted("\"a\\\"b\" x", 1), Ok(6));
    assert_eq!(
        double_quoted("\"abc", 1),
        Err(LexError::UnterminatedDoubleQuote)
    );
}

#[test]
fn single_quoted_finds_closing_quote() {
    assert_eq!(single_quoted("'ab' x", 1), Ok(4));
    assert_eq!(
        single_quoted("'abc", 1),
        Err(LexError::UnterminatedSingleQuote)
    );
}
