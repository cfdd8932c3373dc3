//! Laws of the tokenizer.
//!
//! The central statement: joining well-formed tokens with single spaces and
//! tokenizing the result gives back exactly those tokens, so tokenization is
//! idempotent on lines that are already in token form.

use vstd::prelude::*;

use crate::lexer::{
    is_word_sep, scan_double_quoted, scan_single_quoted, scan_token, scan_tokens, spec_tokenize,
    LexError,
};

verus! {

/// A well-formed token: non-empty, scanned in full when it stands alone, and
/// scanned in full when a separator follows it.  The second condition rules
/// out a token whose final backslash would swallow a separator appended after
/// it.
pub open spec fn wf_token(t: Seq<char>) -> bool {
    &&& t.len() > 0
    &&& scan_token(t, 0) == Ok::<int, LexError>(t.len() as int)
    &&& scan_token(t.push(' '), 0) == Ok::<int, LexError>(t.len() as int)
}

/// The tokens joined back into one line, one space between each pair.
pub open spec fn join_tokens(toks: Seq<Seq<char>>) -> Seq<char>
    decreases toks.len(),
{
    if toks.len() == 0 {
        Seq::empty()
    } else if toks.len() == 1 {
        toks[0]
    } else {
        toks[0] + seq![' '] + join_tokens(toks.drop_first())
    }
}

proof fn lemma_scan_double_quoted_shift(s1: Seq<char>, i1: int, s2: Seq<char>, i2: int)
    requires
        0 <= i1 <= s1.len(),
        0 <= i2 <= s2.len(),
        s1.len() - i1 == s2.len() - i2,
        forall|k: int| 0 <= k < s1.len() - i1 ==> #[trigger] s1[i1 + k] == s2[i2 + k],
    ensures
        match scan_double_quoted(s1, i1) {
            Ok(j) => scan_double_quoted(s2, i2) == Ok::<int, LexError>(j - i1 + i2),
            Err(e) => scan_double_quoted(s2, i2) == Err::<int, LexError>(e),
        },
    decreases s1.len() - i1,
{
    if i1 >= s1.len() {
    } else {
        assert(s1[i1 + 0] == s2[i2 + 0]);
        if s1[i1] == '"' {
        } else if s1[i1] == '\\' {
            if i1 + 2 <= s1.len() {
                assert forall|k: int| 0 <= k < s1.len() - (i1 + 2) implies #[trigger] s1[(i1 + 2) + k] == s2[(i2 + 2) + k] by {
                    assert(s1[i1 + (k + 2)] == s2[i2 + (k + 2)]);
                }
                lemma_scan_double_quoted_shift(s1, i1 + 2, s2, i2 + 2);
            }
        } else {
            assert forall|k: int| 0 <= k < s1.len() - (i1 + 1) implies #[trigger] s1[(i1 + 1) + k] == s2[(i2 + 1) + k] by {
                assert(s1[i1 + (k + 1)] == s2[i2 + (k + 1)]);
            }
            lemma_scan_double_quoted_shift(s1, i1 + 1, s2, i2 + 1);
        }
    }
}

proof fn lemma_scan_single_quoted_shift(s1: Seq<char>, i1: int, s2: Seq<char>, i2: int)
    requires
        0 <= i1 <= s1.len(),
        0 <= i2 <= s2.len(),
        s1.len() - i1 == s2.len() - i2,
        forall|k: int| 0 <= k < s1.len() - i1 ==> #[trigger] s1[i1 + k] == s2[i2 + k],
    ensures
        match scan_single_quoted(s1, i1) {
            Ok(j) => scan_single_quoted(s2, i2) == Ok::<int, LexError>(j - i1 + i2),
            Err(e) => scan_single_quoted(s2, i2) == Err::<int, LexError>(e),
        },
    decreases s1.len() - i1,
{
    if i1 >= s1.len() {
    } else {
        assert(s1[i1 + 0] == s2[i2 + 0]);
        if s1[i1] == '\'' {
        } else {
            assert forall|k: int| 0 <= k < s1.len() - (i1 + 1) implies #[trigger] s1[(i1 + 1) + k] == s2[(i2 + 1) + k] by {
                assert(s1[i1 + (k + 1)] == s2[i2 + (k + 1)]);
            }
            lemma_scan_single_quoted_shift(s1, i1 + 1, s2, i2 + 1);
        }
    }
}

proof fn lemma_scan_token_shift(s1: Seq<char>, i1: int, s2: Seq<char>, i2: int)
    requires
        0 <= i1 <= s1.len(),
        0 <= i2 <= s2.len(),
        s1.len() - i1 == s2.len() - i2,
        forall|k: int| 0 <= k < s1.len() - i1 ==> #[trigger] s1[i1 + k] == s2[i2 + k],
    ensures
        match scan_token(s1, i1) {
            Ok(j) => scan_token(s2, i2) == Ok::<int, LexError>(j - i1 + i2),
            Err(e) => scan_token(s2, i2) == Err::<int, LexError>(e),
        },
    decreases s1.len() - i1,
{
    if i1 >= s1.len() {
    } else {
        assert(s1[i1 + 0] == s2[i2 + 0]);
        if is_word_sep(s1[i1]) {
        } else if s1[i1] == '"' {
            assert forall|k: int| 0 <= k < s1.len() - (i1 + 1) implies #[trigger] s1[(i1 + 1) + k] == s2[(i2 + 1) + k] by {
                assert(s1[i1 + (k + 1)] == s2[i2 + (k + 1)]);
            }
            lemma_scan_double_quoted_shift(s1, i1 + 1, s2, i2 + 1);
            if let Ok(j) = scan_double_quoted(s1, i1 + 1) {
                crate::lexer::lemma_scan_double_quoted_bounds(s1, i1 + 1);
                assert forall|k: int| 0 <= k < s1.len() - j implies #[trigger] s1[j + k] == s2[(j - i1 + i2) + k] by {
                    assert(s1[i1 + ((j - i1) + k)] == s2[i2 + ((j - i1) + k)]);
                }
                lemma_scan_token_shift(s1, j, s2, j - i1 + i2);
            }
        } else if s1[i1] == '\'' {
            assert forall|k: int| 0 <= k < s1.len() - (i1 + 1) implies #[trigger] s1[(i1 + 1) + k] == s2[(i2 + 1) + k] by {
                assert(s1[i1 + (k + 1)] == s2[i2 + (k + 1)]);
            }
            lemma_scan_single_quoted_shift(s1, i1 + 1, s2, i2 + 1);
            if let Ok(j) = scan_single_quoted(s1, i1 + 1) {
                crate::lexer::lemma_scan_single_quoted_bounds(s1, i1 + 1);
                assert forall|k: int| 0 <= k < s1.len() - j implies #[trigger] s1[j + k] == s2[(j - i1 + i2) + k] by {
                    assert(s1[i1 + ((j - i1) + k)] == s2[i2 + ((j - i1) + k)]);
                }
                lemma_scan_token_shift(s1, j, s2, j - i1 + i2);
            }
        } else if s1[i1] == '\\' {
            if i1 + 2 <= s1.len() {
                assert forall|k: int| 0 <= k < s1.len() - (i1 + 2) implies #[trigger] s1[(i1 + 2) + k] == s2[(i2 + 2) + k] by {
                    assert(s1[i1 + (k + 2)] == s2[i2 + (k + 2)]);
                }
                lemma_scan_token_shift(s1, i1 + 2, s2, i2 + 2);
            }
        } else {
            assert forall|k: int| 0 <= k < s1.len() - (i1 + 1) implies #[trigger] s1[(i1 + 1) + k] == s2[(i2 + 1) + k] by {
                assert(s1[i1 + (k + 1)] == s2[i2 + (k + 1)]);
            }
            lemma_scan_token_shift(s1, i1 + 1, s2, i2 + 1);
        }
    }
}

/// Tokenizing two lines whose suffixes agree from the given positions on
/// gives the same result.
proof fn lemma_scan_tokens_shift(s1: Seq<char>, i1: int, s2: Seq<char>, i2: int)
    requires
        0 <= i1 <= s1.len(),
        0 <= i2 <= s2.len(),
        s1.len() - i1 == s2.len() - i2,
        forall|k: int| 0 <= k < s1.len() - i1 ==> #[trigger] s1[i1 + k] == s2[i2 + k],
    ensures
        scan_tokens(s1, i1) == scan_tokens(s2, i2),
    decreases s1.len() - i1,
{
    if i1 >= s1.len() {
    } else {
        assert(s1[i1 + 0] == s2[i2 + 0]);
        if is_word_sep(s1[i1]) {
            assert forall|k: int| 0 <= k < s1.len() - (i1 + 1) implies #[trigger] s1[(i1 + 1) + k] == s2[(i2 + 1) + k] by {
                assert(s1[i1 + (k + 1)] == s2[i2 + (k + 1)]);
            }
            lemma_scan_tokens_shift(s1, i1 + 1, s2, i2 + 1);
        } else {
            lemma_scan_token_shift(s1, i1, s2, i2);
            if let Ok(j) = scan_token(s1, i1) {
                crate::lexer::lemma_scan_token_bounds(s1, i1);
                let j2 = j - i1 + i2;
                assert forall|m: int| 0 <= m < j - i1 implies s1.subrange(i1, j)[m]
                    == s2.subrange(i2, j2)[m] by {
                    assert(s1[i1 + m] == s2[i2 + m]);
                }
                assert(s1.subrange(i1, j) =~= s2.subrange(i2, j2));
                assert forall|k: int| 0 <= k < s1.len() - j implies #[trigger] s1[j + k] == s2[j2 + k] by {
                    assert(s1[i1 + ((j - i1) + k)] == s2[i2 + ((j - i1) + k)]);
                }
                lemma_scan_tokens_shift(s1, j, s2, j2);
            }
        }
    }
}

proof fn lemma_scan_double_quoted_extend(s: Seq<char>, ext: Seq<char>, i: int, j: int)
    requires
        0 <= i <= s.len(),
        scan_double_quoted(s, i) == Ok::<int, LexError>(j),
    ensures
        scan_double_quoted(s + ext, i) == Ok::<int, LexError>(j),
    decreases s.len() - i,
{
    if i >= s.len() {
    } else if s[i] == '"' {
    } else if s[i] == '\\' {
        if i + 2 <= s.len() {
            lemma_scan_double_quoted_extend(s, ext, i + 2, j);
        }
    } else {
        lemma_scan_double_quoted_extend(s, ext, i + 1, j);
    }
}

proof fn lemma_scan_single_quoted_extend(s: Seq<char>, ext: Seq<char>, i: int, j: int)
    requires
        0 <= i <= s.len(),
        scan_single_quoted(s, i) == Ok::<int, LexError>(j),
    ensures
        scan_single_quoted(s + ext, i) == Ok::<int, LexError>(j),
    decreases s.len() - i,
{
    if i >= s.len() {
    } else if s[i] == '\'' {
    } else {
        lemma_scan_single_quoted_extend(s, ext, i + 1, j);
    }
}

/// A token scan that stops strictly before the end of the line stops at the
/// same place when more text follows: it never looked past its separator.
proof fn lemma_scan_token_extend(s: Seq<char>, ext: Seq<char>, i: int, j: int)
    requires
        0 <= i <= s.len(),
        scan_token(s, i) == Ok::<int, LexError>(j),
        j < s.len(),
    ensures
        scan_token(s + ext, i) == Ok::<int, LexError>(j),
    decreases s.len() - i,
{
    if i >= s.len() {
    } else if is_word_sep(s[i]) {
    } else if s[i] == '"' {
        if let Ok(m) = scan_double_quoted(s, i + 1) {
            crate::lexer::lemma_scan_double_quoted_bounds(s, i + 1);
            lemma_scan_double_quoted_extend(s, ext, i + 1, m);
            lemma_scan_token_extend(s, ext, m, j);
        }
    } else if s[i] == '\'' {
        if let Ok(m) = scan_single_quoted(s, i + 1) {
            crate::lexer::lemma_scan_single_quoted_bounds(s, i + 1);
            lemma_scan_single_quoted_extend(s, ext, i + 1, m);
            lemma_scan_token_extend(s, ext, m, j);
        }
    } else if s[i] == '\\' {
        if i + 2 <= s.len() {
            lemma_scan_token_extend(s, ext, i + 2, j);
        }
    } else {
        lemma_scan_token_extend(s, ext, i + 1, j);
    }
}

/// Joining tokens with single spaces and tokenizing the joined line yields
/// exactly the tokens again.  Every token but the last must be well-formed;
/// of the last, which the join puts at the end of the line where no
/// separator follows it, it is enough that it scans in full on its own.
pub proof fn lemma_tokenize_join(toks: Seq<Seq<char>>)
    requires
        forall|k: int| 0 <= k < toks.len() - 1 ==> wf_token(#[trigger] toks[k]),
        toks.len() > 0 ==> toks.last().len() > 0 && scan_token(toks.last(), 0) == Ok::<
            int,
            LexError,
        >(toks.last().len() as int),
    ensures
        spec_tokenize(join_tokens(toks)) == Ok::<Seq<Seq<char>>, LexError>(toks),
    decreases toks.len(),
{
    let s = join_tokens(toks);
    if toks.len() == 0 {
        assert(toks =~= Seq::<Seq<char>>::empty());
    } else {
        let t = toks[0];
        if toks.len() == 1 {
            assert(t == toks.last());
            assert(s == t);
            assert(!is_word_sep(t[0]));
            assert(scan_token(s, 0) == Ok::<int, LexError>(t.len() as int));
            assert(s.subrange(0, t.len() as int) =~= t);
            assert(scan_tokens(s, t.len() as int) == Ok::<Seq<Seq<char>>, LexError>(
                Seq::empty(),
            ));
            assert(seq![t] + Seq::<Seq<char>>::empty() =~= toks);
        } else {
            assert(wf_token(t));
            let rest = toks.drop_first();
            let tail = join_tokens(rest);
            assert(s == t + seq![' '] + tail);
            let tsp = t.push(' ');
            assert(tsp =~= t + seq![' ']);
            assert(scan_token(tsp, 0) == Ok::<int, LexError>(t.len() as int));
            lemma_scan_token_extend(tsp, tail, 0, t.len() as int);
            assert(tsp + tail =~= s);
            assert(scan_token(s, 0) == Ok::<int, LexError>(t.len() as int));
            assert(s[0] == t[0]);
            assert(!is_word_sep(t[0]));
            assert(s.subrange(0, t.len() as int) =~= t);
            // after the token comes the separator, then the joined rest
            assert(s[t.len() as int] == ' ');
            assert forall|k: int| 0 <= k < s.len() - (t.len() as int + 1) implies #[trigger] s[(t.len() as int + 1) + k] == tail[0 + k] by {
                assert(s[(t.len() as int + 1) + k] == tail[k]);
            }
            assert forall|k: int| 0 <= k < rest.len() - 1 implies wf_token(
                #[trigger] rest[k],
            ) by {
                assert(toks[k + 1] == rest[k]);
            }
            assert(rest.last() == toks.last());
            lemma_tokenize_join(rest);
            lemma_scan_tokens_shift(s, t.len() as int + 1, tail, 0);
            assert(scan_tokens(s, t.len() as int + 1) == Ok::<Seq<Seq<char>>, LexError>(rest));
            assert(scan_tokens(s, t.len() as int) == scan_tokens(s, t.len() as int + 1));
            assert(seq![t] + rest =~= toks);
        }
    }
}

proof fn lemma_scan_token_stop(s: Seq<char>, i: int)
    requires
        0 <= i <= s.len(),
    ensures
        match scan_token(s, i) {
            Ok(j) => j == s.len() || (0 <= j < s.len() && is_word_sep(s[j])),
            Err(_) => true,
        },
    decreases s.len() - i,
{
    if i >= s.len() {
    } else if is_word_sep(s[i]) {
    } else if s[i] == '"' {
        if let Ok(m) = scan_double_quoted(s, i + 1) {
            crate::lexer::lemma_scan_double_quoted_bounds(s, i + 1);
            lemma_scan_token_stop(s, m);
        }
    } else if s[i] == '\'' {
        if let Ok(m) = scan_single_quoted(s, i + 1) {
            crate::lexer::lemma_scan_single_quoted_bounds(s, i + 1);
            lemma_scan_token_stop(s, m);
        }
    } else if s[i] == '\\' {
        if i + 2 <= s.len() {
            lemma_scan_token_stop(s, i + 2);
        }
    } else {
        lemma_scan_token_stop(s, i + 1);
    }
}

proof fn lemma_scan_double_quoted_agree(s1: Seq<char>, i1: int, m: int, s2: Seq<char>, i2: int)
    requires
        0 <= i1 <= s1.len(),
        scan_double_quoted(s1, i1) == Ok::<int, LexError>(m),
        0 <= i2,
        i2 + (m - i1) <= s2.len(),
        forall|k: int| 0 <= k < m - i1 ==> #[trigger] s1[i1 + k] == s2[i2 + k],
    ensures
        scan_double_quoted(s2, i2) == Ok::<int, LexError>(i2 + (m - i1)),
    decreases s1.len() - i1,
{
    crate::lexer::lemma_scan_double_quoted_bounds(s1, i1);
    assert(s1[i1 + 0] == s2[i2 + 0]);
    if s1[i1] == '"' {
    } else if s1[i1] == '\\' {
        crate::lexer::lemma_scan_double_quoted_bounds(s1, i1 + 2);
        assert(s1[i1 + 1] == s2[i2 + 1]);
        assert forall|k: int| 0 <= k < m - (i1 + 2) implies #[trigger] s1[(i1 + 2) + k] == s2[(i2
            + 2) + k] by {
            assert(s1[i1 + (k + 2)] == s2[i2 + (k + 2)]);
        }
        lemma_scan_double_quoted_agree(s1, i1 + 2, m, s2, i2 + 2);
    } else {
        assert forall|k: int| 0 <= k < m - (i1 + 1) implies #[trigger] s1[(i1 + 1) + k] == s2[(i2
            + 1) + k] by {
            assert(s1[i1 + (k + 1)] == s2[i2 + (k + 1)]);
        }
        lemma_scan_double_quoted_agree(s1, i1 + 1, m, s2, i2 + 1);
    }
}

proof fn lemma_scan_single_quoted_agree(s1: Seq<char>, i1: int, m: int, s2: Seq<char>, i2: int)
    requires
        0 <= i1 <= s1.len(),
        scan_single_quoted(s1, i1) == Ok::<int, LexError>(m),
        0 <= i2,
        i2 + (m - i1) <= s2.len(),
        forall|k: int| 0 <= k < m - i1 ==> #[trigger] s1[i1 + k] == s2[i2 + k],
    ensures
        scan_single_quoted(s2, i2) == Ok::<int, LexError>(i2 + (m - i1)),
    decreases s1.len() - i1,
{
    crate::lexer::lemma_scan_single_quoted_bounds(s1, i1);
    assert(s1[i1 + 0] == s2[i2 + 0]);
    if s1[i1] == '\'' {
    } else {
        assert forall|k: int| 0 <= k < m - (i1 + 1) implies #[trigger] s1[(i1 + 1) + k] == s2[(i2
            + 1) + k] by {
            assert(s1[i1 + (k + 1)] == s2[i2 + (k + 1)]);
        }
        lemma_scan_single_quoted_agree(s1, i1 + 1, m, s2, i2 + 1);
    }
}

/// A token scan that stops at a separator gives the same span on any other
/// line that carries the same characters up to a separator or its end: the
/// scan never reads past the separator that stops it.
proof fn lemma_scan_token_agree(s1: Seq<char>, i1: int, j: int, s2: Seq<char>, i2: int)
    requires
        0 <= i1 <= s1.len(),
        scan_token(s1, i1) == Ok::<int, LexError>(j),
        i1 <= j < s1.len(),
        is_word_sep(s1[j]),
        0 <= i2,
        i2 + (j - i1) <= s2.len(),
        forall|k: int| 0 <= k < j - i1 ==> #[trigger] s1[i1 + k] == s2[i2 + k],
        i2 + (j - i1) == s2.len() || is_word_sep(s2[i2 + (j - i1)]),
    ensures
        scan_token(s2, i2) == Ok::<int, LexError>(i2 + (j - i1)),
    decreases s1.len() - i1,
{
    crate::lexer::lemma_scan_token_bounds(s1, i1);
    if is_word_sep(s1[i1]) {
        assert(j == i1);
    } else {
        assert(0 < j - i1);
        assert(s1[i1 + 0] == s2[i2 + 0]);
        if s1[i1] == '"' {
            if let Ok(m) = scan_double_quoted(s1, i1 + 1) {
                crate::lexer::lemma_scan_double_quoted_bounds(s1, i1 + 1);
                crate::lexer::lemma_scan_token_bounds(s1, m);
                assert forall|k: int| 0 <= k < m - (i1 + 1) implies #[trigger] s1[(i1 + 1) + k]
                    == s2[(i2 + 1) + k] by {
                    assert(s1[i1 + (k + 1)] == s2[i2 + (k + 1)]);
                }
                lemma_scan_double_quoted_agree(s1, i1 + 1, m, s2, i2 + 1);
                assert forall|k: int| 0 <= k < j - m implies #[trigger] s1[m + k] == s2[(i2 + (m
                    - i1)) + k] by {
                    assert(s1[i1 + ((m - i1) + k)] == s2[i2 + ((m - i1) + k)]);
                }
                lemma_scan_token_agree(s1, m, j, s2, i2 + (m - i1));
            }
        } else if s1[i1] == '\'' {
            if let Ok(m) = scan_single_quoted(s1, i1 + 1) {
                crate::lexer::lemma_scan_single_quoted_bounds(s1, i1 + 1);
                crate::lexer::lemma_scan_token_bounds(s1, m);
                assert forall|k: int| 0 <= k < m - (i1 + 1) implies #[trigger] s1[(i1 + 1) + k]
                    == s2[(i2 + 1) + k] by {
                    assert(s1[i1 + (k + 1)] == s2[i2 + (k + 1)]);
                }
                lemma_scan_single_quoted_agree(s1, i1 + 1, m, s2, i2 + 1);
                assert forall|k: int| 0 <= k < j - m implies #[trigger] s1[m + k] == s2[(i2 + (m
                    - i1)) + k] by {
                    assert(s1[i1 + ((m - i1) + k)] == s2[i2 + ((m - i1) + k)]);
                }
                lemma_scan_token_agree(s1, m, j, s2, i2 + (m - i1));
            }
        } else if s1[i1] == '\\' {
            assert(i1 + 2 <= s1.len());
            crate::lexer::lemma_scan_token_bounds(s1, i1 + 2);
            assert forall|k: int| 0 <= k < j - (i1 + 2) implies #[trigger] s1[(i1 + 2) + k] == s2[(
            i2 + 2) + k] by {
                assert(s1[i1 + (k + 2)] == s2[i2 + (k + 2)]);
            }
            lemma_scan_token_agree(s1, i1 + 2, j, s2, i2 + 2);
        } else {
            assert forall|k: int| 0 <= k < j - (i1 + 1) implies #[trigger] s1[(i1 + 1) + k] == s2[(
            i2 + 1) + k] by {
                assert(s1[i1 + (k + 1)] == s2[i2 + (k + 1)]);
            }
            lemma_scan_token_agree(s1, i1 + 1, j, s2, i2 + 1);
        }
    }
}

/// The span of a token that a separator follows is well-formed.
proof fn lemma_token_span_wf(s: Seq<char>, i: int, j: int)
    requires
        0 <= i < j < s.len(),
        scan_token(s, i) == Ok::<int, LexError>(j),
        is_word_sep(s[j]),
    ensures
        wf_token(s.subrange(i, j)),
{
    let t = s.subrange(i, j);
    assert forall|k: int| 0 <= k < j - i implies #[trigger] s[i + k] == t[0 + k] by {
        assert(t[k] == s[i + k]);
    }
    lemma_scan_token_agree(s, i, j, t, 0);
    let tsp = t.push(' ');
    assert forall|k: int| 0 <= k < j - i implies #[trigger] s[i + k] == tsp[0 + k] by {
        assert(tsp[k] == t[k]);
        assert(t[k] == s[i + k]);
    }
    assert(is_word_sep(tsp[j - i]));
    lemma_scan_token_agree(s, i, j, tsp, 0);
}

/// Every token the tokenizer yields is non-empty and scans in full on its
/// own; every token except possibly the line's last is well-formed.  The
/// last can fall short only when the line ends while a backslash of the
/// token still wants a character to escape.
pub proof fn lemma_scan_tokens_wf(s: Seq<char>, i: int)
    requires
        0 <= i <= s.len(),
    ensures
        match scan_tokens(s, i) {
            Ok(toks) => {
                &&& forall|k: int| 0 <= k < toks.len() ==> (#[trigger] toks[k]).len() > 0
                &&& forall|k: int|
                    0 <= k < toks.len() ==> scan_token(#[trigger] toks[k], 0) == Ok::<
                        int,
                        LexError,
                    >(toks[k].len() as int)
                &&& forall|k: int| 0 <= k < toks.len() - 1 ==> wf_token(#[trigger] toks[k])
            },
            Err(_) => true,
        },
    decreases s.len() - i,
{
    if i >= s.len() {
    } else if is_word_sep(s[i]) {
        lemma_scan_tokens_wf(s, i + 1);
    } else {
        if let Ok(j) = scan_token(s, i) {
            crate::lexer::lemma_scan_token_bounds(s, i);
            lemma_scan_token_stop(s, i);
            let t = s.subrange(i, j);
            lemma_scan_tokens_wf(s, j);
            if j < s.len() {
                lemma_token_span_wf(s, i, j);
            } else {
                assert forall|k: int| 0 <= k < s.len() - i implies #[trigger] s[i + k] == t[0
                    + k] by {
                    assert(t[k] == s[i + k]);
                }
                lemma_scan_token_shift(s, i, t, 0);
            }
            if let Ok(rest) = scan_tokens(s, j) {
                let toks = seq![t] + rest;
                assert(toks[0] == t);
                assert forall|k: int| 0 <= k < toks.len() implies (#[trigger] toks[k]).len()
                    > 0 by {
                    if k > 0 {
                        assert(toks[k] == rest[k - 1]);
                    }
                }
                assert forall|k: int| 0 <= k < toks.len() implies scan_token(
                    #[trigger] toks[k],
                    0,
                ) == Ok::<int, LexError>(toks[k].len() as int) by {
                    if k > 0 {
                        assert(toks[k] == rest[k - 1]);
                    }
                }
                assert forall|k: int| 0 <= k < toks.len() - 1 implies wf_token(
                    #[trigger] toks[k],
                ) by {
                    if k == 0 {
                        if rest.len() > 0 {
                            assert(j < s.len());
                        }
                    } else {
                        assert(toks[k] == rest[k - 1]);
                    }
                }
            }
        }
    }
}

/// Tokenizing is idempotent on its own output: whenever a line tokenizes at
/// all, joining its tokens with single spaces and tokenizing the joined line
/// yields the same tokens.  A token can end in a dangling backslash only at
/// the end of the line, and the join is the one place no separator follows.
pub proof fn lemma_tokenize_idempotent(s: Seq<char>)
    ensures
        match spec_tokenize(s) {
            Ok(toks) => spec_tokenize(join_tokens(toks)) == Ok::<Seq<Seq<char>>, LexError>(toks),
            Err(_) => true,
        },
{
    lemma_scan_tokens_wf(s, 0);
    if let Ok(toks) = spec_tokenize(s) {
        lemma_tokenize_join(toks);
    }
}

} // verus!
