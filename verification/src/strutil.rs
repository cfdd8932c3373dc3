//! Small string helpers the shell core builds on.

use vstd::prelude::*;

use crate::lexer_laws::join_tokens;

verus! {

/// Compares two string slices character by character.
pub fn str_eq(a: &str, b: &str) -> (r: bool)
    ensures
        r == (a@ == b@),
{
    let na = a.unicode_len();
    let nb = b.unicode_len();
    if na != nb {
        proof {
            assert(a@.len() != b@.len());
        }
        return false;
    }
    let mut i: usize = 0;
    while i < na
        invariant
            0 <= i <= na,
            na == a@.len(),
            na == b@.len(),
            forall|l: int| 0 <= l < i ==> a@[l] == b@[l],
        decreases na - i,
    {
        if a.get_char(i) != b.get_char(i) {
            return false;
        }
        i = i + 1;
    }
    proof {
        assert(a@ =~= b@);
    }
    true
}

/// The characters a blank line is allowed to consist of.
pub open spec fn is_blank_char(c: char) -> bool {
    c == ' ' || c == '\t' || c == '\n' || c == '\r'
}

/// A line with nothing on it but whitespace.
pub open spec fn is_blank(s: Seq<char>) -> bool {
    forall|k: int| 0 <= k < s.len() ==> is_blank_char(#[trigger] s[k])
}

/// Whether the line holds nothing but whitespace.
pub fn blank(s: &str) -> (r: bool)
    ensures
        r == is_blank(s@),
{
    let n = s.unicode_len();
    let mut i: usize = 0;
    while i < n
        invariant
            0 <= i <= n,
            n == s@.len(),
            forall|l: int| 0 <= l < i ==> is_blank_char(#[trigger] s@[l]),
        decreases n - i,
    {
        let c = s.get_char(i);
        if !(c == ' ' || c == '\t' || c == '\n' || c == '\r') {
            return false;
        }
        i = i + 1;
    }
    true
}

pub proof fn lemma_join_push(toks: Seq<Seq<char>>, t: Seq<char>)
    ensures
        join_tokens(toks.push(t)) == if toks.len() == 0 {
            t
        } else {
            join_tokens(toks) + seq![' '] + t
        },
    decreases toks.len(),
{
    if toks.len() == 0 {
        assert(toks.push(t)[0] == t);
    } else if toks.len() == 1 {
        assert(toks.push(t).drop_first() =~= seq![t]);
        assert(toks.push(t)[0] == toks[0]);
        assert(join_tokens(seq![t]) == t);
    } else {
        assert(toks.push(t).drop_first() =~= toks.drop_first().push(t));
        lemma_join_push(toks.drop_first(), t);
        assert(toks.push(t)[0] == toks[0]);
        assert(toks[0] + seq![' '] + (join_tokens(toks.drop_first()) + seq![' '] + t) =~= (toks[0]
            + seq![' '] + join_tokens(toks.drop_first())) + seq![' '] + t);
    }
}

/// Joins the items from index `from` on into one string, one space between
/// each pair.
pub fn join_with_spaces(items: &Vec<String>, from: usize) -> (r: String)
    requires
        from <= items.len(),
    ensures
        r@ == join_tokens(items.deep_view().skip(from as int)),
{
    let n = items.len();
    let mut i = from;
    let mut r = String::new();
    while i < n
        invariant
            from <= i <= n,
            n == items.len(),
            r@ == join_tokens(items.deep_view().subrange(from as int, i as int)),
        decreases n - i,
    {
        let ghost prefix = items.deep_view().subrange(from as int, i as int);
        let ghost item_view = items.deep_view()[i as int];
        if i > from {
            r.append(" ");
        }
        r.append(items[i].as_str());
        proof {
            reveal_strlit(" ");
            assert(" "@ =~= seq![' ']);
            lemma_join_push(prefix, item_view);
            assert(items.deep_view().subrange(from as int, i as int + 1) =~= prefix.push(
                item_view,
            ));
            if i == from {
                assert(r@ =~= item_view);
            } else {
                assert(r@ =~= join_tokens(prefix) + seq![' '] + item_view);
            }
        }
        i = i + 1;
    }
    proof {
        assert(items.deep_view().subrange(from as int, n as int) =~= items.deep_view().skip(
            from as int,
        ));
    }
    r
}

/// What the abbreviated working directory looks like: the home-directory
/// prefix replaced by `~`, or the path unchanged when home is no prefix.
pub open spec fn spec_abbreviate_home(cwd: Seq<char>, home: Seq<char>) -> Seq<char> {
    if cwd.len() >= home.len() && cwd.subrange(0, home.len() as int) == home {
        seq!['~'] + cwd.skip(home.len() as int)
    } else {
        cwd
    }
}

/// Shortens the working directory for display by folding the home-directory
/// prefix into `~`.
pub fn abbreviate_home(cwd: &str, home: &str) -> (r: String)
    ensures
        r@ == spec_abbreviate_home(cwd@, home@),
{
    let nc = cwd.unicode_len();
    let nh = home.unicode_len();
    if nc >= nh {
        let head = cwd.substring_char(0, nh);
        if str_eq(head, home) {
            let tail = cwd.substring_char(nh, nc);
            let r = String::from_str("~").concat(tail);
            proof {
                reveal_strlit("~");
                assert("~"@ =~= seq!['~']);
                assert(cwd@.subrange(nh as int, nc as int) =~= cwd@.skip(nh as int));
            }
            return r;
        }
    }
    cwd.to_owned()
}

} // verus!
