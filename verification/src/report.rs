//! What a broadcast run reports, target by target, and the registry-file
//! word list.
//!
//! The driver spawns the command once per target and hands each target's
//! outcome here; every target yields exactly one report of its own, so one
//! failed spawn never changes what the other targets report.

use vstd::prelude::*;

use crate::strutil::{is_blank, is_blank_char, blank};

verus! {

/// One target's report after a broadcast run.
#[derive(Debug, PartialEq)]
pub enum Report {
    /// The spawn failed; a diagnostic for the error stream.
    Failure(String),
    /// The captured output, prefixed by the target path.
    Output(String),
    /// The command ran but printed nothing worth showing.
    Quiet,
}

/// The mathematical shadow of `Report`.
pub enum ReportV {
    Failure(Seq<char>),
    Output(Seq<char>),
    Quiet,
}

pub open spec fn report_view(r: Report) -> ReportV {
    match r {
        Report::Failure(s) => ReportV::Failure(s@),
        Report::Output(s) => ReportV::Output(s@),
        Report::Quiet => ReportV::Quiet,
    }
}

pub open spec fn run_outcome_view(o: Result<String, String>) -> Result<Seq<char>, Seq<char>> {
    match o {
        Ok(s) => Ok(s@),
        Err(e) => Err(e@),
    }
}

/// What one target's run is reported as: a failed spawn is one diagnostic, a
/// run with blank output is silent, and any other run is one output block.
pub open spec fn spec_report(target: Seq<char>, outcome: Result<Seq<char>, Seq<char>>) -> ReportV {
    match outcome {
        Err(e) => ReportV::Failure(
            "Could not execute process on dir: "@ + target + ", failed with error: "@ + e,
        ),
        Ok(out) => if is_blank(out) {
            ReportV::Quiet
        } else {
            ReportV::Output(target + ":\n"@ + out)
        },
    }
}

/// Builds the report for one target from what its spawn returned.
pub fn broadcast_report(target: &str, outcome: &Result<String, String>) -> (r: Report)
    ensures
        report_view(r) == spec_report(target@, run_outcome_view(*outcome)),
{
    match outcome {
        Err(e) => {
            let msg = String::from_str("Could not execute process on dir: ").concat(target).concat(
                ", failed with error: ",
            ).concat(e.as_str());
            Report::Failure(msg)
        },
        Ok(out) => {
            if blank(out.as_str()) {
                Report::Quiet
            } else {
                let block = target.to_owned().concat(":\n").concat(out.as_str());
                Report::Output(block)
            }
        },
    }
}

/// The reports of one whole broadcast, one per target in target order; each
/// depends on its own target and outcome alone.
pub open spec fn reports_of(
    targets: Seq<Seq<char>>,
    outcomes: Seq<Result<Seq<char>, Seq<char>>>,
) -> Seq<ReportV> {
    Seq::new(targets.len(), |k: int| spec_report(targets[k], outcomes[k]))
}

pub open spec fn count_failures(reports: Seq<ReportV>) -> int
    decreases reports.len(),
{
    if reports.len() == 0 {
        0
    } else {
        count_failures(reports.drop_last()) + (match reports.last() {
            ReportV::Failure(_) => 1int,
            _ => 0int,
        })
    }
}

pub open spec fn count_outputs(reports: Seq<ReportV>) -> int
    decreases reports.len(),
{
    if reports.len() == 0 {
        0
    } else {
        count_outputs(reports.drop_last()) + (match reports.last() {
            ReportV::Output(_) => 1int,
            _ => 0int,
        })
    }
}

pub open spec fn count_errs(outcomes: Seq<Result<Seq<char>, Seq<char>>>) -> int
    decreases outcomes.len(),
{
    if outcomes.len() == 0 {
        0
    } else {
        count_errs(outcomes.drop_last()) + (match outcomes.last() {
            Err(_) => 1int,
            Ok(_) => 0int,
        })
    }
}

pub open spec fn count_loud_oks(outcomes: Seq<Result<Seq<char>, Seq<char>>>) -> int
    decreases outcomes.len(),
{
    if outcomes.len() == 0 {
        0
    } else {
        count_loud_oks(outcomes.drop_last()) + (match outcomes.last() {
            Ok(out) => if is_blank(out) {
                0int
            } else {
                1int
            },
            Err(_) => 0int,
        })
    }
}

/// A broadcast reports every target independently: the diagnostics are
/// exactly one per failed spawn and the output blocks exactly one per run
/// with something to show, whatever order the runs finish in.
pub proof fn lemma_broadcast_counts(
    targets: Seq<Seq<char>>,
    outcomes: Seq<Result<Seq<char>, Seq<char>>>,
)
    requires
        targets.len() == outcomes.len(),
    ensures
        count_failures(reports_of(targets, outcomes)) == count_errs(outcomes),
        count_outputs(reports_of(targets, outcomes)) == count_loud_oks(outcomes),
    decreases targets.len(),
{
    if targets.len() == 0 {
    } else {
        lemma_broadcast_counts(targets.drop_last(), outcomes.drop_last());
        assert(reports_of(targets, outcomes).drop_last() =~= reports_of(
            targets.drop_last(),
            outcomes.drop_last(),
        ));
        assert(reports_of(targets, outcomes).last() == spec_report(
            targets.last(),
            outcomes.last(),
        ));
    }
}

/// The index just past the word that begins at `i`: the next whitespace
/// character, or the end of the text.
pub open spec fn word_end(s: Seq<char>, i: int) -> int
    decreases s.len() - i,
{
    if i < 0 || i >= s.len() || is_blank_char(s[i]) {
        i
    } else {
        word_end(s, i + 1)
    }
}

pub proof fn lemma_word_end_bounds(s: Seq<char>, i: int)
    requires
        0 <= i <= s.len(),
    ensures
        i <= word_end(s, i) <= s.len(),
        i < s.len() && !is_blank_char(s[i]) ==> i < word_end(s, i),
    decreases s.len() - i,
{
    if i < s.len() && !is_blank_char(s[i]) {
        lemma_word_end_bounds(s, i + 1);
    }
}

/// The whitespace-separated words of the text from `i` on.
pub open spec fn spec_words(s: Seq<char>, i: int) -> Seq<Seq<char>>
    decreases s.len() - i,
{
    if i < 0 || i >= s.len() {
        Seq::empty()
    } else if is_blank_char(s[i]) {
        spec_words(s, i + 1)
    } else {
        let j = word_end(s, i);
        proof {
            lemma_word_end_bounds(s, i);
        }
        seq![s.subrange(i, j)] + spec_words(s, j)
    }
}


fn ws_char(c: char) -> (r: bool)
    ensures
        r == is_blank_char(c),
{
    c == ' ' || c == '\t' || c == '\n' || c == '\r'
}

/// Splits a registry file's text into words: every run of non-whitespace is
/// one directory path, with no quoting at this level.
pub fn registry_words(text: &str) -> (r: Vec<String>)
    ensures
        r.deep_view() == spec_words(text@, 0),
{
    let n = text.unicode_len();
    let mut words: Vec<String> = Vec::new();
    let mut i: usize = 0;
    loop
        invariant
            0 <= i <= n,
            n == text@.len(),
            spec_words(text@, 0) == words.deep_view() + spec_words(text@, i as int),
        decreases n - i,
    {
        if i >= n {
            proof {
                assert(words.deep_view() + spec_words(text@, i as int) =~= words.deep_view());
            }
            return words;
        }
        let c = text.get_char(i);
        if c == ' ' || c == '\t' || c == '\n' || c == '\r' {
            i = i + 1;
        } else {
            let mut j = i + 1;
            while j < n && !ws_char(text.get_char(j))
                invariant
                    i < j <= n,
                    n == text@.len(),
                    forall|l: int| i < l < j ==> !is_blank_char(#[trigger] text@[l]),
                decreases n - j,
            {
                j = j + 1;
            }
            proof {
                lemma_word_end_run(text@, i as int, j as int);
            }
            let ghost pre = words.deep_view();
            let word = text.substring_char(i, j).to_owned();
            words.push(word);
            proof {
                assert(words.deep_view() =~= pre.push(text@.subrange(i as int, j as int)));
                assert(pre + (seq![text@.subrange(i as int, j as int)] + spec_words(
                    text@,
                    j as int,
                )) =~= words.deep_view() + spec_words(text@, j as int));
            }
            i = j;
        }
    }
}

proof fn lemma_word_end_run(s: Seq<char>, i: int, j: int)
    requires
        0 <= i < j <= s.len(),
        !is_blank_char(s[i]),
        forall|l: int| i < l < j ==> !is_blank_char(#[trigger] s[l]),
        j == s.len() || is_blank_char(s[j]),
    ensures
        word_end(s, i) == j,
    decreases j - i,
{
    assert(word_end(s, i) == word_end(s, i + 1));
    if i + 1 < j {
        assert(!is_blank_char(s[i + 1]));
        lemma_word_end_run(s, i + 1, j);
    } else {
        assert(word_end(s, i + 1) == j);
    }
}

} // verus!
