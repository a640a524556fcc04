//! Reading the summary line that `cargo test` prints.

use vstd::prelude::*;
use vstd::string::*;
use crate::expansion::{all_digits, read_digits, digits_value, find, find_exec, holds_seq};
use crate::lexer::is_space;
use crate::text::{chars_of, push_char, push_str};
use crate::worktree::split_on;

verus! {

/// Counts from a test run's summary.
#[derive(Debug, Clone)]
pub struct TestResults {
    pub passed: usize,
    pub failed: usize,
    pub ignored: usize,
    pub filtered_out: usize,
}

impl TestResults {
    /// Tests that ran: passed and failed.
    pub fn total(&self) -> (r: usize)
        requires
            self.passed + self.failed <= usize::MAX,
        ensures
            r == self.passed + self.failed,
    {
        self.passed + self.failed
    }
}

/// The last whitespace-separated token of `s`.
pub open spec fn last_token(s: Seq<char>) -> Seq<char>
    decreases s.len(),
{
    if s.len() == 0 {
        s
    } else if is_space(s.last()) {
        last_token(s.drop_last())
    } else {
        trailing_run(s)
    }
}

/// The characters at the end of `s` after its last whitespace.
pub open spec fn trailing_run(s: Seq<char>) -> Seq<char>
    decreases s.len(),
{
    if s.len() == 0 || is_space(s.last()) {
        Seq::empty()
    } else {
        trailing_run(s.drop_last()).push(s.last())
    }
}

/// `t` read as a `usize` the way `str::parse` reads it.
pub open spec fn parse_count(t: Seq<char>) -> Option<nat> {
    let d = if t.len() > 0 && t[0] == '+' { t.drop_first() } else { t };
    if d.len() > 0 && all_digits(d) && digits_value(d) <= usize::MAX {
        Some(digits_value(d))
    } else {
        None
    }
}

/// The number just before `keyword` in `line`, or 0.
pub open spec fn number_before(line: Seq<char>, keyword: Seq<char>) -> nat {
    match find(line, keyword) {
        None => 0,
        Some(pos) => match parse_count(last_token(line.subrange(0, pos))) {
            Some(v) => v,
            None => 0,
        },
    }
}

fn last_token_exec(s: &Vec<char>, end: usize) -> (r: Vec<char>)
    requires
        end <= s@.len(),
    ensures
        r@ == last_token(s@.subrange(0, end as int)),
{
    let mut k: usize = end;
    while k > 0 && crate::lexer::is_space_char(s[k - 1])
        invariant
            0 <= k <= end <= s@.len(),
            last_token(s@.subrange(0, end as int)) == last_token(s@.subrange(0, k as int)),
        decreases k,
    {
        assert(s@.subrange(0, k as int).drop_last() =~= s@.subrange(0, k - 1));
        k -= 1;
    }
    let mut j: usize = k;
    while j > 0 && !crate::lexer::is_space_char(s[j - 1])
        invariant
            0 <= j <= k <= s@.len(),
            trailing_run(s@.subrange(0, k as int)) == trailing_run(s@.subrange(0, j as int)) + s@.subrange(
                j as int,
                k as int,
            ),
        decreases j,
    {
        assert(s@.subrange(0, j as int).drop_last() =~= s@.subrange(0, j - 1));
        assert(trailing_run(s@.subrange(0, j - 1)).push(s@[j - 1]) + s@.subrange(j as int, k as int)
            =~= trailing_run(s@.subrange(0, j - 1)) + s@.subrange(j - 1, k as int));
        j -= 1;
    }
    proof {
        assert(trailing_run(s@.subrange(0, j as int)) == Seq::<char>::empty());
        assert(Seq::<char>::empty() + s@.subrange(j as int, k as int) =~= s@.subrange(j as int, k as int));
        if k == 0 {
            assert(s@.subrange(0, 0) =~= Seq::<char>::empty());
        }
    }
    crate::expansion::slice_vec(s, j, k)
}

/// The number just before the first `keyword` in `line`, or 0 when there
/// is none or it is no count.
pub fn extract_number(line: &str, keyword: &str) -> (r: usize)
    ensures
        r as nat == number_before(line@, keyword@),
{
    let l = chars_of(line);
    let k = chars_of(keyword);
    match find_exec(&l, &k) {
        None => 0,
        Some(pos) => {
            proof {
                crate::expansion::lemma_find_found(l@, k@);
            }
            let t = last_token_exec(&l, pos);
            let from: usize = if t.len() > 0 && t[0] == '+' { 1 } else { 0 };
            proof {
                if from == 1 {
                    assert(t@.subrange(1, t@.len() as int) =~= t@.drop_first());
                } else {
                    assert(t@.subrange(0, t@.len() as int) =~= t@);
                }
            }
            match read_digits(&t, from) {
                Some(v) => {
                    if v <= usize::MAX as u64 {
                        v as usize
                    } else {
                        0
                    }
                },
                None => 0,
            }
        },
    }
}

/// The first line of `lines` that holds `test result:`.
pub open spec fn summary_line(lines: Seq<Seq<char>>) -> Option<Seq<char>>
    decreases lines.len(),
{
    if lines.len() == 0 {
        None
    } else if holds_seq(lines[0], "test result:"@) {
        Some(lines[0])
    } else {
        summary_line(lines.drop_first())
    }
}

/// Reads the counts from the output of a test run (its standard output,
/// then its standard error): from the first summary line, each count the
/// number before its word; all zero when there is no summary line.
pub fn parse_test_output(stdout: &str, stderr: &str) -> (r: Result<TestResults, String>)
    ensures
        r is Ok,
        ({
            let lines = split_on(stdout@ + seq!['\n'] + stderr@, '\n');
            let t = r->Ok_0;
            match summary_line(lines) {
                None => t.passed == 0 && t.failed == 0 && t.ignored == 0 && t.filtered_out == 0,
                Some(l) => {
                    &&& t.passed as nat == number_before(l, "passed"@)
                    &&& t.failed as nat == number_before(l, "failed"@)
                    &&& t.ignored as nat == number_before(l, "ignored"@)
                    &&& t.filtered_out as nat == number_before(l, "filtered out"@)
                },
            }
        }),
{
    let mut combined = String::from_str(stdout);
    push_char(&mut combined, '\n');
    push_str(&mut combined, stderr);
    assert(combined@ =~= stdout@ + seq!['\n'] + stderr@);
    let c = chars_of(combined.as_str());
    let lines = crate::worktree::split_chars(&c, '\n');
    let ghost lv = lines@.map_values(|v: Vec<char>| v@);
    let marker = chars_of("test result:");
    proof {
        reveal_strlit("test result:");
    }
    let mut i: usize = 0;
    assert(lv.subrange(0, lv.len() as int) =~= lv);
    while i < lines.len()
        invariant
            0 <= i <= lines@.len(),
            lv == lines@.map_values(|v: Vec<char>| v@),
            lv == split_on(stdout@ + seq!['\n'] + stderr@, '\n'),
            marker@ == "test result:"@,
            summary_line(lv) == summary_line(lv.subrange(i as int, lv.len() as int)),
        decreases lines@.len() - i,
    {
        assert(lv.subrange(i as int, lv.len() as int).drop_first() =~= lv.subrange(i + 1, lv.len() as int));
        if find_exec(&lines[i], &marker).is_some() {
            let line = crate::text::from_chars(&lines[i]);
            assert(lv[i as int] == line@);
            assert(lv.subrange(i as int, lv.len() as int)[0] == line@);
            return Ok(TestResults {
                passed: extract_number(line.as_str(), "passed"),
                failed: extract_number(line.as_str(), "failed"),
                ignored: extract_number(line.as_str(), "ignored"),
                filtered_out: extract_number(line.as_str(), "filtered out"),
            });
        }
        i += 1;
    }
    assert(lv.subrange(lv.len() as int, lv.len() as int).len() == 0);
    Ok(TestResults { passed: 0, failed: 0, ignored: 0, filtered_out: 0 })
}

} // verus!
