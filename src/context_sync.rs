//! Markdown that records what a completed change added to a project's
//! tech stack and architecture.

use vstd::prelude::*;
use vstd::string::*;
use crate::expansion::{find, find_exec, lemma_find_found, slice_vec};
use crate::lexer::is_space;
use crate::text::{chars_of, from_chars, push_char, push_str};
use crate::worktree::last_index;

verus! {

/// A library or tool that a change introduced.
#[derive(Debug, Clone)]
pub struct TechStackAddition {
    pub name: String,
    pub version: String,
    pub purpose: String,
}

/// A component that a change introduced or reshaped.
#[derive(Debug, Clone)]
pub struct ArchitectureUpdate {
    pub component: String,
    pub description: String,
    pub location: String,
}

/// A decision taken in a change, with its reason.
#[derive(Debug, Clone)]
pub struct KeyDecision {
    pub decision: String,
    pub rationale: String,
    pub date: String,
}

/// What a completed change contributes to the project's context.
#[derive(Debug, Clone)]
pub struct ContextSyncResponse {
    pub tech_stack_additions: Vec<TechStackAddition>,
    pub architecture_updates: Vec<ArchitectureUpdate>,
    pub key_decisions: Vec<KeyDecision>,
    pub recent_change_summary: String,
}

impl ContextSyncResponse {
    /// Whether anything is to be recorded.
    pub fn has_updates(&self) -> (r: bool)
        ensures
            r == (self.tech_stack_additions@.len() > 0 || self.architecture_updates@.len() > 0
                || self.key_decisions@.len() > 0 || self.recent_change_summary@.len() > 0),
    {
        self.tech_stack_additions.len() > 0 || self.architecture_updates.len() > 0 || self.key_decisions.len() > 0
            || self.recent_change_summary.unicode_len() > 0
    }
}

/// Lines joined by newlines.
pub open spec fn join_lines(l: Seq<Seq<char>>) -> Seq<char>
    decreases l.len(),
{
    if l.len() == 0 {
        Seq::empty()
    } else if l.len() == 1 {
        l[0]
    } else {
        join_lines(l.drop_last()) + seq!['\n'] + l.last()
    }
}

/// The table row for an addition: `| name | version | purpose |`.
pub open spec fn tech_row(a: TechStackAddition) -> Seq<char> {
    "| "@ + a.name@ + " | "@ + a.version@ + " | "@ + a.purpose@ + " |"@
}

/// The section for an update:
/// `\n### component\n\ndescription\n\n*Location: location*`.
pub open spec fn architecture_section(u: ArchitectureUpdate) -> Seq<char> {
    "\n### "@ + u.component@ + "\n\n"@ + u.description@ + "\n\n*Location: "@ + u.location@ + "*"@
}

/// The rows to add to the tech-stack table, one per line.
pub fn format_tech_stack_additions(additions: &Vec<TechStackAddition>) -> (r: String)
    ensures
        r@ == join_lines(additions@.map_values(|a: TechStackAddition| tech_row(a))),
{
    let ghost rows = additions@.map_values(|a: TechStackAddition| tech_row(a));
    let mut r = String::new();
    let mut i: usize = 0;
    while i < additions.len()
        invariant
            0 <= i <= additions@.len(),
            rows == additions@.map_values(|a: TechStackAddition| tech_row(a)),
            r@ == join_lines(rows.subrange(0, i as int)),
        decreases additions@.len() - i,
    {
        let ghost before = r@;
        if i > 0 {
            push_char(&mut r, '\n');
        }
        let a = &additions[i];
        let ghost start = r@;
        push_str(&mut r, "| ");
        push_str(&mut r, a.name.as_str());
        push_str(&mut r, " | ");
        push_str(&mut r, a.version.as_str());
        push_str(&mut r, " | ");
        push_str(&mut r, a.purpose.as_str());
        push_str(&mut r, " |");
        proof {
            assert(r@ =~= start + tech_row(*a));
            assert(rows.subrange(0, i + 1).drop_last() =~= rows.subrange(0, i as int));
            if i == 0 {
                assert(start =~= Seq::<char>::empty());
                assert(r@ =~= rows.subrange(0, 1)[0]);
            } else {
                assert(r@ =~= before + seq!['\n'] + rows[i as int]);
            }
        }
        i += 1;
    }
    assert(rows.subrange(0, rows.len() as int) =~= rows);
    r
}

/// The sections to add to the architecture document.
pub fn format_architecture_updates(updates: &Vec<ArchitectureUpdate>) -> (r: String)
    ensures
        r@ == join_lines(updates@.map_values(|u: ArchitectureUpdate| architecture_section(u))),
{
    let ghost secs = updates@.map_values(|u: ArchitectureUpdate| architecture_section(u));
    let mut r = String::new();
    let mut i: usize = 0;
    while i < updates.len()
        invariant
            0 <= i <= updates@.len(),
            secs == updates@.map_values(|u: ArchitectureUpdate| architecture_section(u)),
            r@ == join_lines(secs.subrange(0, i as int)),
        decreases updates@.len() - i,
    {
        let ghost before = r@;
        if i > 0 {
            push_char(&mut r, '\n');
        }
        let u = &updates[i];
        let ghost start = r@;
        push_str(&mut r, "\n### ");
        push_str(&mut r, u.component.as_str());
        push_str(&mut r, "\n\n");
        push_str(&mut r, u.description.as_str());
        push_str(&mut r, "\n\n*Location: ");
        push_str(&mut r, u.location.as_str());
        push_str(&mut r, "*");
        proof {
            assert(r@ =~= start + architecture_section(*u));
            assert(secs.subrange(0, i + 1).drop_last() =~= secs.subrange(0, i as int));
            if i == 0 {
                assert(start =~= Seq::<char>::empty());
                assert(r@ =~= secs.subrange(0, 1)[0]);
            } else {
                assert(r@ =~= before + seq!['\n'] + secs[i as int]);
            }
        }
        i += 1;
    }
    assert(secs.subrange(0, secs.len() as int) =~= secs);
    r
}


/// Number of whitespace characters at the start of `s`.
pub open spec fn leading_spaces(s: Seq<char>) -> int
    decreases s.len(),
{
    if s.len() == 0 || !is_space(s[0]) {
        0
    } else {
        1 + leading_spaces(s.drop_first())
    }
}

/// Length of `s` without its trailing whitespace.
pub open spec fn trailing_end(s: Seq<char>) -> int
    decreases s.len(),
{
    if s.len() == 0 || !is_space(s.last()) {
        s.len() as int
    } else {
        trailing_end(s.drop_last())
    }
}

/// `s` without leading and trailing whitespace.
pub open spec fn trim(s: Seq<char>) -> Seq<char> {
    if leading_spaces(s) >= trailing_end(s) {
        Seq::empty()
    } else {
        s.subrange(leading_spaces(s), trailing_end(s))
    }
}

proof fn lemma_leading(s: Seq<char>)
    ensures
        0 <= leading_spaces(s) <= s.len(),
    decreases s.len(),
{
    if s.len() > 0 && is_space(s[0]) {
        lemma_leading(s.drop_first());
    }
}

proof fn lemma_trailing(s: Seq<char>)
    ensures
        0 <= trailing_end(s) <= s.len(),
    decreases s.len(),
{
    if s.len() > 0 && is_space(s.last()) {
        lemma_trailing(s.drop_last());
    }
}

fn trim_exec(s: &Vec<char>) -> (r: String)
    ensures
        r@ == trim(s@),
{
    let n = s.len();
    let mut a: usize = 0;
    assert(s@.subrange(0, n as int) =~= s@);
    while a < n && crate::lexer::is_space_char(s[a])
        invariant
            n == s@.len(),
            0 <= a <= n,
            leading_spaces(s@) == a + leading_spaces(s@.subrange(a as int, n as int)),
        decreases n - a,
    {
        assert(s@.subrange(a as int, n as int).drop_first() =~= s@.subrange(a + 1, n as int));
        a += 1;
    }
    let mut b: usize = n;
    while b > 0 && crate::lexer::is_space_char(s[b - 1])
        invariant
            n == s@.len(),
            0 <= b <= n,
            trailing_end(s@) == trailing_end(s@.subrange(0, b as int)),
        decreases b,
    {
        assert(s@.subrange(0, b as int).drop_last() =~= s@.subrange(0, b - 1));
        b -= 1;
    }
    if a >= b {
        return String::new();
    }
    crate::text::slice_string(s, a, b)
}

pub open spec fn fence_json() -> Seq<char> {
    seq!['`', '`', '`', 'j', 's', 'o', 'n']
}

pub open spec fn fence() -> Seq<char> {
    seq!['`', '`', '`']
}

/// The JSON in a reply: the body of a ```` ```json ```` block, else of the
/// first ```` ``` ```` block (after its opening line), else the text from
/// the first `{` to the last `}`, else the whole reply.
pub open spec fn json_of(r: Seq<char>) -> Seq<char> {
    let tagged = match find(r, fence_json()) {
        Some(st) => match find(r.subrange(st + 7, r.len() as int), fence()) {
            Some(e) => Some(trim(r.subrange(st + 7, st + 7 + e))),
            None => None,
        },
        None => None,
    };
    let plain = match find(r, fence()) {
        Some(st) => {
            let af = r.subrange(st + 3, r.len() as int);
            match find(af, seq!['\n']) {
                Some(nl) => match find(af.subrange(nl, af.len() as int), fence()) {
                    Some(e) => Some(trim(af.subrange(nl, nl + e))),
                    None => None,
                },
                None => None,
            }
        },
        None => None,
    };
    if tagged is Some {
        tagged->Some_0
    } else if plain is Some {
        plain->Some_0
    } else {
        match find(r, seq!['{']) {
            Some(st) => match last_index(r, '}') {
                Some(en) => if en > st { r.subrange(st, en + 1) } else { r },
                None => r,
            },
            None => r,
        }
    }
}

/// The JSON part of a reply that may wrap it in a fenced code block.
pub fn extract_json_from_response(response: &str) -> (r: String)
    ensures
        r@ == json_of(response@),
{
    let s = chars_of(response);
    let n = s.len();
    let fj = vec!['`', '`', '`', 'j', 's', 'o', 'n'];
    let f = vec!['`', '`', '`'];
    let nl = vec!['\n'];
    let ob = vec!['{'];
    proof {
        assert(fj@ =~= fence_json());
        assert(f@ =~= fence());
        assert(nl@ =~= seq!['\n']);
        assert(ob@ =~= seq!['{']);
    }
    if let Some(st) = find_exec(&s, &fj) {
        proof {
            lemma_find_found(s@, fj@);
        }
        let rest = slice_vec(&s, st + 7, n);
        if let Some(e) = find_exec(&rest, &f) {
            proof {
                lemma_find_found(rest@, f@);
            }
            let body = slice_vec(&s, st + 7, st + 7 + e);
            assert(body@ =~= s@.subrange(st + 7, st + 7 + e));
            return trim_exec(&body);
        }
    }
    if let Some(st) = find_exec(&s, &f) {
        proof {
            lemma_find_found(s@, f@);
        }
        let af = slice_vec(&s, st + 3, n);
        if let Some(k) = find_exec(&af, &nl) {
            proof {
                lemma_find_found(af@, nl@);
            }
            let tail = slice_vec(&af, k, af.len());
            if let Some(e) = find_exec(&tail, &f) {
                proof {
                    lemma_find_found(tail@, f@);
                }
                let body = slice_vec(&af, k, k + e);
                return trim_exec(&body);
            }
        }
    }
    if let Some(st) = find_exec(&s, &ob) {
        proof {
            lemma_find_found(s@, ob@);
        }
        if let Some(en) = crate::worktree::last_index_of(&s, '}') {
            if en > st {
                return from_chars(&slice_vec(&s, st, en + 1));
            }
        }
    }
    from_chars(&s)
}

} // verus!
