//! History-based hints: the rest of the latest history entry that begins
//! with what has been typed.

use vstd::prelude::*;
use vstd::string::*;
use crate::lexer::is_space;
use crate::text::{chars_of, is_prefix, slice_string, starts_with_chars, str_eq};

verus! {

/// The hint for `line` with the cursor at `pos`, given the latest history
/// entry `found` that begins with `line`: nothing unless the cursor is at
/// the end of a nonempty line; nothing for an exact match.
pub open spec fn hint_spec(line: Seq<char>, pos: int, found: Option<Seq<char>>) -> Seq<char> {
    if pos != line.len() || line.len() == 0 {
        Seq::empty()
    } else {
        match found {
            None => Seq::empty(),
            Some(c) => if c == line || !is_prefix(line, c) {
                Seq::empty()
            } else {
                c.subrange(line.len() as int, c.len() as int)
            },
        }
    }
}

/// The first whitespace-separated token of `s`.
pub open spec fn first_token(s: Seq<char>) -> Seq<char>
    decreases s.len(),
{
    if s.len() == 0 {
        s
    } else if is_space(s[0]) {
        first_token(s.drop_first())
    } else {
        leading_run(s)
    }
}

/// The characters of `s` up to its first whitespace.
pub open spec fn leading_run(s: Seq<char>) -> Seq<char>
    decreases s.len(),
{
    if s.len() == 0 || is_space(s[0]) {
        Seq::empty()
    } else {
        seq![s[0]] + leading_run(s.drop_first())
    }
}

/// The latest entry of `history` (oldest first) that begins with `prefix`.
pub open spec fn latest_with_prefix_spec(history: Seq<Seq<char>>, prefix: Seq<char>) -> Option<Seq<char>>
    decreases history.len(),
{
    if history.len() == 0 {
        None
    } else if is_prefix(prefix, history.last()) {
        Some(history.last())
    } else {
        latest_with_prefix_spec(history.drop_last(), prefix)
    }
}

/// The latest entry of `history` (oldest first) that begins with `prefix`.
pub fn latest_with_prefix(history: &Vec<String>, prefix: &str) -> (r: Option<String>)
    ensures
        match r {
            Some(e) => latest_with_prefix_spec(history@.map_values(|s: String| s@), prefix@) == Some(e@),
            None => latest_with_prefix_spec(history@.map_values(|s: String| s@), prefix@) is None,
        },
{
    let ghost hv = history@.map_values(|s: String| s@);
    let p = chars_of(prefix);
    let mut k: usize = history.len();
    assert(hv.subrange(0, k as int) =~= hv);
    while k > 0
        invariant
            0 <= k <= history@.len(),
            p@ == prefix@,
            hv == history@.map_values(|s: String| s@),
            latest_with_prefix_spec(hv, prefix@) == latest_with_prefix_spec(hv.subrange(0, k as int), prefix@),
        decreases k,
    {
        let e = &history[k - 1];
        assert(hv.subrange(0, k as int).drop_last() =~= hv.subrange(0, k - 1));
        assert(hv.subrange(0, k as int).last() == e@);
        if starts_with_chars(&chars_of(e.as_str()), &p) {
            return Some(String::from_str(e.as_str()));
        }
        k -= 1;
    }
    None
}

/// Remembers the hint last shown, for accepting it whole or a token at a
/// time.
#[derive(Debug, Clone)]
pub struct RushHinter {
    current_hint: String,
}

impl RushHinter {
    pub closed spec fn hint(&self) -> Seq<char> {
        self.current_hint@
    }

    /// A hinter with no hint.
    pub fn new() -> (r: Self)
        ensures
            r.hint() == Seq::<char>::empty(),
    {
        RushHinter { current_hint: String::new() }
    }

    /// Computes and remembers the hint for `line` with the cursor at
    /// character position `pos`; `found` is the latest history entry that
    /// begins with `line`.
    pub fn handle(&mut self, line: &str, pos: usize, found: Option<String>) -> (r: String)
        ensures
            r@ == hint_spec(line@, pos as int, match found { Some(f) => Some(f@), None => None }),
            final(self).hint() == r@,
    {
        let l = chars_of(line);
        if pos != l.len() || l.len() == 0 {
            self.current_hint = String::new();
            return String::new();
        }
        let h = match found {
            None => String::new(),
            Some(c) => {
                let cc = chars_of(c.as_str());
                if str_eq(c.as_str(), line) || !starts_with_chars(&cc, &l) {
                    String::new()
                } else {
                    slice_string(&cc, l.len(), cc.len())
                }
            },
        };
        let out = String::from_str(h.as_str());
        self.current_hint = h;
        out
    }

    /// The whole remembered hint.
    pub fn complete_hint(&self) -> (r: String)
        ensures
            r@ == self.hint(),
    {
        String::from_str(self.current_hint.as_str())
    }

    /// The first token of the remembered hint.
    pub fn next_hint_token(&self) -> (r: String)
        ensures
            r@ == first_token(self.hint()),
    {
        let s = chars_of(self.current_hint.as_str());
        let n = s.len();
        let mut i: usize = 0;
        assert(s@.subrange(0, n as int) =~= s@);
        while i < n && crate::lexer::is_space_char(s[i])
            invariant
                n == s@.len(),
                0 <= i <= n,
                first_token(s@) == first_token(s@.subrange(i as int, n as int)),
            decreases n - i,
        {
            assert(s@.subrange(i as int, n as int).drop_first() =~= s@.subrange(i + 1, n as int));
            i += 1;
        }
        let mut j: usize = i;
        while j < n && !crate::lexer::is_space_char(s[j])
            invariant
                n == s@.len(),
                i <= j <= n,
                leading_run(s@.subrange(i as int, n as int)) == s@.subrange(i as int, j as int) + leading_run(
                    s@.subrange(j as int, n as int),
                ),
            decreases n - j,
        {
            assert(s@.subrange(j as int, n as int).drop_first() =~= s@.subrange(j + 1, n as int));
            assert(s@.subrange(i as int, j as int) + (seq![s@[j as int]] + leading_run(s@.subrange(j + 1, n as int)))
                =~= s@.subrange(i as int, j + 1) + leading_run(s@.subrange(j + 1, n as int)));
            j += 1;
        }
        proof {
            assert(s@.subrange(0, n as int) =~= s@);
            assert(leading_run(s@.subrange(j as int, n as int)) == Seq::<char>::empty());
            assert(s@.subrange(i as int, j as int) + Seq::<char>::empty() =~= s@.subrange(i as int, j as int));
            if i < n {
                assert(first_token(s@.subrange(i as int, n as int)) == leading_run(s@.subrange(i as int, n as int)));
            } else {
                assert(s@.subrange(i as int, j as int) =~= Seq::<char>::empty());
            }
        }
        slice_string(&s, i, j)
    }
}


impl Default for RushHinter {
    fn default() -> (r: Self)
        ensures
            r.hint() == Seq::<char>::empty(),
    {
        RushHinter::new()
    }
}

} // verus!
