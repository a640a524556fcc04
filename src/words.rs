//! Turning the words of a parsed command into arguments: tilde, then
//! variables, then globbing, each where the word's quoting allows it.

use vstd::prelude::*;
use vstd::string::*;
use crate::expansion::{expand_from, expand_into, expand_spec, ident_end, lookup, starts_name, token_at};
use crate::names::{is_name_char, valid_name};
use crate::glob::{
    contains_glob_chars, escape_for_matcher, glob_rejects, has_unescaped_glob, hidden_unless_explicit, is_glob_char,
    lower_of, select_matches_on_disk,
};
use crate::lexer::{PartV, Quote, Word};
use crate::order::seq_lt;
use crate::text::{push_char, push_str};
use crate::variables::{strings_view, VariableManager};

verus! {

/// `s` with a backslash before each glob character and each backslash,
/// so that the matcher takes them literally.
pub open spec fn escape_globs(s: Seq<char>) -> Seq<char>
    decreases s.len(),
{
    if s.len() == 0 {
        s
    } else if is_glob_char(s[0]) || s[0] == '\\' {
        seq!['\\', s[0]] + escape_globs(s.drop_first())
    } else {
        seq![s[0]] + escape_globs(s.drop_first())
    }
}

proof fn lemma_escaped_has_no_glob(s: Seq<char>)
    ensures
        !has_unescaped_glob(escape_globs(s)),
    decreases s.len(),
{
    if s.len() > 0 {
        lemma_escaped_has_no_glob(s.drop_first());
        let e = escape_globs(s);
        if is_glob_char(s[0]) || s[0] == '\\' {
            assert(e.subrange(2, e.len() as int) =~= escape_globs(s.drop_first()));
        } else {
            assert(e.drop_first() =~= escape_globs(s.drop_first()));
        }
    }
}

/// A leading unquoted `~` or `~/` replaced by the home directory.
pub open spec fn tilde_text(t: Seq<char>, home: Option<Seq<char>>) -> Seq<char> {
    match home {
        Some(h) => if t.len() > 0 && t[0] == '~' && (t.len() == 1 || t[1] == '/') {
            h + t.drop_first()
        } else {
            t
        },
        None => t,
    }
}

/// Value text, pattern text and scalars after one part.
pub open spec fn part_out(
    p: PartV,
    m: Map<Seq<char>, Seq<char>>,
    a: Map<Seq<char>, Seq<Seq<char>>>,
    last: int,
    pid: nat,
) -> (Seq<char>, Seq<char>, Map<Seq<char>, Seq<char>>) {
    match p.0 {
        Quote::Single => (p.1, escape_globs(p.1), m),
        Quote::Double => {
            let e = expand_spec(p.1, m, a, last, pid, true);
            (e.0, escape_globs(e.0), e.1)
        },
        Quote::Bare => {
            let e = expand_spec(p.1, m, a, last, pid, true);
            (e.0, e.0, e.1)
        },
    }
}

/// The parts from the `k`-th on, with tilde expansion of the first part.
pub open spec fn parts_out(
    ps: Seq<PartV>,
    k: int,
    m: Map<Seq<char>, Seq<char>>,
    a: Map<Seq<char>, Seq<Seq<char>>>,
    last: int,
    pid: nat,
    home: Option<Seq<char>>,
) -> (Seq<char>, Seq<char>, Map<Seq<char>, Seq<char>>)
    decreases ps.len() - k,
{
    if k < 0 || k >= ps.len() {
        (Seq::empty(), Seq::empty(), m)
    } else {
        let p = if k == 0 && ps[0].0 == Quote::Bare { (Quote::Bare, tilde_text(ps[0].1, home)) } else { ps[k] };
        let h = part_out(p, m, a, last, pid);
        let r = parts_out(ps, k + 1, h.2, a, last, pid, home);
        (h.0 + r.0, h.1 + r.1, r.2)
    }
}

/// Some part of the word is quoted.
pub open spec fn has_quoted_part(ps: Seq<PartV>) -> bool {
    exists|i: int| 0 <= i < ps.len() && ps[i].0 != Quote::Bare
}

/// The arguments a word gives when it is no glob pattern: none for an
/// empty unquoted word, else its value.
pub open spec fn plain_args(ps: Seq<PartV>, value: Seq<char>) -> Seq<Seq<char>> {
    if value.len() == 0 && !has_quoted_part(ps) {
        Seq::empty()
    } else {
        seq![value]
    }
}

fn escape_globs_exec(s: &str) -> (r: String)
    ensures
        r@ == escape_globs(s@),
{
    let c = crate::text::chars_of(s);
    let n = c.len();
    let mut r = String::new();
    let mut i: usize = 0;
    assert(s@.subrange(0, n as int) =~= s@);
    assert(r@ + escape_globs(s@) =~= escape_globs(s@));
    while i < n
        invariant
            n == c@.len(),
            0 <= i <= n,
            c@ == s@,
            escape_globs(s@) == r@ + escape_globs(s@.subrange(i as int, n as int)),
        decreases n - i,
    {
        let ghost before = r@;
        let ghost rest = s@.subrange(i as int, n as int);
        assert(rest.drop_first() =~= s@.subrange(i + 1, n as int));
        if crate::glob::is_glob_character(c[i]) || c[i] == '\\' {
            push_char(&mut r, '\\');
            push_char(&mut r, c[i]);
            assert(before + (seq!['\\', rest[0]] + escape_globs(rest.drop_first())) =~= r@ + escape_globs(
                rest.drop_first(),
            ));
        } else {
            push_char(&mut r, c[i]);
            assert(before + (seq![rest[0]] + escape_globs(rest.drop_first())) =~= r@ + escape_globs(
                rest.drop_first(),
            ));
        }
        i += 1;
    }
    assert(escape_globs(s@.subrange(n as int, n as int)) =~= Seq::<char>::empty());
    assert(r@ + Seq::<char>::empty() =~= r@);
    r
}

pub fn tilde_exec(t: &str, home: Option<&str>) -> (r: String)
    ensures
        r@ == tilde_text(t@, match home { Some(h) => Some(h@), None => None }),
{
    match home {
        Some(h) => {
            let c = crate::text::chars_of(t);
            if c.len() > 0 && c[0] == '~' && (c.len() == 1 || c[1] == '/') {
                let mut r = String::from_str(h);
                let rest = crate::text::slice_string(&c, 1, c.len());
                push_str(&mut r, rest.as_str());
                assert(c@.subrange(1, c@.len() as int) =~= t@.drop_first());
                r
            } else {
                String::from_str(t)
            }
        },
        None => String::from_str(t),
    }
}

pub open spec fn home_view(home: Option<&str>) -> Option<Seq<char>> {
    match home {
        Some(h) => Some(h@),
        None => None,
    }
}

/// The value and glob pattern of a word, expanding its variables into
/// `vars` and appending messages of the `?` forms to `errors`.
pub fn word_value(
    w: &Word,
    vars: &mut VariableManager,
    home: Option<&str>,
    last_exit_code: i32,
    pid: u32,
    errors: &mut Vec<String>,
) -> (r: (String, String))
    requires
        old(vars).wf(),
    ensures
        final(vars).wf(),
        final(vars).arrays() == old(vars).arrays(),
        final(vars).exported_names() == old(vars).exported_names(),
        ({
            let o = parts_out(
                w.view(),
                0,
                old(vars).scalars(),
                old(vars).arrays(),
                last_exit_code as int,
                pid as nat,
                home_view(home),
            );
            r.0@ == o.0 && r.1@ == o.1 && final(vars).scalars() == o.2
        }),
{
    let ghost ps = w.view();
    let ghost m0 = vars.scalars();
    let ghost a = vars.arrays();
    let ghost x0 = vars.exported_names();
    let ghost last = last_exit_code as int;
    let ghost p = pid as nat;
    let ghost hv = home_view(home);
    let mut value = String::new();
    let mut pattern = String::new();
    let mut k: usize = 0;
    while k < w.parts.len()
        invariant
            ps == w.view(),
            0 <= k <= ps.len(),
            vars.wf(),
            vars.arrays() == a,
            vars.exported_names() == x0,
            last == last_exit_code as int,
            p == pid as nat,
            hv == home_view(home),
            ({
                let whole = parts_out(ps, 0, m0, a, last, p, hv);
                let rest = parts_out(ps, k as int, vars.scalars(), a, last, p, hv);
                whole.0 == value@ + rest.0 && whole.1 == pattern@ + rest.1 && whole.2 == rest.2
            }),
        decreases ps.len() - k,
    {
        let part = &w.parts[k];
        let ghost m = vars.scalars();
        let ghost v0 = value@;
        let ghost pat0 = pattern@;
        let ghost pv = if k == 0 && ps[0].0 == Quote::Bare { (Quote::Bare, tilde_text(ps[0].1, hv)) } else { ps[k as int] };
        match part.quote {
            Quote::Single => {
                push_str(&mut value, part.text.as_str());
                let e = escape_globs_exec(part.text.as_str());
                push_str(&mut pattern, e.as_str());
            },
            Quote::Double => {
                let out = expand_into(part.text.as_str(), vars, last_exit_code, pid, true, false);
                push_str(&mut value, out.text.as_str());
                let e = escape_globs_exec(out.text.as_str());
                push_str(&mut pattern, e.as_str());
                let mut more = out.errors;
                errors.append(&mut more);
            },
            Quote::Bare => {
                let src = if k == 0 {
                    tilde_exec(part.text.as_str(), home)
                } else {
                    String::from_str(part.text.as_str())
                };
                let out = expand_into(src.as_str(), vars, last_exit_code, pid, true, false);
                push_str(&mut value, out.text.as_str());
                push_str(&mut pattern, out.text.as_str());
                let mut more = out.errors;
                errors.append(&mut more);
            },
        }
        proof {
            let h = part_out(pv, m, a, last, p);
            assert(value@ == v0 + h.0);
            assert(pattern@ == pat0 + h.1);
            assert(vars.scalars() == h.2);
            let rest = parts_out(ps, k + 1, h.2, a, last, p, hv);
            assert(v0 + (h.0 + rest.0) =~= value@ + rest.0);
            assert(pat0 + (h.1 + rest.1) =~= pattern@ + rest.1);
        }
        k += 1;
    }
    proof {
        assert(value@ + Seq::<char>::empty() =~= value@);
        assert(pattern@ + Seq::<char>::empty() =~= pattern@);
    }
    (value, pattern)
}

fn has_quoted(w: &Word) -> (r: bool)
    ensures
        r == has_quoted_part(w.view()),
{
    let mut i: usize = 0;
    while i < w.parts.len()
        invariant
            0 <= i <= w.parts@.len(),
            forall|j: int| 0 <= j < i ==> w.view()[j].0 == Quote::Bare,
        decreases w.parts@.len() - i,
    {
        if w.parts[i].quote != Quote::Bare {
            assert(w.view()[i as int].0 != Quote::Bare);
            return true;
        }
        i += 1;
    }
    false
}

/// Expands one word into arguments: a word whose pattern holds an
/// unescaped glob character becomes its matches (or its value when none
/// match); any other word gives its value, or nothing when the value is
/// empty and no part was quoted.
pub fn expand_word(
    w: &Word,
    vars: &mut VariableManager,
    home: Option<&str>,
    last_exit_code: i32,
    pid: u32,
    errors: &mut Vec<String>,
) -> (r: Vec<String>)
    requires
        old(vars).wf(),
    ensures
        final(vars).wf(),
        final(vars).arrays() == old(vars).arrays(),
        final(vars).exported_names() == old(vars).exported_names(),
        ({
            let o = parts_out(
                w.view(),
                0,
                old(vars).scalars(),
                old(vars).arrays(),
                last_exit_code as int,
                pid as nat,
                home_view(home),
            );
            &&& final(vars).scalars() == o.2
            &&& !has_unescaped_glob(o.1) ==> strings_view(r@) == plain_args(w.view(), o.0)
            &&& has_unescaped_glob(o.1) ==> r@.len() >= 1 && forall|i: int, j: int|
                0 <= i < j < r@.len() ==> !seq_lt(lower_of(#[trigger] r@[j]@), lower_of(#[trigger] r@[i]@))
            &&& has_unescaped_glob(o.1) ==> (r@.map_values(|s: String| s@) == seq![o.0] || forall|i: int|
                0 <= i < r@.len() ==> !hidden_unless_explicit(escape_for_matcher(o.1), #[trigger] r@[i]@))
            &&& has_unescaped_glob(o.1) && glob_rejects(escape_for_matcher(o.1)) ==> r@.map_values(|s: String| s@)
                == seq![o.0]
        }),
{
    let (value, pattern) = word_value(w, vars, home, last_exit_code, pid, errors);
    if contains_glob_chars(pattern.as_str()) {
        return select_matches_on_disk(value.as_str(), pattern.as_str());
    }
    let mut r: Vec<String> = Vec::new();
    if value.unicode_len() == 0 && !has_quoted(w) {
        assert(strings_view(r@) =~= Seq::<Seq<char>>::empty());
        return r;
    }
    let ghost vv = value@;
    r.push(value);
    assert(strings_view(r@) =~= seq![vv]);
    r
}


/// A single-quoted word is taken literally: it gives exactly one
/// argument, its text, with no expansion of any kind.
pub proof fn law_single_quoted_literal(
    t: Seq<char>,
    m: Map<Seq<char>, Seq<char>>,
    a: Map<Seq<char>, Seq<Seq<char>>>,
    last: int,
    pid: nat,
    home: Option<Seq<char>>,
)
    ensures
        ({
            let ps = seq![(Quote::Single, t)];
            let o = parts_out(ps, 0, m, a, last, pid, home);
            &&& o.0 == t
            &&& o.2 == m
            &&& !has_unescaped_glob(o.1)
            &&& plain_args(ps, o.0) == seq![t]
        }),
{
    let ps = seq![(Quote::Single, t)];
    lemma_escaped_has_no_glob(t);
    assert(parts_out(ps, 1, m, a, last, pid, home) == (Seq::<char>::empty(), Seq::<char>::empty(), m));
    let o = parts_out(ps, 0, m, a, last, pid, home);
    assert(o.0 =~= t);
    assert(o.1 =~= escape_globs(t));
    assert(ps[0].0 != Quote::Bare);
}

/// `"$NAME"` gives exactly one argument, the value of `NAME` (empty when
/// unset), whatever spaces or glob characters the value holds.
pub proof fn law_double_quoted_variable_one_word(
    name: Seq<char>,
    m: Map<Seq<char>, Seq<char>>,
    a: Map<Seq<char>, Seq<Seq<char>>>,
    last: int,
    pid: nat,
    home: Option<Seq<char>>,
)
    requires
        valid_name(name),
    ensures
        ({
            let ps = seq![(Quote::Double, seq!['$'] + name)];
            let o = parts_out(ps, 0, m, a, last, pid, home);
            &&& o.0 == lookup(m, name)
            &&& o.2 == m
            &&& !has_unescaped_glob(o.1)
            &&& plain_args(ps, o.0) == seq![lookup(m, name)]
        }),
{
    let s = seq!['$'] + name;
    let ps = seq![(Quote::Double, s)];
    assert(s[1] == name[0]);
    assert(starts_name(s[1]));
    lemma_ident_to_end(s, 1);
    assert(s.subrange(1, s.len() as int) =~= name);
    let tok = token_at(s, 0, m, a, last, pid);
    assert(tok.0 == s.len());
    assert(expand_from(s, s.len() as int, m, a, last, pid, true, false, false) == (Seq::<char>::empty(), m, Seq::<Seq<char>>::empty()));
    let e = expand_spec(s, m, a, last, pid, true);
    assert(e.0 =~= lookup(m, name));
    assert(e.1 == m);
    let v = lookup(m, name);
    lemma_escaped_has_no_glob(v);
    assert(parts_out(ps, 1, m, a, last, pid, home) == (Seq::<char>::empty(), Seq::<char>::empty(), m));
    let o = parts_out(ps, 0, m, a, last, pid, home);
    assert(o.0 =~= v);
    assert(o.1 =~= escape_globs(v));
    assert(ps[0].0 != Quote::Bare);
}

proof fn lemma_ident_to_end(s: Seq<char>, j: int)
    requires
        1 <= j <= s.len(),
        forall|t: int| 1 <= t < s.len() ==> is_name_char(s[t]),
    ensures
        ident_end(s, j) == s.len(),
    decreases s.len() - j,
{
    if j < s.len() {
        lemma_ident_to_end(s, j + 1);
    }
}

} // verus!
