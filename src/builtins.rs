//! Built-in commands: which names they are, and what each computes from
//! the session and its arguments.

use vstd::prelude::*;
use vstd::string::*;
use crate::error::RushError;
use crate::expansion::{all_digits, digits_value};
use crate::names::valid_name;
use crate::text::{chars_of, push_char, push_str, str_eq};
use crate::variables::{is_sorted_listing, strings_view, VariableManager};

verus! {

/// The built-in commands.
#[derive(Debug, Clone, Copy, PartialEq, Eq, Structural)]
pub enum Builtin {
    Cd,
    Export,
    ShowVars,
    Jobs,
    Fg,
    Bg,
    Exit,
    Echo,
    Pwd,
}

/// The built-in named `name`.
pub open spec fn builtin_spec(name: Seq<char>) -> Option<Builtin> {
    if name == "cd"@ { Some(Builtin::Cd) }
    else if name == "export"@ { Some(Builtin::Export) }
    else if name == "set"@ { Some(Builtin::ShowVars) }
    else if name == "jobs"@ { Some(Builtin::Jobs) }
    else if name == "fg"@ { Some(Builtin::Fg) }
    else if name == "bg"@ { Some(Builtin::Bg) }
    else if name == "exit"@ { Some(Builtin::Exit) }
    else if name == "echo"@ { Some(Builtin::Echo) }
    else if name == "pwd"@ { Some(Builtin::Pwd) }
    else { None }
}

/// The built-in named `name`, if it is one.
pub fn builtin_of(name: &str) -> (r: Option<Builtin>)
    ensures
        r == builtin_spec(name@),
{
    proof {
        reveal_strlit("cd");
        reveal_strlit("export");
        reveal_strlit("set");
        reveal_strlit("jobs");
        reveal_strlit("fg");
        reveal_strlit("bg");
        reveal_strlit("exit");
        reveal_strlit("echo");
        reveal_strlit("pwd");
    }
    if str_eq(name, "cd") { Some(Builtin::Cd) }
    else if str_eq(name, "export") { Some(Builtin::Export) }
    else if str_eq(name, "set") { Some(Builtin::ShowVars) }
    else if str_eq(name, "jobs") { Some(Builtin::Jobs) }
    else if str_eq(name, "fg") { Some(Builtin::Fg) }
    else if str_eq(name, "bg") { Some(Builtin::Bg) }
    else if str_eq(name, "exit") { Some(Builtin::Exit) }
    else if str_eq(name, "echo") { Some(Builtin::Echo) }
    else if str_eq(name, "pwd") { Some(Builtin::Pwd) }
    else { None }
}

/// Words joined by single spaces.
pub open spec fn join_words(w: Seq<Seq<char>>) -> Seq<char>
    decreases w.len(),
{
    if w.len() == 0 {
        Seq::empty()
    } else if w.len() == 1 {
        w[0]
    } else {
        join_words(w.drop_last()) + seq![' '] + w.last()
    }
}

/// What `echo` prints for `argv` (the command name first): the arguments
/// joined by spaces, then a newline.
pub fn echo_output(argv: &Vec<String>) -> (r: String)
    ensures
        argv@.len() >= 1 ==> r@ == join_words(strings_view(argv@).subrange(1, argv@.len() as int)).push('\n'),
        argv@.len() == 0 ==> r@ == seq!['\n'],
{
    let mut r = String::new();
    let mut i: usize = 1;
    let ghost sv = strings_view(argv@);
    while i < argv.len()
        invariant
            1 <= i,
            i <= argv@.len() || argv@.len() == 0,
            sv == strings_view(argv@),
            argv@.len() >= 1 ==> r@ == join_words(sv.subrange(1, i as int)),
            argv@.len() == 0 ==> r@ == Seq::<char>::empty(),
        decreases argv@.len() - i,
    {
        let ghost before = r@;
        if i > 1 {
            push_char(&mut r, ' ');
        }
        push_str(&mut r, argv[i].as_str());
        proof {
            assert(sv.subrange(1, i + 1).drop_last() =~= sv.subrange(1, i as int));
            if i == 1 {
                assert(r@ =~= sv.subrange(1, 2)[0]);
            } else {
                assert(r@ =~= before + seq![' '] + sv[i as int]);
            }
        }
        i += 1;
    }
    push_char(&mut r, '\n');
    proof {
        if argv@.len() == 0 {
            assert(r@ =~= seq!['\n']);
        }
    }
    r
}

/// The result of a built-in: exit code and the lines for each stream.
pub struct BuiltinOutput {
    pub code: i32,
    pub stdout: Vec<String>,
    pub stderr: Vec<String>,
}

/// `NAME=value` lines for a sorted listing.
fn assignment_lines(list: &Vec<(String, String)>) -> (r: Vec<String>)
    ensures
        r@.len() == list@.len(),
        forall|i: int| 0 <= i < r@.len() ==> #[trigger] r@[i]@ == list@[i].0@ + seq!['='] + list@[i].1@,
{
    let mut r: Vec<String> = Vec::new();
    let mut i: usize = 0;
    while i < list.len()
        invariant
            0 <= i <= list@.len(),
            r@.len() == i,
            forall|q: int| 0 <= q < i ==> #[trigger] r@[q]@ == list@[q].0@ + seq!['='] + list@[q].1@,
        decreases list@.len() - i,
    {
        let mut line = String::from_str(list[i].0.as_str());
        push_char(&mut line, '=');
        push_str(&mut line, list[i].1.as_str());
        assert(line@ =~= list@[i as int].0@ + seq!['='] + list@[i as int].1@);
        r.push(line);
        i += 1;
    }
    r
}

/// `set`: every scalar variable as `NAME=value`, sorted by name.
pub fn run_set(vars: &VariableManager) -> (r: BuiltinOutput)
    requires
        vars.wf(),
    ensures
        r.code == 0,
        r.stderr@.len() == 0,
        exists|l: Seq<(String, String)>|
            is_sorted_listing(l, vars.scalars()) && r.stdout@.len() == l.len() && forall|i: int|
                0 <= i < l.len() ==> #[trigger] r.stdout@[i]@ == l[i].0@ + seq!['='] + l[i].1@,
{
    let list = vars.list();
    let lines = assignment_lines(&list);
    BuiltinOutput { code: 0, stdout: lines, stderr: Vec::new() }
}

/// Position of the first `=` in `s`.
pub open spec fn first_eq(s: Seq<char>) -> Option<int>
    decreases s.len(),
{
    if s.len() == 0 {
        None
    } else if s.last() == '=' && first_eq(s.drop_last()) is None {
        Some(s.len() - 1)
    } else {
        first_eq(s.drop_last())
    }
}

fn first_eq_exec(s: &Vec<char>) -> (r: Option<usize>)
    ensures
        match r {
            Some(i) => first_eq(s@) == Some(i as int) && i < s@.len(),
            None => first_eq(s@) is None,
        },
{
    let mut i: usize = 0;
    while i < s.len()
        invariant
            0 <= i <= s@.len(),
            first_eq(s@.subrange(0, i as int)) is None,
            forall|q: int| 0 <= q < i ==> s@[q] != '=',
        decreases s@.len() - i,
    {
        assert(s@.subrange(0, i + 1).drop_last() =~= s@.subrange(0, i as int));
        if s[i] == '=' {
            proof {
                lemma_first_eq_prefix(s@, i as int);
            }
            return Some(i);
        }
        i += 1;
    }
    assert(s@.subrange(0, s@.len() as int) =~= s@);
    None
}

proof fn lemma_first_eq_prefix(s: Seq<char>, i: int)
    requires
        0 <= i < s.len(),
        s[i] == '=',
        first_eq(s.subrange(0, i)) is None,
    ensures
        first_eq(s) == Some(i),
    decreases s.len(),
{
    if s.len() - 1 == i {
        assert(s.drop_last() =~= s.subrange(0, i));
    } else {
        let d = s.drop_last();
        assert(d.subrange(0, i) =~= s.subrange(0, i));
        lemma_first_eq_prefix(d, i);
    }
}

/// One argument of `export` applied to scalars `m` and exported names
/// `x`: `NAME=value` (split at the first `=`) sets and exports `NAME`; a
/// bare `NAME` exports a set scalar. The flag says whether it succeeded.
pub open spec fn export_step(
    st: (Map<Seq<char>, Seq<char>>, Set<Seq<char>>, bool),
    a: Seq<char>,
) -> (Map<Seq<char>, Seq<char>>, Set<Seq<char>>, bool) {
    let (m, x, ok) = st;
    match first_eq(a) {
        Some(k) => {
            let n = a.subrange(0, k);
            if valid_name(n) {
                (m.insert(n, a.subrange(k + 1, a.len() as int)), x.insert(n), ok)
            } else {
                (m, x, false)
            }
        },
        None => if m.contains_key(a) { (m, x.insert(a), ok) } else { (m, x, false) },
    }
}

/// The arguments of `export` applied in order.
pub open spec fn export_all(
    m: Map<Seq<char>, Seq<char>>,
    x: Set<Seq<char>>,
    args: Seq<Seq<char>>,
) -> (Map<Seq<char>, Seq<char>>, Set<Seq<char>>, bool)
    decreases args.len(),
{
    if args.len() == 0 {
        (m, x, true)
    } else {
        export_step(export_all(m, x, args.drop_last()), args.last())
    }
}

/// `export`: with no arguments, the exported variables as `NAME=value`,
/// sorted; otherwise each argument in turn as `export_step` says. A
/// failing argument is reported and makes the exit code 1; the others
/// still take effect.
pub fn run_export(vars: &mut VariableManager, argv: &Vec<String>) -> (r: BuiltinOutput)
    requires
        old(vars).wf(),
    ensures
        final(vars).wf(),
        argv@.len() <= 1 ==> r.code == 0 && *final(vars) == *old(vars) && exists|l: Seq<(String, String)>|
            is_sorted_listing(l, old(vars).scalars().restrict(old(vars).exported_names())) && r.stdout@.len()
                == l.len() && forall|i: int| 0 <= i < l.len() ==> #[trigger] r.stdout@[i]@ == l[i].0@ + seq!['=']
                + l[i].1@,
        argv@.len() > 1 ==> ({
            let e = export_all(
                old(vars).scalars(),
                old(vars).exported_names(),
                strings_view(argv@).subrange(1, argv@.len() as int),
            );
            &&& final(vars).scalars() == e.0
            &&& final(vars).exported_names() == e.1
            &&& forall|k: Seq<char>| #[trigger] final(vars).arrays().contains_key(k) ==> old(vars).arrays().contains_key(k) && final(vars).arrays()[k] == old(vars).arrays()[k]
            &&& r.code == (if e.2 { 0i32 } else { 1i32 })
            &&& (r.code == 1 ==> r.stderr@.len() >= 1)
        }),
{
    if argv.len() <= 1 {
        let list = vars.list_exported();
        let lines = assignment_lines(&list);
        return BuiltinOutput { code: 0, stdout: lines, stderr: Vec::new() };
    }
    let ghost av = strings_view(argv@);
    let mut code: i32 = 0;
    let mut stderr: Vec<String> = Vec::new();
    let mut i: usize = 1;
    proof {
        assert(av.subrange(1, 1) =~= Seq::<Seq<char>>::empty());
    }
    while i < argv.len()
        invariant
            1 <= i <= argv@.len(),
            av == strings_view(argv@),
            vars.wf(),
            forall|k: Seq<char>| #[trigger] vars.arrays().contains_key(k) ==> old(vars).arrays().contains_key(k) && vars.arrays()[k] == old(vars).arrays()[k],
            ({
                let e = export_all(old(vars).scalars(), old(vars).exported_names(), av.subrange(1, i as int));
                vars.scalars() == e.0 && vars.exported_names() == e.1 && code == (if e.2 { 0i32 } else { 1i32 })
            }),
            code == 1 ==> stderr@.len() >= 1,
        decreases argv@.len() - i,
    {
        let ghost before = export_all(old(vars).scalars(), old(vars).exported_names(), av.subrange(1, i as int));
        assert(av.subrange(1, i + 1).drop_last() =~= av.subrange(1, i as int));
        assert(av.subrange(1, i + 1).last() == argv@[i as int]@);
        let c = chars_of(argv[i].as_str());
        let res = match first_eq_exec(&c) {
            Some(k) => {
                let name = crate::text::slice_string(&c, 0, k);
                let shown = name.clone();
                let value = crate::text::slice_string(&c, k + 1, c.len());
                match vars.export_var(name, value) {
                    Ok(()) => Ok(()),
                    Err(_) => {
                        let mut m = String::from_str("export: Invalid variable name '");
                        push_str(&mut m, shown.as_str());
                        push_str(&mut m, "'");
                        Err(m)
                    },
                }
            },
            None => match vars.export(argv[i].as_str()) {
                Ok(()) => Ok(()),
                Err(_) => {
                    let mut m = String::from_str("export: ");
                    push_str(&mut m, argv[i].as_str());
                    push_str(&mut m, ": not set (expected VAR=value)");
                    Err(m)
                },
            },
        };
        match res {
            Ok(()) => {},
            Err(m) => {
                stderr.push(m);
                code = 1;
            },
        }
        i += 1;
    }
    BuiltinOutput { code, stdout: Vec::new(), stderr }
}

/// The code `exit` ends the shell with: its argument, or the last exit
/// code when there is none; `None` for an argument that is no number.
pub fn exit_code_arg(argv: &Vec<String>, last_exit_code: i32) -> (r: Option<i32>)
    ensures
        argv@.len() <= 1 ==> r == Some(last_exit_code),
        argv@.len() > 1 ==> (r is Some <==> (crate::expansion::parse_i64(argv@[1]@) is Some && i32::MIN
            <= crate::expansion::parse_i64(argv@[1]@)->Some_0 <= i32::MAX)),
        argv@.len() > 1 && r is Some ==> crate::expansion::parse_i64(argv@[1]@) == Some(r->Some_0 as int),
{
    if argv.len() <= 1 {
        return Some(last_exit_code);
    }
    let c = chars_of(argv[1].as_str());
    match crate::expansion::parse_i64_chars(&c) {
        Some(v) => {
            if v >= i32::MIN as i64 && v <= i32::MAX as i64 {
                Some(v as i32)
            } else {
                None
            }
        },
        None => None,
    }
}

/// The directory `cd` changes to: its argument, or `$HOME` when it has
/// none; `None` when neither is there.
pub fn cd_target(argv: &Vec<String>, vars: &VariableManager) -> (r: Option<String>)
    requires
        vars.wf(),
    ensures
        argv@.len() > 1 ==> r is Some && r->Some_0@ == argv@[1]@,
        argv@.len() <= 1 ==> (r is Some == vars.scalars().contains_key("HOME"@)) && (r matches Some(d) ==> d@
            == vars.scalars()["HOME"@]),
{
    if argv.len() > 1 {
        return Some(String::from_str(argv[1].as_str()));
    }
    match vars.get("HOME") {
        Some(h) => Some(String::from_str(h)),
        None => None,
    }
}

/// The job `fg` or `bg` acts on: `%n` or `n` names job `n`; without an
/// argument, the newest job.
pub fn job_id_arg(argv: &Vec<String>, newest: Option<usize>) -> (r: Result<usize, RushError>)
    ensures
        argv@.len() <= 1 ==> (r is Ok <==> newest is Some) && (r is Ok ==> r->Ok_0 == newest->Some_0),
        argv@.len() > 1 ==> ({
            let a = argv@[1]@;
            let d = if a.len() > 0 && a[0] == '%' { a.drop_first() } else { a };
            &&& r is Ok ==> d.len() > 0 && all_digits(d) && digits_value(d) == r->Ok_0
            &&& (d.len() > 0 && all_digits(d) && digits_value(d) <= usize::MAX) ==> r is Ok
        }),
{
    if argv.len() <= 1 {
        return match newest {
            Some(id) => Ok(id),
            None => Err(RushError::JobNotFound(String::from_str("no current job"))),
        };
    }
    let c = chars_of(argv[1].as_str());
    let from: usize = if c.len() > 0 && c[0] == '%' { 1 } else { 0 };
    proof {
        if from == 1 {
            assert(c@.subrange(1, c@.len() as int) =~= c@.drop_first());
        } else {
            assert(c@.subrange(0, c@.len() as int) =~= c@);
        }
    }
    match crate::expansion::read_digits(&c, from) {
        Some(v) => {
            if v <= usize::MAX as u64 {
                Ok(v as usize)
            } else {
                Err(RushError::JobNotFound(String::from_str("no such job")))
            }
        },
        None => Err(RushError::JobNotFound(String::from_str("no such job"))),
    }
}


/// The built-in that runs inside the shell for a pipeline of `stages`
/// commands whose first word is `first`: only a lone foreground built-in
/// does; anything else runs in child processes.
pub fn runs_in_shell(first: &str, stages: usize, background: bool) -> (r: Option<Builtin>)
    ensures
        r == if stages == 1 && !background { builtin_spec(first@) } else { None },
{
    if stages == 1 && !background {
        builtin_of(first)
    } else {
        None
    }
}

/// A directory of `PATH`, as searched: an empty entry is the current
/// directory.
pub open spec fn search_dir(entry: Seq<char>) -> Seq<char> {
    if entry.len() == 0 { seq!['.'] } else { entry }
}

/// The paths tried, in order, to run `name`: the name itself when it holds
/// a `/`, else each entry of `path` (split at `:`) joined with the name.
pub open spec fn candidates_spec(name: Seq<char>, path: Seq<char>) -> Seq<Seq<char>> {
    if name.contains('/') {
        seq![name]
    } else {
        crate::worktree::split_on(path, ':').map_values(|e: Seq<char>| search_dir(e) + seq!['/'] + name)
    }
}

/// The paths to try, in order, when running `name` with search path
/// `path`; the first that exists and is executable wins.
pub fn exec_candidates(name: &str, path: &str) -> (r: Vec<String>)
    ensures
        strings_view(r@) == candidates_spec(name@, path@),
{
    let nc = chars_of(name);
    if crate::text::has_char(&nc, '/') {
        let mut r: Vec<String> = Vec::new();
        r.push(String::from_str(name));
        assert(strings_view(r@) =~= seq![name@]);
        return r;
    }
    let pc = chars_of(path);
    let entries = crate::worktree::split_chars(&pc, ':');
    let ghost ev = entries@.map_values(|v: Vec<char>| v@);
    let ghost f = |e: Seq<char>| search_dir(e) + seq!['/'] + name@;
    let mut r: Vec<String> = Vec::new();
    let mut i: usize = 0;
    while i < entries.len()
        invariant
            0 <= i <= entries@.len(),
            ev == entries@.map_values(|v: Vec<char>| v@),
            f == (|e: Seq<char>| search_dir(e) + seq!['/'] + name@),
            strings_view(r@) == ev.subrange(0, i as int).map_values(f),
        decreases entries@.len() - i,
    {
        let mut c = if entries[i].len() == 0 {
            let mut d = String::new();
            push_char(&mut d, '.');
            d
        } else {
            crate::text::from_chars(&entries[i])
        };
        push_char(&mut c, '/');
        push_str(&mut c, name);
        proof {
            if ev[i as int].len() == 0 {
                assert(search_dir(ev[i as int]) =~= seq!['.']);
            }
            assert(c@ =~= f(ev[i as int]));
        }
        let ghost before = strings_view(r@);
        let ghost cv = c@;
        r.push(c);
        assert(strings_view(r@) =~= before.push(cv));
        assert(ev.subrange(0, i + 1).map_values(f) =~= ev.subrange(0, i as int).map_values(f).push(f(ev[i as int])));
        i += 1;
    }
    assert(ev.subrange(0, ev.len() as int) =~= ev);
    r
}


proof fn lemma_first_eq_none(n: Seq<char>)
    requires
        !n.contains('='),
    ensures
        first_eq(n) is None,
    decreases n.len(),
{
    if n.len() > 0 {
        assert(n.last() == n[n.len() - 1]);
        assert forall|i: int| 0 <= i < n.drop_last().len() implies n.drop_last()[i] != '=' by {
            assert(n.drop_last()[i] == n[i]);
        }
        lemma_first_eq_none(n.drop_last());
    }
}

proof fn lemma_first_eq_assignment(n: Seq<char>, v: Seq<char>)
    requires
        !n.contains('='),
    ensures
        first_eq(n + seq!['='] + v) == Some(n.len() as int),
    decreases v.len(),
{
    let s = n + seq!['='] + v;
    if v.len() == 0 {
        assert(s.drop_last() =~= n);
        lemma_first_eq_none(n);
    } else {
        lemma_first_eq_assignment(n, v.drop_last());
        assert(s.drop_last() =~= n + seq!['='] + v.drop_last());
    }
}

/// `export NAME=value` with an invalid `NAME` (one holding no `=`) fails
/// and leaves every variable and every export flag as it was.
pub proof fn law_export_invalid_name_changes_nothing(
    m: Map<Seq<char>, Seq<char>>,
    x: Set<Seq<char>>,
    name: Seq<char>,
    value: Seq<char>,
)
    requires
        !valid_name(name),
        !name.contains('='),
    ensures
        export_all(m, x, seq![name + seq!['='] + value]) == (m, x, false),
{
    let a = name + seq!['='] + value;
    lemma_first_eq_assignment(name, value);
    assert(a.subrange(0, name.len() as int) =~= name);
    assert(seq![a].drop_last() =~= Seq::<Seq<char>>::empty());
    assert(export_all(m, x, seq![a].drop_last()) == (m, x, true));
    assert(seq![a].last() == a);
    assert(export_step((m, x, true), a) == (m, x, false));
}

} // verus!
