//! The read-eval loop's decisions: what each input line leads to, and the
//! session state that `$?`, history and jobs live in.

use vstd::prelude::*;
use vstd::string::*;
use crate::error::RushError;
use crate::jobs::JobTable;
use crate::lexer::is_space;
use crate::names::valid_name;
use crate::parser::{line_spec, parse_line, Pipeline};
use crate::text::chars_of;
use crate::variables::{scalar_entries, VariableManager};

verus! {

/// Tunables of the shell.
#[derive(Debug, Clone)]
pub struct Config {
    /// Text shown before each line.
    pub prompt: String,
    /// Most history entries kept.
    pub history_size: usize,
    /// Time allowed for computing completions, in milliseconds.
    pub completion_timeout_ms: u64,
    /// Delay before hints appear, in milliseconds.
    pub suggestion_delay_ms: u64,
}

impl Config {
    /// The configuration used when nothing overrides it.
    pub fn load() -> (r: Config)
        ensures
            r.prompt@ == "$ "@,
            r.history_size == 10_000,
            r.completion_timeout_ms == 100,
            r.suggestion_delay_ms == 50,
    {
        Config::default()
    }
}

impl Default for Config {
    fn default() -> (r: Config)
        ensures
            r.prompt@ == "$ "@,
            r.history_size == 10_000,
            r.completion_timeout_ms == 100,
            r.suggestion_delay_ms == 50,
    {
        Config {
            prompt: String::from_str("$ "),
            history_size: 10_000,
            completion_timeout_ms: 100,
            suggestion_delay_ms: 50,
        }
    }
}

/// What reading a line gave.
pub enum ReadResult {
    Line(String),
    /// End of input (Ctrl-D on an empty line).
    Eof,
    /// Ctrl-C at the prompt.
    Interrupt,
}

/// What the loop does next.
pub enum ReplAction {
    /// Show the prompt again.
    Prompt,
    /// Leave the shell with this code.
    Exit(i32),
    /// Report this parse error, then prompt again.
    ParseError(String),
    /// Expand and run this pipeline, then call `finish` with its code.
    Execute(Pipeline),
}

/// `s` holds only whitespace.
pub open spec fn blank(s: Seq<char>) -> bool {
    forall|i: int| 0 <= i < s.len() ==> is_space(#[trigger] s[i])
}

/// State of an interactive session.
pub struct Repl {
    pub config: Config,
    pub vars: VariableManager,
    pub jobs: JobTable,
    /// `$?`.
    pub last_exit_code: i32,
    /// Accepted lines, oldest first.
    pub history: Vec<String>,
}

impl Repl {
    pub open spec fn last_code(&self) -> i32 {
        self.last_exit_code
    }

    pub open spec fn history_view(&self) -> Seq<Seq<char>> {
        self.history@.map_values(|s: String| s@)
    }

    pub open spec fn wf(&self) -> bool {
        &&& self.vars.wf()
        &&& self.jobs.wf()
        &&& self.history@.len() <= self.config.history_size
    }

    /// A session with the default configuration and no variables.
    pub fn new() -> (r: Result<Repl, RushError>)
        ensures
            r is Ok,
            r matches Ok(s) ==> s.wf() && s.last_code() == 0 && s.history_view().len() == 0,
    {
        Repl::with_config(Config::default())
    }

    /// A session with `config` and no variables.
    pub fn with_config(config: Config) -> (r: Result<Repl, RushError>)
        ensures
            r is Ok,
            r matches Ok(s) ==> s.wf() && s.last_code() == 0 && s.history_view().len() == 0 && s.config == config,
    {
        let r = Repl {
            config,
            vars: VariableManager::new(),
            jobs: JobTable::new(),
            last_exit_code: 0,
            history: Vec::new(),
        };
        assert(r.history_view() =~= Seq::<Seq<char>>::empty());
        Ok(r)
    }

    /// Seeds the variables from the parent's environment, exporting each;
    /// pairs whose name is not a valid identifier are skipped, and where a
    /// name repeats the later pair wins. Names not in `env` keep their
    /// values.
    pub fn inherit_environment(&mut self, env: &Vec<(String, String)>)
        requires
            old(self).wf(),
        ensures
            final(self).wf(),
            final(self).last_code() == old(self).last_code(),
            final(self).history_view() == old(self).history_view(),
            final(self).vars.scalars() == seeded(old(self).vars.scalars(), scalar_entries(env@)),
            final(self).vars.exported_names() == seeded_names(old(self).vars.exported_names(), scalar_entries(env@)),
            forall|k: Seq<char>| #[trigger] final(self).vars.arrays().contains_key(k) ==> old(self).vars.arrays().contains_key(k) && final(self).vars.arrays()[k] == old(self).vars.arrays()[k],
            forall|i: int|
                0 <= i < env@.len() && valid_name(#[trigger] env@[i].0@) && (forall|j: int|
                    i < j < env@.len() ==> env@[j].0@ != env@[i].0@) ==> final(self).vars.scalars().contains_key(
                    env@[i].0@,
                ) && final(self).vars.scalars()[env@[i].0@] == env@[i].1@ && final(self).vars.exported_names().contains(env@[i].0@),
            forall|k: Seq<char>|
                (forall|j: int| 0 <= j < env@.len() ==> env@[j].0@ != k) ==> (#[trigger] final(self).vars.scalars().contains_key(k) == old(self).vars.scalars().contains_key(k) && (old(self).vars.scalars().contains_key(k) ==> final(self).vars.scalars()[k] == old(self).vars.scalars()[k])),
    {
        let ghost e = scalar_entries(env@);
        let ghost m0 = self.vars.scalars();
        let ghost x0 = self.vars.exported_names();
        let mut i: usize = 0;
        assert(e.subrange(0, 0) =~= Seq::<(Seq<char>, Seq<char>)>::empty());
        while i < env.len()
            invariant
                0 <= i <= env@.len(),
                e == scalar_entries(env@),
                self.wf(),
                self.last_code() == old(self).last_code(),
                self.history_view() == old(self).history_view(),
                forall|k: Seq<char>| #[trigger] self.vars.arrays().contains_key(k) ==> old(self).vars.arrays().contains_key(k) && self.vars.arrays()[k] == old(self).vars.arrays()[k],
                self.vars.scalars() == seeded(m0, e.subrange(0, i as int)),
                self.vars.exported_names() == seeded_names(x0, e.subrange(0, i as int)),
            decreases env@.len() - i,
        {
            let name = String::from_str(env[i].0.as_str());
            let value = String::from_str(env[i].1.as_str());
            let _ = self.vars.export_var(name, value);
            assert(e.subrange(0, i + 1).drop_last() =~= e.subrange(0, i as int));
            i += 1;
        }
        proof {
            assert(e.subrange(0, e.len() as int) =~= e);
            assert forall|i: int|
                0 <= i < env@.len() && valid_name(#[trigger] env@[i].0@) && (forall|j: int|
                    i < j < env@.len() ==> env@[j].0@ != env@[i].0@) implies self.vars.scalars().contains_key(
                    env@[i].0@,
                ) && self.vars.scalars()[env@[i].0@] == env@[i].1@ && self.vars.exported_names().contains(
                    env@[i].0@,
                ) by {
                lemma_seeded_last(m0, x0, e, i);
            }
            assert forall|k: Seq<char>|
                (forall|j: int| 0 <= j < env@.len() ==> env@[j].0@ != k) implies (#[trigger] self.vars.scalars().contains_key(
                    k,
                ) == m0.contains_key(k) && (m0.contains_key(k) ==> self.vars.scalars()[k] == m0[k])) by {
                lemma_seeded_untouched(m0, e, k);
            }
        }
    }

    /// The last pipeline's exit code, `$?`.
    pub fn last_exit_code(&self) -> (r: i32)
        ensures
            r == self.last_code(),
    {
        self.last_exit_code
    }

    /// The accepted lines, oldest first.
    pub fn history(&self) -> (r: &Vec<String>)
        ensures
            r@.map_values(|s: String| s@) == self.history_view(),
    {
        &self.history
    }

    /// Whether `s` holds only whitespace.
    pub fn blank_line(s: &str) -> (r: bool)
        ensures
            r == blank(s@),
    {
        let c = chars_of(s);
        let mut i: usize = 0;
        while i < c.len()
            invariant
                0 <= i <= c@.len(),
                c@ == s@,
                forall|q: int| 0 <= q < i ==> is_space(#[trigger] s@[q]),
            decreases c@.len() - i,
        {
            if !crate::lexer::is_space_char(c[i]) {
                return false;
            }
            i += 1;
        }
        true
    }

    /// Appends `line` to the history, dropping the oldest entry when full.
    fn remember(&mut self, line: String)
        requires
            old(self).wf(),
        ensures
            final(self).wf(),
            final(self).last_code() == old(self).last_code(),
            old(self).config.history_size > 0 ==> final(self).history_view().last() == line@,
            old(self).config.history_size > 0 ==> final(self).history_view().len() >= 1,
            final(self).config == old(self).config,
    {
        if self.config.history_size == 0 {
            return;
        }
        if self.history.len() >= self.config.history_size {
            self.history.remove(0);
        }
        self.history.push(line);
        proof {
            let hv = self.history@.map_values(|s: String| s@);
            assert(hv.last() == self.history@.last()@);
        }
    }

    /// Decides what to do with what was read. A blank line and Ctrl-C
    /// change nothing; end of input exits with 0; a parse error sets `$?`
    /// to 2; a pipeline is recorded in the history and handed back to run.
    pub fn step(&mut self, input: ReadResult) -> (r: ReplAction)
        requires
            old(self).wf(),
        ensures
            final(self).wf(),
            final(self).config == old(self).config,
            match input {
                ReadResult::Interrupt => r is Prompt && final(self).last_code() == old(self).last_code()
                    && final(self).history_view() == old(self).history_view(),
                ReadResult::Eof => r == ReplAction::Exit(0) && final(self).history_view() == old(self).history_view(),
                ReadResult::Line(l) => {
                    &&& blank(l@) ==> r is Prompt && final(self).last_code() == old(self).last_code()
                        && final(self).history_view() == old(self).history_view()
                    &&& !blank(l@) && line_spec(l@) is None ==> r is ParseError && final(self).last_code() == 2
                        && final(self).history_view() == old(self).history_view()
                    &&& !blank(l@) && line_spec(l@) == Some(None::<(Seq<crate::parser::CmdV>, bool)>) ==> r is Prompt
                        && final(self).last_code() == old(self).last_code() && final(self).history_view() == old(self).history_view()
                    &&& (!blank(l@) && line_spec(l@) is Some && line_spec(l@)->Some_0 is Some) ==> (r is Execute
                        && r->Execute_0.view() == line_spec(l@)->Some_0->Some_0) && final(self).last_code() == old(self).last_code() && (old(self).config.history_size > 0 ==> final(self).history_view().last()
                        == l@)
                },
            },
    {
        match input {
            ReadResult::Interrupt => ReplAction::Prompt,
            ReadResult::Eof => ReplAction::Exit(0),
            ReadResult::Line(l) => {
                if Repl::blank_line(l.as_str()) {
                    return ReplAction::Prompt;
                }
                match parse_line(l.as_str()) {
                    Err(e) => {
                        self.last_exit_code = 2;
                        ReplAction::ParseError(e.message())
                    },
                    Ok(None) => ReplAction::Prompt,
                    Ok(Some(p)) => {
                        self.remember(l);
                        ReplAction::Execute(p)
                    },
                }
            },
        }
    }

    /// Records the exit code of the pipeline just run as `$?`.
    pub fn finish(&mut self, code: i32)
        requires
            old(self).wf(),
        ensures
            final(self).wf(),
            final(self).last_code() == code,
            final(self).history_view() == old(self).history_view(),
            final(self).config == old(self).config,
    {
        self.last_exit_code = code;
    }
}


/// The scalars after seeding from `env`: each pair with a valid name is
/// set, in order.
pub open spec fn seeded(m: Map<Seq<char>, Seq<char>>, env: Seq<(Seq<char>, Seq<char>)>) -> Map<Seq<char>, Seq<char>>
    decreases env.len(),
{
    if env.len() == 0 {
        m
    } else {
        let before = seeded(m, env.drop_last());
        if valid_name(env.last().0) { before.insert(env.last().0, env.last().1) } else { before }
    }
}

/// The exported names after seeding from `env`.
pub open spec fn seeded_names(x: Set<Seq<char>>, env: Seq<(Seq<char>, Seq<char>)>) -> Set<Seq<char>>
    decreases env.len(),
{
    if env.len() == 0 {
        x
    } else {
        let before = seeded_names(x, env.drop_last());
        if valid_name(env.last().0) { before.insert(env.last().0) } else { before }
    }
}

proof fn lemma_seeded_last(m: Map<Seq<char>, Seq<char>>, x: Set<Seq<char>>, e: Seq<(Seq<char>, Seq<char>)>, i: int)
    requires
        0 <= i < e.len(),
        valid_name(e[i].0),
        forall|j: int| i < j < e.len() ==> e[j].0 != e[i].0,
    ensures
        seeded(m, e).contains_key(e[i].0),
        seeded(m, e)[e[i].0] == e[i].1,
        seeded_names(x, e).contains(e[i].0),
    decreases e.len(),
{
    if i < e.len() - 1 {
        let d = e.drop_last();
        assert(d[i] == e[i]);
        assert forall|j: int| i < j < d.len() implies d[j].0 != d[i].0 by {
            assert(d[j] == e[j]);
        }
        lemma_seeded_last(m, x, d, i);
        assert(e.last().0 != e[i].0);
    }
}

proof fn lemma_seeded_untouched(m: Map<Seq<char>, Seq<char>>, e: Seq<(Seq<char>, Seq<char>)>, k: Seq<char>)
    requires
        forall|j: int| 0 <= j < e.len() ==> e[j].0 != k,
    ensures
        seeded(m, e).contains_key(k) == m.contains_key(k),
        m.contains_key(k) ==> seeded(m, e)[k] == m[k],
    decreases e.len(),
{
    if e.len() > 0 {
        let d = e.drop_last();
        assert forall|j: int| 0 <= j < d.len() implies d[j].0 != k by {
            assert(d[j] == e[j]);
        }
        lemma_seeded_untouched(m, d, k);
        assert(e.last().0 != k);
    }
}

} // verus!
