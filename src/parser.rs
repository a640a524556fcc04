//! Building a pipeline from tokens:
//! `line := pipeline ('&')?`, `pipeline := simple ('|' simple)*`,
//! `simple := word+` with `< word`, `> word` and `>> word` among its words.

use vstd::prelude::*;
use vstd::string::*;
use crate::error::RushError;
use crate::lexer::{lex_from, tokenize, tokens_view, TokV, Token, Word, WordV};

verus! {

/// One command of a pipeline, with its own redirections.
#[derive(Debug)]
pub struct SimpleCommand {
    pub words: Vec<Word>,
    /// File to read standard input from (`<`).
    pub stdin: Option<Word>,
    /// File to write standard output to (`>` or `>>`).
    pub stdout: Option<Word>,
    /// Whether `stdout` appends (`>>`) rather than truncates (`>`).
    pub append: bool,
}

/// Commands joined by `|`, possibly run in the background.
#[derive(Debug)]
pub struct Pipeline {
    pub commands: Vec<SimpleCommand>,
    pub background: bool,
}

/// The meaning of a simple command.
pub struct CmdV {
    pub words: Seq<WordV>,
    pub stdin: Option<WordV>,
    pub stdout: Option<WordV>,
    pub append: bool,
}

pub open spec fn opt_word_view(w: Option<Word>) -> Option<WordV> {
    match w {
        Some(x) => Some(x.view()),
        None => None,
    }
}

impl SimpleCommand {
    pub open spec fn view(&self) -> CmdV {
        CmdV {
            words: self.words@.map_values(|w: Word| w.view()),
            stdin: opt_word_view(self.stdin),
            stdout: opt_word_view(self.stdout),
            append: self.append,
        }
    }
}

impl Pipeline {
    pub open spec fn view(&self) -> (Seq<CmdV>, bool) {
        (self.commands@.map_values(|c: SimpleCommand| c.view()), self.background)
    }
}

pub open spec fn empty_cmd() -> CmdV {
    CmdV { words: Seq::empty(), stdin: None, stdout: None, append: false }
}

/// One stage read from the front of `t` onto `acc`: the command, and the
/// tokens after it (empty, or starting with `|`). `None` when a
/// redirection lacks its word, `&` stands inside the line, or the stage
/// has no word.
pub open spec fn stage(t: Seq<TokV>, acc: CmdV) -> Option<(CmdV, Seq<TokV>)>
    decreases t.len(),
{
    if t.len() == 0 {
        if acc.words.len() == 0 { None } else { Some((acc, t)) }
    } else {
        match t[0] {
            TokV::Pipe => if acc.words.len() == 0 { None } else { Some((acc, t)) },
            TokV::Word(w) => stage(t.drop_first(), CmdV { words: acc.words.push(w), ..acc }),
            TokV::Amp => None,
            TokV::Less => if t.len() >= 2 && t[1] is Word {
                stage(t.subrange(2, t.len() as int), CmdV { stdin: Some(t[1]->Word_0), ..acc })
            } else { None },
            TokV::Great => if t.len() >= 2 && t[1] is Word {
                stage(t.subrange(2, t.len() as int), CmdV { stdout: Some(t[1]->Word_0), append: false, ..acc })
            } else { None },
            TokV::DGreat => if t.len() >= 2 && t[1] is Word {
                stage(t.subrange(2, t.len() as int), CmdV { stdout: Some(t[1]->Word_0), append: true, ..acc })
            } else { None },
        }
    }
}

/// All stages of `t`, separated by `|`.
pub open spec fn stages(t: Seq<TokV>) -> Option<Seq<CmdV>>
    decreases t.len(),
{
    match stage(t, empty_cmd()) {
        None => None,
        Some(x) => {
            let rest = x.1;
            if rest.len() == 0 {
                Some(seq![x.0])
            } else if rest.len() > t.len() {
                None
            } else {
                match stages(rest.drop_first()) {
                    None => None,
                    Some(cs) => Some(seq![x.0] + cs),
                }
            }
        },
    }
}

/// The pipeline that `t` denotes: a trailing `&` marks it background.
pub open spec fn parse_spec(t: Seq<TokV>) -> Option<(Seq<CmdV>, bool)> {
    let bg = t.len() > 0 && t.last() is Amp;
    let body = if bg { t.drop_last() } else { t };
    match stages(body) {
        None => None,
        Some(cs) => Some((cs, bg)),
    }
}

proof fn lemma_stage_rest(t: Seq<TokV>, acc: CmdV)
    ensures
        stage(t, acc) matches Some(x) ==> x.1.len() <= t.len() && (x.1.len() == 0 || x.1[0] is Pipe),
    decreases t.len(),
{
    if t.len() > 0 {
        match t[0] {
            TokV::Word(w) => lemma_stage_rest(t.drop_first(), CmdV { words: acc.words.push(w), ..acc }),
            TokV::Less => if t.len() >= 2 && t[1] is Word {
                lemma_stage_rest(t.subrange(2, t.len() as int), CmdV { stdin: Some(t[1]->Word_0), ..acc })
            },
            TokV::Great => if t.len() >= 2 && t[1] is Word {
                lemma_stage_rest(t.subrange(2, t.len() as int), CmdV { stdout: Some(t[1]->Word_0), append: false, ..acc })
            },
            TokV::DGreat => if t.len() >= 2 && t[1] is Word {
                lemma_stage_rest(t.subrange(2, t.len() as int), CmdV { stdout: Some(t[1]->Word_0), append: true, ..acc })
            },
            _ => {},
        }
    }
}

fn syntax_error(what: &str) -> (r: RushError)
    ensures
        r is Parse,
{
    let mut m = String::from_str("syntax error: ");
    crate::text::push_str(&mut m, what);
    RushError::Parse(m)
}

/// Reads one stage from the front of `toks` onto `acc`.
fn parse_stage(toks: &mut Vec<Token>, acc: SimpleCommand) -> (r: Option<SimpleCommand>)
    ensures
        match r {
            Some(c) => stage(tokens_view(old(toks)@), acc.view()) == Some((c.view(), tokens_view(final(toks)@))),
            None => stage(tokens_view(old(toks)@), acc.view()) is None,
        },
    decreases old(toks)@.len(),
{
    let ghost t = tokens_view(toks@);
    if toks.len() == 0 {
        if acc.words.len() == 0 {
            return None;
        }
        return Some(acc);
    }
    match &toks[0] {
        Token::Pipe => {
            if acc.words.len() == 0 {
                return None;
            }
            return Some(acc);
        },
        Token::Amp => {
            return None;
        },
        _ => {},
    }
    let first = toks.remove(0);
    proof {
        assert(tokens_view(toks@) =~= t.drop_first());
    }
    let mut acc = acc;
    match first {
        Token::Word(w) => {
            let ghost wv = w.view();
            let ghost before = acc.view();
            acc.words.push(w);
            proof {
                assert(acc.view().words =~= before.words.push(wv));
                assert(acc.view() == CmdV { words: before.words.push(wv), ..before });
            }
            parse_stage(toks, acc)
        },
        Token::Pipe => None,
        Token::Amp => None,
        op => {
            if toks.len() == 0 {
                return None;
            }
            let is_word = match &toks[0] {
                Token::Word(_) => true,
                _ => false,
            };
            if !is_word {
                return None;
            }
            let target = toks.remove(0);
            proof {
                assert(tokens_view(toks@) =~= t.subrange(2, t.len() as int));
            }
            let w = match target {
                Token::Word(w) => w,
                _ => { return None; },
            };
            let ghost before = acc.view();
            match op {
                Token::Less => {
                    acc.stdin = Some(w);
                },
                Token::Great => {
                    acc.stdout = Some(w);
                    acc.append = false;
                },
                _ => {
                    acc.stdout = Some(w);
                    acc.append = true;
                },
            }
            proof {
                assert(acc.view().words == before.words);
            }
            parse_stage(toks, acc)
        },
    }
}

/// Reads every stage of `toks`.
fn parse_stages(toks: &mut Vec<Token>) -> (r: Option<Vec<SimpleCommand>>)
    ensures
        match r {
            Some(cs) => stages(tokens_view(old(toks)@)) == Some(cs@.map_values(|c: SimpleCommand| c.view())),
            None => stages(tokens_view(old(toks)@)) is None,
        },
    decreases old(toks)@.len(),
{
    let ghost t = tokens_view(toks@);
    let empty = SimpleCommand { words: Vec::new(), stdin: None, stdout: None, append: false };
    assert(empty.view().words =~= Seq::<WordV>::empty());
    assert(empty.view() == empty_cmd());
    proof {
        lemma_stage_rest(t, empty_cmd());
    }
    match parse_stage(toks, empty) {
        None => None,
        Some(c) => {
            let ghost cv = c.view();
            if toks.len() == 0 {
                let mut v: Vec<SimpleCommand> = Vec::new();
                v.push(c);
                assert(v@.map_values(|c: SimpleCommand| c.view()) =~= seq![cv]);
                return Some(v);
            }
            let ghost after = tokens_view(toks@);
            let _pipe = toks.remove(0);
            let ghost rest = tokens_view(toks@);
            proof {
                assert(rest =~= after.drop_first());
                assert(after.len() <= t.len());
            }
            match parse_stages(toks) {
                None => None,
                Some(cs) => {
                    let mut v: Vec<SimpleCommand> = Vec::new();
                    v.push(c);
                    let ghost csv = cs@.map_values(|c: SimpleCommand| c.view());
                    let mut cs = cs;
                    v.append(&mut cs);
                    assert(v@.map_values(|c: SimpleCommand| c.view()) =~= seq![cv] + csv);
                    Some(v)
                },
            }
        },
    }
}

/// Builds the pipeline that `toks` denotes.
pub fn parse_tokens(toks: Vec<Token>) -> (r: Result<Pipeline, RushError>)
    ensures
        match r {
            Ok(p) => parse_spec(tokens_view(toks@)) == Some(p.view()),
            Err(e) => parse_spec(tokens_view(toks@)) is None && e is Parse,
        },
{
    let ghost t = tokens_view(toks@);
    let mut toks = toks;
    let n = toks.len();
    let background = n > 0 && match &toks[n - 1] {
        Token::Amp => true,
        _ => false,
    };
    if background {
        toks.pop();
        proof {
            assert(tokens_view(toks@) =~= t.drop_last());
        }
    }
    match parse_stages(&mut toks) {
        None => Err(syntax_error("misplaced operator or empty command")),
        Some(commands) => Ok(Pipeline { commands, background }),
    }
}

/// What a command line denotes: `None` for a line with no tokens (blank
/// or a comment), the pipeline otherwise.
pub open spec fn line_spec(s: Seq<char>) -> Option<Option<(Seq<CmdV>, bool)>> {
    match lex_from(s, 0) {
        None => None,
        Some(t) => if t.len() == 0 {
            Some(None)
        } else {
            match parse_spec(t) {
                None => None,
                Some(p) => Some(Some(p)),
            }
        },
    }
}

/// Parses a command line. `Ok(None)` for a line with no tokens; a parse
/// error for an unterminated quote or a line outside the grammar.
pub fn parse_line(line: &str) -> (r: Result<Option<Pipeline>, RushError>)
    ensures
        match r {
            Ok(None) => line_spec(line@) == Some(None::<(Seq<CmdV>, bool)>),
            Ok(Some(p)) => line_spec(line@) == Some(Some(p.view())),
            Err(e) => line_spec(line@) is None && e is Parse,
        },
{
    match tokenize(line) {
        None => Err(syntax_error("unterminated quote")),
        Some(toks) => {
            if toks.len() == 0 {
                return Ok(None);
            }
            match parse_tokens(toks) {
                Ok(p) => Ok(Some(p)),
                Err(e) => Err(e),
            }
        },
    }
}


/// Token `j` of `t` rules the line out: an `&`, or a redirection whose
/// next token is not a word.
pub open spec fn misplaced(t: Seq<TokV>, j: int) -> bool {
    &&& 0 <= j < t.len()
    &&& (t[j] is Amp || ((t[j] is Less || t[j] is Great || t[j] is DGreat) && (j + 1 >= t.len() || !(t[j
        + 1] is Word))))
}

proof fn lemma_stage_consumes(t: Seq<TokV>, acc: CmdV)
    ensures
        stage(t, acc) matches Some(x) ==> {
            &&& x.1.len() <= t.len()
            &&& x.1 == t.subrange(t.len() - x.1.len(), t.len() as int)
            &&& forall|j: int| 0 <= j < t.len() - x.1.len() ==> !misplaced(t, j)
        },
        stage(t, acc) is None ==> true,
    decreases t.len(),
{
    if t.len() > 0 {
        match t[0] {
            TokV::Word(w) => {
                let u = t.drop_first();
                let a2 = CmdV { words: acc.words.push(w), ..acc };
                lemma_stage_consumes(u, a2);
                if let Some(x) = stage(u, a2) {
                    assert(x.1 =~= t.subrange(t.len() - x.1.len(), t.len() as int));
                    assert forall|j: int| 0 <= j < t.len() - x.1.len() implies !misplaced(t, j) by {
                        if j > 0 {
                            assert(!misplaced(u, j - 1));
                            assert(t[j] == u[j - 1]);
                            if j + 1 < t.len() {
                                assert(t[j + 1] == u[j]);
                            }
                        }
                    }
                }
            },
            TokV::Pipe => {
                if acc.words.len() != 0 {
                    assert(t =~= t.subrange(0, t.len() as int));
                }
            },
            TokV::Amp => {},
            _ => {
                if t.len() >= 2 && t[1] is Word {
                    let u = t.subrange(2, t.len() as int);
                    let a2 = match t[0] {
                        TokV::Less => CmdV { stdin: Some(t[1]->Word_0), ..acc },
                        TokV::Great => CmdV { stdout: Some(t[1]->Word_0), append: false, ..acc },
                        _ => CmdV { stdout: Some(t[1]->Word_0), append: true, ..acc },
                    };
                    assert(stage(t, acc) == stage(u, a2));
                    lemma_stage_consumes(u, a2);
                    if let Some(x) = stage(u, a2) {
                        assert(x.1 =~= t.subrange(t.len() - x.1.len(), t.len() as int));
                        assert forall|j: int| 0 <= j < t.len() - x.1.len() implies !misplaced(t, j) by {
                            if j > 1 {
                                assert(!misplaced(u, j - 2));
                                assert(t[j] == u[j - 2]);
                                if j + 1 < t.len() {
                                    assert(t[j + 1] == u[j - 1]);
                                }
                            }
                        }
                    }
                }
            },
        }
    } else {
        assert(t =~= t.subrange(0, 0));
    }
}

proof fn lemma_stages_misplaced(t: Seq<TokV>, k: int)
    requires
        misplaced(t, k),
    ensures
        stages(t) is None,
    decreases t.len(),
{
    lemma_stage_consumes(t, empty_cmd());
    lemma_stage_rest(t, empty_cmd());
    if let Some(x) = stage(t, empty_cmd()) {
        let rest = x.1;
        let off = t.len() - rest.len();
        assert(k >= off);
        assert(rest.len() > 0);
        assert(rest[0] is Pipe);
        assert(rest[k - off] == t[k]);
        assert(k - off > 0);
        let r2 = rest.drop_first();
        assert(r2[k - off - 1] == t[k]);
        if k + 1 < t.len() {
            assert(r2[k - off] == t[k + 1]);
        }
        assert(misplaced(r2, k - off - 1));
        lemma_stages_misplaced(r2, k - off - 1);
    }
}

/// `&` is accepted only as the last token: anywhere else the line is a
/// parse error.
pub proof fn law_ampersand_only_last(t: Seq<TokV>, i: int)
    requires
        0 <= i < t.len() - 1,
        t[i] is Amp,
    ensures
        parse_spec(t) is None,
{
    let bg = t.len() > 0 && t.last() is Amp;
    let body = if bg { t.drop_last() } else { t };
    assert(body[i] == t[i]);
    assert(misplaced(body, i));
    lemma_stages_misplaced(body, i);
}

/// A redirection operator must be followed at once by a word: a line
/// where it is not is a parse error.
pub proof fn law_redirection_needs_word(t: Seq<TokV>, i: int)
    requires
        0 <= i < t.len(),
        t[i] is Less || t[i] is Great || t[i] is DGreat,
        i + 1 >= t.len() || !(t[i + 1] is Word),
    ensures
        parse_spec(t) is None,
{
    let bg = t.len() > 0 && t.last() is Amp;
    let body = if bg { t.drop_last() } else { t };
    assert(i < body.len());
    assert(body[i] == t[i]);
    if i + 1 < body.len() {
        assert(body[i + 1] == t[i + 1]);
    }
    assert(misplaced(body, i));
    lemma_stages_misplaced(body, i);
}


/// A line that is just `&` is a parse error.
pub proof fn law_lone_ampersand_is_an_error()
    ensures
        line_spec(seq!['&']) is None,
{
    let s = seq!['&'];
    assert(lex_from(s, 1) == Some(Seq::<TokV>::empty()));
    assert(lex_from(s, 0) == Some(seq![TokV::Amp] + Seq::<TokV>::empty()));
    let t = seq![TokV::Amp] + Seq::<TokV>::empty();
    assert(t =~= seq![TokV::Amp]);
    assert(t.drop_last() =~= Seq::<TokV>::empty());
    assert(stage(Seq::<TokV>::empty(), empty_cmd()) is None);
    assert(stages(Seq::<TokV>::empty()) is None);
}

/// `cmd &` is the single command `cmd`, run in the background.
pub proof fn law_trailing_ampersand_backgrounds()
    ensures
        ({
            let cmd = seq!['c', 'm', 'd'];
            line_spec(cmd + seq![' ', '&']) == Some(Some((
                seq![CmdV { words: seq![seq![(crate::lexer::Quote::Bare, cmd)]], stdin: None, stdout: None, append: false }],
                true,
            )))
        }),
{
    let cmd = seq!['c', 'm', 'd'];
    let s = cmd + seq![' ', '&'];
    assert(s.len() == 5);
    assert(crate::lexer::bare_run_end(s, 3) == 3);
    assert(crate::lexer::bare_run_end(s, 2) == 3);
    assert(crate::lexer::bare_run_end(s, 1) == 3);
    assert(crate::lexer::bare_run_end(s, 0) == 3);
    assert(crate::lexer::word_parts(s, 3) == Some((3int, Seq::<crate::lexer::PartV>::empty())));
    assert(s.subrange(0, 3) =~= cmd);
    let w = seq![(crate::lexer::Quote::Bare, cmd)];
    assert(crate::lexer::word_parts(s, 0) == Some((3int, seq![(crate::lexer::Quote::Bare, s.subrange(0, 3))] + Seq::<crate::lexer::PartV>::empty())));
    assert(seq![(crate::lexer::Quote::Bare, s.subrange(0, 3))] + Seq::<crate::lexer::PartV>::empty() =~= w);
    assert(lex_from(s, 5) == Some(Seq::<TokV>::empty()));
    assert(lex_from(s, 4) == Some(seq![TokV::Amp] + Seq::<TokV>::empty()));
    assert(seq![TokV::Amp] + Seq::<TokV>::empty() =~= seq![TokV::Amp]);
    assert(lex_from(s, 3) == lex_from(s, 4));
    let t = seq![TokV::Word(w), TokV::Amp];
    assert(lex_from(s, 0) == Some(seq![TokV::Word(w)] + seq![TokV::Amp]));
    assert(seq![TokV::Word(w)] + seq![TokV::Amp] =~= t);
    let body = t.drop_last();
    assert(body =~= seq![TokV::Word(w)]);
    let c = CmdV { words: seq![w], stdin: None, stdout: None, append: false };
    assert(body.drop_first() =~= Seq::<TokV>::empty());
    assert(empty_cmd().words.push(w) =~= seq![w]);
    assert(stage(body.drop_first(), CmdV { words: empty_cmd().words.push(w), ..empty_cmd() }) == Some((
        CmdV { words: empty_cmd().words.push(w), ..empty_cmd() },
        Seq::<TokV>::empty(),
    )));
    assert(stage(body, empty_cmd()) == Some((c, Seq::<TokV>::empty())));
    assert(stages(body) == Some(seq![c]));
}

/// `cmd >`, with no file after the operator, is a parse error.
pub proof fn law_redirection_at_end_is_an_error()
    ensures
        line_spec(seq!['c', 'm', 'd', ' ', '>']) is None,
{
    let s = seq!['c', 'm', 'd', ' ', '>'];
    assert(crate::lexer::bare_run_end(s, 3) == 3);
    assert(crate::lexer::bare_run_end(s, 2) == 3);
    assert(crate::lexer::bare_run_end(s, 1) == 3);
    assert(crate::lexer::bare_run_end(s, 0) == 3);
    assert(crate::lexer::word_parts(s, 3) == Some((3int, Seq::<crate::lexer::PartV>::empty())));
    let w = seq![(crate::lexer::Quote::Bare, s.subrange(0, 3))] + Seq::<crate::lexer::PartV>::empty();
    assert(lex_from(s, 5) == Some(Seq::<TokV>::empty()));
    assert(lex_from(s, 4) == Some(seq![TokV::Great] + Seq::<TokV>::empty()));
    assert(lex_from(s, 3) == lex_from(s, 4));
    let t = seq![TokV::Word(w)] + (seq![TokV::Great] + Seq::<TokV>::empty());
    assert(lex_from(s, 0) == Some(t));
    assert(t[1] is Great);
    assert(t.len() == 2);
    law_redirection_needs_word(t, 1);
}

} // verus!
