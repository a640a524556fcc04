//! Splitting a command line into words and operators.

use vstd::prelude::*;
use crate::text::{push_char};

verus! {

/// How a piece of a word was written.
#[derive(Debug, Clone, Copy, PartialEq, Eq, Structural)]
pub enum Quote {
    /// Unquoted: every expansion applies.
    Bare,
    /// In single quotes, or escaped by a backslash: taken literally.
    Single,
    /// In double quotes: variables expand, globbing does not.
    Double,
}

/// A run of characters of a word written one way.
#[derive(Debug, Clone)]
pub struct WordPart {
    pub text: String,
    pub quote: Quote,
}

/// A word, as the concatenation of its parts.
#[derive(Debug, Clone)]
pub struct Word {
    pub parts: Vec<WordPart>,
}

/// A token of a command line.
#[derive(Debug, Clone)]
pub enum Token {
    Word(Word),
    /// `|`
    Pipe,
    /// `<`
    Less,
    /// `>`
    Great,
    /// `>>`
    DGreat,
    /// `&`
    Amp,
}

pub type PartV = (Quote, Seq<char>);

pub type WordV = Seq<PartV>;

/// The meaning of a token.
pub enum TokV {
    Word(WordV),
    Pipe,
    Less,
    Great,
    DGreat,
    Amp,
}

impl WordPart {
    pub open spec fn view(&self) -> PartV {
        (self.quote, self.text@)
    }
}

impl Word {
    pub open spec fn view(&self) -> WordV {
        self.parts@.map_values(|p: WordPart| p.view())
    }
}

impl Token {
    pub open spec fn view(&self) -> TokV {
        match self {
            Token::Word(w) => TokV::Word(w.view()),
            Token::Pipe => TokV::Pipe,
            Token::Less => TokV::Less,
            Token::Great => TokV::Great,
            Token::DGreat => TokV::DGreat,
            Token::Amp => TokV::Amp,
        }
    }
}

pub open spec fn tokens_view(t: Seq<Token>) -> Seq<TokV> {
    t.map_values(|x: Token| x.view())
}

pub open spec fn is_space(c: char) -> bool {
    c == ' ' || c == '\t' || c == '\n' || c == '\r'
}

pub open spec fn is_operator_char(c: char) -> bool {
    c == '|' || c == '<' || c == '>' || c == '&'
}

/// A character that ends a run of unquoted word characters.
pub open spec fn ends_bare_run(c: char) -> bool {
    is_space(c) || is_operator_char(c) || c == '\'' || c == '"' || c == '\\'
}

/// End of the unquoted run that starts at `i`.
pub open spec fn bare_run_end(s: Seq<char>, i: int) -> int
    decreases s.len() - i,
{
    if i < 0 || i >= s.len() {
        s.len() as int
    } else if ends_bare_run(s[i]) {
        i
    } else {
        bare_run_end(s, i + 1)
    }
}

/// Position of the closing `'` at or after `i`.
pub open spec fn single_close(s: Seq<char>, i: int) -> Option<int>
    decreases s.len() - i,
{
    if i < 0 || i >= s.len() {
        None
    } else if s[i] == '\'' {
        Some(i)
    } else {
        single_close(s, i + 1)
    }
}

/// The body of a double-quoted string from `i`: the position of its
/// closing `"` and its text. `\"` and `\\` stand for `"` and `\`; `\$`
/// stays as written so that expansion reads it as a literal `$`.
pub open spec fn double_body(s: Seq<char>, i: int) -> Option<(int, Seq<char>)>
    decreases s.len() - i,
{
    if i < 0 || i >= s.len() {
        None
    } else if s[i] == '"' {
        Some((i, Seq::empty()))
    } else if s[i] == '\\' && i + 1 < s.len() && (s[i + 1] == '"' || s[i + 1] == '\\') {
        match double_body(s, i + 2) {
            Some(r) => Some((r.0, seq![s[i + 1]] + r.1)),
            None => None,
        }
    } else if s[i] == '\\' && i + 1 < s.len() {
        match double_body(s, i + 2) {
            Some(r) => Some((r.0, seq![s[i], s[i + 1]] + r.1)),
            None => None,
        }
    } else {
        match double_body(s, i + 1) {
            Some(r) => Some((r.0, seq![s[i]] + r.1)),
            None => None,
        }
    }
}

/// The parts of the word starting at `i`, and where it ends; `None` on an
/// unterminated quote.
pub open spec fn word_parts(s: Seq<char>, i: int) -> Option<(int, WordV)>
    decreases s.len() - i,
{
    if i < 0 || i >= s.len() || is_space(s[i]) || is_operator_char(s[i]) {
        Some((i, Seq::empty()))
    } else if s[i] == '\'' {
        match single_close(s, i + 1) {
            None => None,
            Some(j) => if j < i || j + 1 > s.len() { None } else { match word_parts(s, j + 1) {
                None => None,
                Some(r) => Some((r.0, seq![(Quote::Single, s.subrange(i + 1, j))] + r.1)),
            } },
        }
    } else if s[i] == '"' {
        match double_body(s, i + 1) {
            None => None,
            Some(b) => if b.0 < i + 1 || b.0 + 1 > s.len() { None } else {
                match word_parts(s, b.0 + 1) {
                    None => None,
                    Some(r) => Some((r.0, seq![(Quote::Double, b.1)] + r.1)),
                }
            },
        }
    } else if s[i] == '\\' {
        if i + 1 < s.len() {
            match word_parts(s, i + 2) {
                None => None,
                Some(r) => Some((r.0, seq![(Quote::Single, seq![s[i + 1]])] + r.1)),
            }
        } else {
            Some((i + 1, seq![(Quote::Bare, seq!['\\'])]))
        }
    } else {
        let e = bare_run_end(s, i);
        if e <= i || e > s.len() { None } else {
            match word_parts(s, e) {
                None => None,
                Some(r) => Some((r.0, seq![(Quote::Bare, s.subrange(i, e))] + r.1)),
            }
        }
    }
}

/// The tokens of `s` from `i`; `None` on an unterminated quote. An
/// unquoted `#` at the start of a token begins a comment.
pub open spec fn lex_from(s: Seq<char>, i: int) -> Option<Seq<TokV>>
    decreases s.len() - i,
{
    if i < 0 || i >= s.len() {
        Some(Seq::empty())
    } else if is_space(s[i]) {
        lex_from(s, i + 1)
    } else if s[i] == '#' {
        Some(Seq::empty())
    } else if s[i] == '|' {
        match lex_from(s, i + 1) { None => None, Some(t) => Some(seq![TokV::Pipe] + t) }
    } else if s[i] == '<' {
        match lex_from(s, i + 1) { None => None, Some(t) => Some(seq![TokV::Less] + t) }
    } else if s[i] == '>' && i + 1 < s.len() && s[i + 1] == '>' {
        match lex_from(s, i + 2) { None => None, Some(t) => Some(seq![TokV::DGreat] + t) }
    } else if s[i] == '>' {
        match lex_from(s, i + 1) { None => None, Some(t) => Some(seq![TokV::Great] + t) }
    } else if s[i] == '&' {
        match lex_from(s, i + 1) { None => None, Some(t) => Some(seq![TokV::Amp] + t) }
    } else {
        match word_parts(s, i) {
            None => None,
            Some(w) => if w.0 <= i || w.0 > s.len() { None } else {
                match lex_from(s, w.0) { None => None, Some(t) => Some(seq![TokV::Word(w.1)] + t) }
            },
        }
    }
}

pub fn is_space_char(c: char) -> (r: bool)
    ensures
        r == is_space(c),
{
    c == ' ' || c == '\t' || c == '\n' || c == '\r'
}

fn is_op_char(c: char) -> (r: bool)
    ensures
        r == is_operator_char(c),
{
    c == '|' || c == '<' || c == '>' || c == '&'
}

proof fn lemma_single_close(s: Seq<char>, i: int)
    requires
        0 <= i,
    ensures
        single_close(s, i) matches Some(j) ==> i <= j < s.len() && s[j] == '\'',
    decreases s.len() - i,
{
    if i < s.len() && s[i] != '\'' {
        lemma_single_close(s, i + 1);
    }
}

proof fn lemma_double_body(s: Seq<char>, i: int)
    requires
        0 <= i,
    ensures
        double_body(s, i) matches Some(r) ==> i <= r.0 < s.len(),
    decreases s.len() - i,
{
    if i < s.len() && s[i] != '"' {
        if s[i] == '\\' && i + 1 < s.len() {
            lemma_double_body(s, i + 2);
        } else {
            lemma_double_body(s, i + 1);
        }
    }
}

/// Reads the body of a double-quoted string starting at `i`.
fn read_double(s: &Vec<char>, i: usize) -> (r: Option<(usize, String)>)
    requires
        i <= s@.len(),
    ensures
        match r {
            Some(x) => double_body(s@, i as int) == Some((x.0 as int, x.1@)),
            None => double_body(s@, i as int) is None,
        },
    decreases s@.len() - i,
{
    if i >= s.len() {
        return None;
    }
    if s[i] == '"' {
        return Some((i, String::new()));
    }
    let n = s.len();
    if s[i] == '\\' && i + 1 < n && (s[i + 1] == '"' || s[i + 1] == '\\') {
        match read_double(s, i + 2) {
            Some((e, t)) => {
                let mut out = String::new();
                push_char(&mut out, s[i + 1]);
                let mut out2 = out;
                crate::text::push_str(&mut out2, t.as_str());
                assert(out2@ =~= seq![s@[i + 1]] + t@);
                Some((e, out2))
            },
            None => None,
        }
    } else if s[i] == '\\' && i + 1 < n {
        match read_double(s, i + 2) {
            Some((e, t)) => {
                let mut out = String::new();
                push_char(&mut out, s[i]);
                push_char(&mut out, s[i + 1]);
                crate::text::push_str(&mut out, t.as_str());
                assert(out@ =~= seq![s@[i as int], s@[i + 1]] + t@);
                Some((e, out))
            },
            None => None,
        }
    } else {
        match read_double(s, i + 1) {
            Some((e, t)) => {
                let mut out = String::new();
                push_char(&mut out, s[i]);
                crate::text::push_str(&mut out, t.as_str());
                assert(out@ =~= seq![s@[i as int]] + t@);
                Some((e, out))
            },
            None => None,
        }
    }
}

proof fn lemma_bare_run_end(s: Seq<char>, i: int)
    requires
        0 <= i <= s.len(),
    ensures
        i <= bare_run_end(s, i) <= s.len(),
    decreases s.len() - i,
{
    if i < s.len() && !ends_bare_run(s[i]) {
        lemma_bare_run_end(s, i + 1);
    }
}

proof fn lemma_word_parts(s: Seq<char>, i: int)
    requires
        0 <= i <= s.len(),
    ensures
        word_parts(s, i) matches Some(r) ==> i <= r.0 <= s.len(),
    decreases s.len() - i,
{
    if i < s.len() && !is_space(s[i]) && !is_operator_char(s[i]) {
        if s[i] == '\'' {
            lemma_single_close(s, i + 1);
            if let Some(j) = single_close(s, i + 1) {
                lemma_word_parts(s, j + 1);
            }
        } else if s[i] == '"' {
            lemma_double_body(s, i + 1);
            if let Some(b) = double_body(s, i + 1) {
                lemma_word_parts(s, b.0 + 1);
            }
        } else if s[i] == '\\' {
            if i + 1 < s.len() {
                lemma_word_parts(s, i + 2);
            }
        } else {
            lemma_bare_run_end(s, i);
            let e = bare_run_end(s, i);
            if e > i {
                lemma_word_parts(s, e);
            }
        }
    }
}

/// Reads the word that starts at `i`.
fn read_word(s: &Vec<char>, i: usize) -> (r: Option<(usize, Vec<WordPart>)>)
    requires
        i <= s@.len(),
    ensures
        match r {
            Some(x) => word_parts(s@, i as int) == Some(
                (x.0 as int, x.1@.map_values(|p: WordPart| p.view())),
            ),
            None => word_parts(s@, i as int) is None,
        },
    decreases s@.len() - i,
{
    let n = s.len();
    if i >= n || is_space_char(s[i]) || is_op_char(s[i]) {
        let v: Vec<WordPart> = Vec::new();
        assert(v@.map_values(|p: WordPart| p.view()) =~= Seq::<PartV>::empty());
        return Some((i, v));
    }
    let first: WordPart;
    let next: usize;
    if s[i] == '\'' {
        let mut j: usize = i + 1;
        while j < n && s[j] != '\''
            invariant
                n == s@.len(),
                i + 1 <= j <= n,
                single_close(s@, i + 1) == single_close(s@, j as int),
            decreases n - j,
        {
            j += 1;
        }
        if j == n {
            return None;
        }
        first = WordPart { text: crate::text::slice_string(s, i + 1, j), quote: Quote::Single };
        next = j + 1;
    } else if s[i] == '"' {
        proof {
            lemma_double_body(s@, i + 1);
        }
        match read_double(s, i + 1) {
            None => return None,
            Some((e, t)) => {
                first = WordPart { text: t, quote: Quote::Double };
                next = e + 1;
            },
        }
    } else if s[i] == '\\' {
        if i + 1 < n {
            let mut t = String::new();
            push_char(&mut t, s[i + 1]);
            assert(t@ =~= seq![s@[i + 1]]);
            first = WordPart { text: t, quote: Quote::Single };
            next = i + 2;
        } else {
            let mut t = String::new();
            push_char(&mut t, '\\');
            assert(t@ =~= seq!['\\']);
            let mut v: Vec<WordPart> = Vec::new();
            v.push(WordPart { text: t, quote: Quote::Bare });
            assert(v@.map_values(|p: WordPart| p.view()) =~= seq![(Quote::Bare, seq!['\\'])]);
            return Some((i + 1, v));
        }
    } else {
        let mut e: usize = i;
        while e < n && !(is_space_char(s[e]) || is_op_char(s[e]) || s[e] == '\'' || s[e] == '"' || s[e] == '\\')
            invariant
                n == s@.len(),
                i <= e <= n,
                bare_run_end(s@, i as int) == bare_run_end(s@, e as int),
            decreases n - e,
        {
            e += 1;
        }
        assert(bare_run_end(s@, e as int) == e);
        first = WordPart { text: crate::text::slice_string(s, i, e), quote: Quote::Bare };
        next = e;
    }
    match read_word(s, next) {
        None => None,
        Some((end, rest)) => {
            let mut v: Vec<WordPart> = Vec::new();
            let ghost fv = first.view();
            v.push(first);
            let mut rest = rest;
            let ghost rv = rest@.map_values(|p: WordPart| p.view());
            v.append(&mut rest);
            assert(v@.map_values(|p: WordPart| p.view()) =~= seq![fv] + rv);
            Some((end, v))
        },
    }
}

/// Splits `line` into tokens; `None` on an unterminated quote.
pub fn tokenize(line: &str) -> (r: Option<Vec<Token>>)
    ensures
        match r {
            Some(t) => lex_from(line@, 0) == Some(tokens_view(t@)),
            None => lex_from(line@, 0) is None,
        },
{
    let s = crate::text::chars_of(line);
    let n = s.len();
    let mut toks: Vec<Token> = Vec::new();
    let mut i: usize = 0;
    while i < n
        invariant
            n == s@.len(),
            s@ == line@,
            0 <= i <= n,
            match lex_from(s@, i as int) {
                Some(t) => lex_from(s@, 0) == Some(tokens_view(toks@) + t),
                None => lex_from(s@, 0) is None,
            },
        decreases n - i,
    {
        let c = s[i];
        let ghost before = tokens_view(toks@);
        if is_space_char(c) {
            i += 1;
            continue;
        }
        if c == '#' {
            assert(lex_from(s@, i as int) == Some(Seq::<TokV>::empty()));
            assert(before + Seq::<TokV>::empty() =~= before);
            assert(lex_from(s@, n as int) == Some(Seq::<TokV>::empty()));
            assert(before =~= before + Seq::<TokV>::empty());
            i = n;
            continue;
        }
        let tok: Token;
        let next: usize;
        if c == '|' {
            tok = Token::Pipe;
            next = i + 1;
        } else if c == '<' {
            tok = Token::Less;
            next = i + 1;
        } else if c == '>' && i + 1 < n && s[i + 1] == '>' {
            tok = Token::DGreat;
            next = i + 2;
        } else if c == '>' {
            tok = Token::Great;
            next = i + 1;
        } else if c == '&' {
            tok = Token::Amp;
            next = i + 1;
        } else {
            proof {
                lemma_word_parts(s@, i as int);
            }
            match read_word(&s, i) {
                None => return None,
                Some((e, parts)) => {
                    if e <= i {
                        return None;
                    }
                    tok = Token::Word(Word { parts });
                    next = e;
                },
            }
        }
        let ghost tv = tok.view();
        toks.push(tok);
        proof {
            assert(tokens_view(toks@) =~= before.push(tv));
            match lex_from(s@, next as int) {
                Some(t) => {
                    assert(before + (seq![tv] + t) =~= tokens_view(toks@) + t);
                },
                None => {},
            }
        }
        i = next;
    }
    proof {
        assert(tokens_view(toks@) + Seq::<TokV>::empty() =~= tokens_view(toks@));
    }
    Some(toks)
}

} // verus!
