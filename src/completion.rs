//! Tab completion of paths: which part of the line is completed, how it
//! splits into a directory and a name prefix, and which directory entries
//! are offered.

use vstd::prelude::*;
use vstd::string::*;
use crate::glob::{lower_of, to_lower};
use crate::order::{chars_lt, is_permutation, lemma_lt_irreflexive, lemma_lt_total, lemma_lt_transitive, seq_lt, sort_indices, sorted_by};
use crate::text::{chars_of, is_prefix, push_char, push_str, slice_string, starts_with_chars};
use crate::words::{tilde_exec, tilde_text};

verus! {

/// Kind of a completion.
#[derive(Debug, Clone, Copy, PartialEq, Eq, Structural)]
pub enum CompletionType {
    /// An executable from `PATH` or a built-in.
    Command,
    /// A file or directory.
    Path,
    /// A command-line flag.
    Flag,
}

/// Most suggestions offered at once; past this, none are.
pub const MAX_PATH_SUGGESTIONS: usize = 50;

/// A path completion: the text that replaces the characters
/// `start..end` of the line.
#[derive(Debug, Clone)]
pub struct PathSuggestion {
    pub value: String,
    pub start: usize,
    pub end: usize,
}

/// Completes file and directory names in argument positions.
#[derive(Debug, Clone)]
pub struct PathCompleter {
    case_sensitive: bool,
}

/// Position just after the last space of `s`, or 0.
pub open spec fn word_start(s: Seq<char>) -> int
    decreases s.len(),
{
    if s.len() == 0 {
        0
    } else if s.last() == ' ' {
        s.len() as int
    } else {
        word_start(s.drop_last())
    }
}

/// Position just after the last `/` of `s`, or 0.
pub open spec fn after_last_slash(s: Seq<char>) -> int
    decreases s.len(),
{
    if s.len() == 0 {
        0
    } else if s.last() == '/' {
        s.len() as int
    } else {
        after_last_slash(s.drop_last())
    }
}

proof fn lemma_word_start(s: Seq<char>)
    ensures
        0 <= word_start(s) <= s.len(),
        forall|i: int| word_start(s) <= i < s.len() ==> s[i] != ' ',
        word_start(s) > 0 ==> s[word_start(s) - 1] == ' ',
    decreases s.len(),
{
    if s.len() > 0 && s.last() != ' ' {
        lemma_word_start(s.drop_last());
        assert forall|i: int| word_start(s) <= i < s.len() implies s[i] != ' ' by {
            if i < s.len() - 1 {
                assert(s[i] == s.drop_last()[i]);
            }
        }
    }
}

proof fn lemma_after_last_slash(s: Seq<char>)
    ensures
        0 <= after_last_slash(s) <= s.len(),
        forall|i: int| after_last_slash(s) <= i < s.len() ==> s[i] != '/',
        after_last_slash(s) > 0 ==> s[after_last_slash(s) - 1] == '/',
    decreases s.len(),
{
    if s.len() > 0 && s.last() != '/' {
        lemma_after_last_slash(s.drop_last());
        assert forall|i: int| after_last_slash(s) <= i < s.len() implies s[i] != '/' by {
            if i < s.len() - 1 {
                assert(s[i] == s.drop_last()[i]);
            }
        }
    }
}

/// Finds the start of the word that ends at `end`.
fn word_start_exec(s: &Vec<char>, end: usize) -> (r: usize)
    requires
        end <= s@.len(),
    ensures
        r as int == word_start(s@.subrange(0, end as int)),
{
    let mut k: usize = end;
    while k > 0 && s[k - 1] != ' '
        invariant
            0 <= k <= end <= s@.len(),
            word_start(s@.subrange(0, end as int)) == word_start(s@.subrange(0, k as int)),
        decreases k,
    {
        assert(s@.subrange(0, k as int).drop_last() =~= s@.subrange(0, k - 1));
        k -= 1;
    }
    k
}

/// The name prefix `./` stands for when a path has no directory.
pub open spec fn current_dir() -> Seq<char> {
    seq!['.', '/']
}

/// `path` split into its directory (with the trailing `/`) and the name
/// prefix after it; a path without `/` lies in `./`.
pub open spec fn split_spec(path: Seq<char>) -> (Seq<char>, Seq<char>) {
    let k = after_last_slash(path);
    if k == 0 {
        (current_dir(), path)
    } else {
        (path.subrange(0, k), path.subrange(k, path.len() as int))
    }
}

/// `t` begins with `~` alone or `~/`.
pub open spec fn starts_with_tilde(t: Seq<char>) -> bool {
    t.len() > 0 && t[0] == '~' && (t.len() == 1 || t[1] == '/')
}

/// Text shown for a directory entry: `/` after a directory, and the whole
/// in double quotes when it holds a space.
pub open spec fn display_name(name: Seq<char>, is_dir: bool) -> Seq<char> {
    let d = if is_dir { name.push('/') } else { name };
    if d.contains(' ') {
        seq!['"'] + d + seq!['"']
    } else {
        d
    }
}

/// Display text of a listing entry.
pub open spec fn display_fn() -> spec_fn((String, bool)) -> Seq<char> {
    |e: (String, bool)| display_name(e.0@, e.1)
}

impl PathCompleter {
    /// A completer that matches names case-sensitively.
    pub fn new() -> (r: Self)
        ensures
            r.is_case_sensitive_spec(),
    {
        PathCompleter { case_sensitive: true }
    }

    /// A completer with the given case sensitivity (off suits
    /// case-insensitive file systems).
    pub fn with_case_sensitivity(case_sensitive: bool) -> (r: Self)
        ensures
            r.is_case_sensitive_spec() == case_sensitive,
    {
        PathCompleter { case_sensitive }
    }

    pub closed spec fn is_case_sensitive_spec(&self) -> bool {
        self.case_sensitive
    }

    /// Whether names are matched case-sensitively.
    pub fn case_sensitive(&self) -> (r: bool)
        ensures
            r == self.is_case_sensitive_spec(),
    {
        self.case_sensitive
    }

    /// `name` begins with `prefix`, ignoring case unless case-sensitive.
    pub open spec fn prefix_matches(&self, name: Seq<char>, prefix: Seq<char>) -> bool {
        if self.is_case_sensitive_spec() {
            is_prefix(prefix, name)
        } else {
            is_prefix(lower_of(prefix), lower_of(name))
        }
    }

    /// The word being completed at character position `pos`: `None` in the
    /// first word, which is a command name.
    pub fn extract_partial_path(&self, line: &str, pos: usize) -> (r: Option<String>)
        requires
            pos <= line@.len(),
        ensures
            ({
                let before = line@.subrange(0, pos as int);
                let st = word_start(before);
                match r {
                    None => st == 0,
                    Some(p) => st > 0 && p@ == before.subrange(st, before.len() as int),
                }
            }),
    {
        let s = chars_of(line);
        let start = word_start_exec(&s, pos);
        if start == 0 {
            return None;
        }
        proof {
            lemma_word_start(s@.subrange(0, pos as int));
        }
        let r = slice_string(&s, start, pos);
        assert(s@.subrange(start as int, pos as int) =~= line@.subrange(0, pos as int).subrange(
            start as int,
            pos as int,
        ));
        Some(r)
    }

    /// Splits a path into its directory and the name prefix.
    pub fn split_path_and_prefix(&self, path: &str) -> (r: (String, String))
        ensures
            (r.0@, r.1@) == split_spec(path@),
    {
        let s = chars_of(path);
        let mut k: usize = s.len();
        assert(s@.subrange(0, s@.len() as int) =~= s@);
        while k > 0 && s[k - 1] != '/'
            invariant
                0 <= k <= s@.len(),
                after_last_slash(s@) == after_last_slash(s@.subrange(0, k as int)),
            decreases k,
        {
            assert(s@.subrange(0, k as int).drop_last() =~= s@.subrange(0, k - 1));
            k -= 1;
        }
        proof {
            assert(s@.subrange(0, s@.len() as int) =~= s@);
        }
        if k == 0 {
            let mut d = String::new();
            push_char(&mut d, '.');
            push_char(&mut d, '/');
            assert(d@ =~= current_dir());
            (d, String::from_str(path))
        } else {
            (slice_string(&s, 0, k), slice_string(&s, k, s.len()))
        }
    }

    /// Whether `name` begins with `prefix`.
    pub fn matches_prefix(&self, name: &str, prefix: &str) -> (r: bool)
        ensures
            r == self.prefix_matches(name@, prefix@),
    {
        if self.case_sensitive {
            starts_with_chars(&chars_of(name), &chars_of(prefix))
        } else {
            let n = to_lower(name);
            let p = to_lower(prefix);
            starts_with_chars(&chars_of(n.as_str()), &chars_of(p.as_str()))
        }
    }

    /// `path` with a leading `~` or `~/` replaced by `home`.
    pub fn expand_tilde_with(&self, path: &str, home: Option<&str>) -> (r: String)
        ensures
            r@ == tilde_text(path@, match home { Some(h) => Some(h@), None => None }),
    {
        tilde_exec(path, home)
    }

    /// `path` with a leading `~` or `~/` replaced by the user's home
    /// directory, when the platform reports one. Which home that is depends
    /// on the machine; whatever it is, it is not empty.
    pub fn expand_tilde(&self, path: &str) -> (r: String)
        ensures
            exists|h: Option<Seq<char>>| (h matches Some(x) ==> x.len() > 0) && r@ == tilde_text(path@, h),
            !starts_with_tilde(path@) ==> r@ == path@,
    {
        let home = home_directory();
        match home {
            Some(h) => {
                let r = tilde_exec(path, Some(h.as_str()));
                assert((Some(h@) matches Some(x) ==> x.len() > 0) && r@ == tilde_text(path@, Some(h@)));
                r
            },
            None => {
                let r = tilde_exec(path, None);
                assert(r@ == tilde_text(path@, None));
                r
            },
        }
    }

    /// Whether entry `name` is offered for `prefix`: hidden names only when
    /// the prefix starts with `.`, and the name must begin with the prefix.
    pub open spec fn offered(&self, name: Seq<char>, prefix: Seq<char>) -> bool {
        !(name.len() > 0 && name[0] == '.' && !(prefix.len() > 0 && prefix[0] == '.')) && self.prefix_matches(
            name,
            prefix,
        )
    }

    /// Whether a listing entry is offered for `prefix`.
    pub open spec fn offered_pred(&self, prefix: Seq<char>) -> spec_fn((String, bool)) -> bool {
        |e: (String, bool)| self.offered(e.0@, prefix)
    }

    /// The entries offered for `prefix`, as displayed, in listing order.
    pub open spec fn shown(&self, entries: Seq<(String, bool)>, prefix: Seq<char>) -> Seq<Seq<char>> {
        entries.filter(self.offered_pred(prefix)).map_values(display_fn())
    }

    /// The entries of a directory listing offered for `prefix`, as
    /// displayed, sorted.
    pub fn list_matches(&self, entries: &Vec<(String, bool)>, prefix: &str) -> (r: Vec<String>)
        ensures
            ({
                let shown = self.shown(entries@, prefix@);
                &&& r@.len() == shown.len()
                &&& exists|idx: Seq<usize>|
                    is_permutation(idx, shown.len()) && forall|i: int|
                        0 <= i < r@.len() ==> #[trigger] r@[i]@ == shown[idx[i] as int]
                &&& forall|i: int, j: int| 0 <= i < j < r@.len() ==> !seq_lt(#[trigger] r@[j]@, #[trigger] r@[i]@)
            }),
    {
        let ghost f = self.offered_pred(prefix@);
        let ghost g = display_fn();
        let mut shown: Vec<String> = Vec::new();
        let mut i: usize = 0;
        let pchars = chars_of(prefix);
        let hidden_ok = pchars.len() > 0 && pchars[0] == '.';
        while i < entries.len()
            invariant
                0 <= i <= entries@.len(),
                pchars@ == prefix@,
                hidden_ok == (prefix@.len() > 0 && prefix@[0] == '.'),
                f == self.offered_pred(prefix@),
                g == display_fn(),
                shown@.map_values(|s: String| s@) == entries@.subrange(0, i as int).filter(f).map_values(g),
            decreases entries@.len() - i,
        {
            let ghost before = shown@.map_values(|s: String| s@);
            let name = &entries[i].0;
            let nchars = chars_of(name.as_str());
            let hidden = nchars.len() > 0 && nchars[0] == '.';
            let keep = !(hidden && !hidden_ok) && self.matches_prefix(name.as_str(), prefix);
            if keep {
                let mut d = String::from_str(name.as_str());
                if entries[i].1 {
                    push_char(&mut d, '/');
                }
                let dc = chars_of(d.as_str());
                if crate::text::has_char(&dc, ' ') {
                    let mut q = String::new();
                    push_char(&mut q, '"');
                    push_str(&mut q, d.as_str());
                    push_char(&mut q, '"');
                    assert(q@ =~= seq!['"'] + d@ + seq!['"']);
                    d = q;
                }
                let ghost dv = d@;
                shown.push(d);
                assert(shown@.map_values(|s: String| s@) =~= before.push(dv));
            } else {
                assert(shown@.map_values(|s: String| s@) =~= before);
            }
            proof {
                let sub = entries@.subrange(0, i + 1);
                assert(sub.drop_last() =~= entries@.subrange(0, i as int));
                reveal(Seq::filter);
                assert(sub.last() == entries@[i as int]);
                if f(entries@[i as int]) {
                    assert(sub.filter(f) == entries@.subrange(0, i as int).filter(f).push(entries@[i as int]));
                    assert(sub.filter(f).map_values(g) =~= entries@.subrange(0, i as int).filter(f).map_values(g).push(
                        g(entries@[i as int]),
                    ));
                } else {
                    assert(sub.filter(f) == entries@.subrange(0, i as int).filter(f));
                }
            }
            i += 1;
        }
        assert(entries@.subrange(0, entries@.len() as int) =~= entries@);
        let ghost sv = shown@.map_values(|s: String| s@);
        let mut keys: Vec<Vec<char>> = Vec::new();
        let mut j: usize = 0;
        while j < shown.len()
            invariant
                0 <= j <= shown@.len(),
                keys@.len() == j,
                forall|t: int| 0 <= t < j ==> #[trigger] keys@[t]@ == shown@[t]@,
            decreases shown@.len() - j,
        {
            keys.push(chars_of(shown[j].as_str()));
            j += 1;
        }
        let idx = sort_indices(&keys);
        let ghost kv = keys@.map_values(|k: Vec<char>| k@);
        let mut r: Vec<String> = Vec::new();
        let mut t: usize = 0;
        while t < idx.len()
            invariant
                sv == shown@.map_values(|s: String| s@),
                kv == keys@.map_values(|k: Vec<char>| k@),
                keys@.len() == shown@.len(),
                forall|q: int| 0 <= q < keys@.len() ==> #[trigger] keys@[q]@ == shown@[q]@,
                is_permutation(idx@, keys@.len()),
                sorted_by(idx@, kv),
                0 <= t <= idx@.len(),
                r@.len() == t,
                forall|q: int| 0 <= q < t ==> #[trigger] r@[q]@ == sv[idx@[q] as int],
            decreases idx@.len() - t,
        {
            r.push(shown[idx[t]].clone());
            t += 1;
        }
        proof {
            assert forall|i: int, j: int| 0 <= i < j < r@.len() implies !seq_lt(
                #[trigger] r@[j]@,
                #[trigger] r@[i]@,
            ) by {
                assert(kv[idx@[j] as int] == r@[j]@);
                assert(kv[idx@[i] as int] == r@[i]@);
            }
            assert(sv == self.shown(entries@, prefix@));
            assert(forall|i: int| 0 <= i < r@.len() ==> #[trigger] r@[i]@ == self.shown(entries@, prefix@)[idx@[i] as int]);
        }
        r
    }

    /// The suggestions for the line at character position `pos`, given the
    /// listing of the completed word's directory (`None` when it could not
    /// be read): each offered entry after the directory, replacing the
    /// word; none in the first word, none when nothing matches or when more
    /// than the cap would be offered.
    pub fn suggestions(&self, line: &str, pos: usize, listing: Option<Vec<(String, bool)>>) -> (r: Vec<PathSuggestion>)
        requires
            pos <= line@.len(),
        ensures
            forall|i: int| 0 <= i < r@.len() ==> (#[trigger] r@[i]).end == pos && r@[i].start as int == word_start(
                line@.subrange(0, pos as int),
            ),
            ({
                let before = line@.subrange(0, pos as int);
                let st = word_start(before);
                let split = split_spec(before.subrange(st, before.len() as int));
                match listing {
                    None => r@.len() == 0,
                    Some(es) => {
                        let shown = self.shown(es@, split.1);
                        if st == 0 || shown.len() == 0 || shown.len() > MAX_PATH_SUGGESTIONS {
                            r@.len() == 0
                        } else {
                            &&& r@.len() == shown.len()
                            &&& exists|idx: Seq<usize>|
                                is_permutation(idx, shown.len()) && forall|i: int|
                                    0 <= i < r@.len() ==> #[trigger] r@[i].value@ == split.0 + shown[idx[i] as int]
                            &&& forall|i: int, j: int|
                                0 <= i < j < r@.len() ==> !seq_lt(
                                    (#[trigger] r@[j]).value@.subrange(split.0.len() as int, r@[j].value@.len() as int),
                                    (#[trigger] r@[i]).value@.subrange(split.0.len() as int, r@[i].value@.len() as int),
                                )
                        }
                    },
                }
            }),
    {
        let partial = match self.extract_partial_path(line, pos) {
            None => return Vec::new(),
            Some(p) => p,
        };
        let (parent, prefix) = self.split_path_and_prefix(partial.as_str());
        let entries = match listing {
            None => return Vec::new(),
            Some(e) => e,
        };
        let names = self.list_matches(&entries, prefix.as_str());
        if names.len() > MAX_PATH_SUGGESTIONS || names.len() == 0 {
            return Vec::new();
        }
        let s = chars_of(line);
        let start = word_start_exec(&s, pos);
        let mut r: Vec<PathSuggestion> = Vec::new();
        let mut i: usize = 0;
        while i < names.len()
            invariant
                0 <= i <= names@.len() <= MAX_PATH_SUGGESTIONS,
                r@.len() == i,
                start as int == word_start(line@.subrange(0, pos as int)),
                forall|q: int| 0 <= q < r@.len() ==> (#[trigger] r@[q]).end == pos && r@[q].start == start,
                forall|q: int| 0 <= q < r@.len() ==> #[trigger] r@[q].value@ == parent@ + names@[q]@,
            decreases names@.len() - i,
        {
            let mut value = String::from_str(parent.as_str());
            push_str(&mut value, names[i].as_str());
            r.push(PathSuggestion { value, start, end: pos });
            i += 1;
        }
        proof {
            assert forall|q: int| 0 <= q < r@.len() implies #[trigger] r@[q].value@.subrange(
                parent@.len() as int,
                r@[q].value@.len() as int,
            ) == names@[q]@ by {
                assert(r@[q].value@.subrange(parent@.len() as int, r@[q].value@.len() as int) =~= names@[q]@);
            }
        }
        r
    }

    /// The directory whose listing `suggestions` needs for the line at
    /// `pos`: the directory part of the word being completed, with `~`
    /// expanded; `None` in the first word.
    pub fn directory_to_list(&self, line: &str, pos: usize) -> (r: Option<String>)
        requires
            pos <= line@.len(),
        ensures
            ({
                let before = line@.subrange(0, pos as int);
                let st = word_start(before);
                let dir = split_spec(before.subrange(st, before.len() as int)).0;
                &&& (st == 0) == (r is None)
                &&& r matches Some(d) ==> exists|h: Option<Seq<char>>|
                    (h matches Some(x) ==> x.len() > 0) && d@ == tilde_text(dir, h)
                &&& r matches Some(d) ==> (!starts_with_tilde(dir) ==> d@ == dir)
            }),
    {
        match self.extract_partial_path(line, pos) {
            None => None,
            Some(p) => {
                let (parent, prefix) = self.split_path_and_prefix(p.as_str());
                let d = self.expand_tilde(parent.as_str());
                proof {
                    let before = line@.subrange(0, pos as int);
                    let st = word_start(before);
                    assert(p@ == before.subrange(st, before.len() as int));
                    assert(parent@ == split_spec(p@).0);
                }
                Some(d)
            },
        }
    }
}

impl Default for PathCompleter {
    fn default() -> (r: Self)
        ensures
            r.is_case_sensitive_spec(),
    {
        PathCompleter::new()
    }
}

/// Relies on `dirs::home_dir`: the user's home directory, if the platform
/// reports one. Which one depends on the machine; `dirs` turns an empty
/// `HOME` or passwd entry into `None`, so a reported home is not empty.
#[verifier::external_body]
fn home_directory() -> (r: Option<String>)
    ensures
        r matches Some(h) ==> h@.len() > 0,
{
    dirs::home_dir().map(|p| p.to_string_lossy().to_string())
}


/// Which completer serves the word at the cursor: the first word names a
/// command, a word starting with `-` is a flag, any other is a path.
pub open spec fn context_spec(line: Seq<char>, pos: int) -> CompletionType {
    let before = line.subrange(0, pos);
    let st = word_start(before);
    if st == 0 {
        CompletionType::Command
    } else if st < before.len() && before[st] == '-' {
        CompletionType::Flag
    } else {
        CompletionType::Path
    }
}

/// The kind of completion wanted at character position `pos`.
pub fn completion_context(line: &str, pos: usize) -> (r: CompletionType)
    requires
        pos <= line@.len(),
    ensures
        r == context_spec(line@, pos as int),
{
    let s = chars_of(line);
    let st = word_start_exec(&s, pos);
    if st == 0 {
        CompletionType::Command
    } else if st < pos && s[st] == '-' {
        CompletionType::Flag
    } else {
        CompletionType::Path
    }
}

/// Names of the built-in commands, offered with the executables.
pub open spec fn builtin_names() -> Seq<Seq<char>> {
    seq!["bg"@, "cd"@, "echo"@, "exit"@, "export"@, "fg"@, "jobs"@, "pwd"@, "set"@]
}

fn builtin_name_list() -> (r: Vec<String>)
    ensures
        r@.map_values(|s: String| s@) == builtin_names(),
{
    let r = vec![
        String::from_str("bg"),
        String::from_str("cd"),
        String::from_str("echo"),
        String::from_str("exit"),
        String::from_str("export"),
        String::from_str("fg"),
        String::from_str("jobs"),
        String::from_str("pwd"),
        String::from_str("set"),
    ];
    assert(r@.map_values(|s: String| s@) =~= builtin_names());
    r
}

/// `k` is the text of some element of `r`.
pub open spec fn listed(r: Seq<String>, k: Seq<char>) -> bool {
    exists|i: int| 0 <= i < r.len() && r[i]@ == k
}

/// Inserts `x` into the strictly increasing `r`, unless already there.
fn insert_sorted(r: &mut Vec<String>, x: String)
    requires
        forall|i: int, j: int| 0 <= i < j < old(r)@.len() ==> seq_lt(#[trigger] old(r)@[i]@, #[trigger] old(r)@[j]@),
    ensures
        forall|i: int, j: int| 0 <= i < j < final(r)@.len() ==> seq_lt(#[trigger] final(r)@[i]@, #[trigger] final(r)@[j]@),
        forall|k: Seq<char>| #[trigger] listed(final(r)@, k) <==> (k == x@ || listed(old(r)@, k)),
{
    let xc = chars_of(x.as_str());
    let mut p: usize = 0;
    while p < r.len() && chars_lt(&chars_of(r[p].as_str()), &xc)
        invariant
            0 <= p <= r@.len(),
            xc@ == x@,
            r@ == old(r)@,
            forall|i: int| 0 <= i < p ==> seq_lt(#[trigger] r@[i]@, x@),
        decreases r@.len() - p,
    {
        p += 1;
    }
    if p < r.len() && str_eq_vec(&r[p], &x) {
        proof {
            assert forall|k: Seq<char>| #[trigger] listed(r@, k) <==> (k == x@ || listed(old(r)@, k)) by {
                if k == x@ {
                    assert(r@[p as int]@ == k);
                }
            }
        }
        return;
    }
    let ghost old_r = r@;
    let ghost xv = x@;
    r.insert(p, x);
    proof {
        if p < old_r.len() {
            assert(!seq_lt(old_r[p as int]@, xv));
            assert(old_r[p as int]@ != xv);
            lemma_lt_total(old_r[p as int]@, xv);
            assert(seq_lt(xv, old_r[p as int]@));
        }
        assert forall|i: int, j: int| 0 <= i < j < r@.len() implies seq_lt(#[trigger] r@[i]@, #[trigger] r@[j]@) by {
            if j < p {
                assert(r@[i] == old_r[i] && r@[j] == old_r[j]);
            } else if j == p {
                assert(r@[i] == old_r[i]);
            } else if i > p {
                assert(r@[i] == old_r[i - 1] && r@[j] == old_r[j - 1]);
            } else if i == p {
                assert(r@[j] == old_r[j - 1]);
                if j - 1 > p {
                    lemma_lt_transitive(xv, old_r[p as int]@, old_r[j - 1]@);
                }
            } else {
                assert(r@[i] == old_r[i] && r@[j] == old_r[j - 1]);
                if j - 1 > p {
                    lemma_lt_transitive(old_r[i]@, xv, old_r[p as int]@);
                    lemma_lt_transitive(old_r[i]@, old_r[p as int]@, old_r[j - 1]@);
                } else {
                    lemma_lt_transitive(old_r[i]@, xv, old_r[p as int]@);
                }
            }
        }
        assert forall|k: Seq<char>| #[trigger] listed(r@, k) <==> (k == xv || listed(old_r, k)) by {
            if listed(r@, k) {
                let i = choose|i: int| 0 <= i < r@.len() && r@[i]@ == k;
                if i < p {
                    assert(old_r[i]@ == k);
                } else if i > p {
                    assert(old_r[i - 1]@ == k);
                }
            }
            if listed(old_r, k) {
                let i = choose|i: int| 0 <= i < old_r.len() && old_r[i]@ == k;
                if i < p {
                    assert(r@[i]@ == k);
                } else {
                    assert(r@[i + 1]@ == k);
                }
            }
            if k == xv {
                assert(r@[p as int]@ == k);
            }
        }
    }
}

fn str_eq_vec(a: &String, b: &String) -> (r: bool)
    ensures
        r == (a@ == b@),
{
    crate::text::str_eq(a.as_str(), b.as_str())
}

/// Command names for the first word: the built-ins and the given
/// executables that begin with `prefix`, each once, sorted.
pub fn command_completions(prefix: &str, executables: &Vec<String>) -> (r: Vec<String>)
    ensures
        forall|i: int, j: int| 0 <= i < j < r@.len() ==> seq_lt(#[trigger] r@[i]@, #[trigger] r@[j]@),
        forall|k: Seq<char>| #[trigger] listed(r@, k) <==> (is_prefix(prefix@, k) && (builtin_names().contains(k)
            || listed(executables@, k))),
{
    let names = builtin_name_list();
    let ghost bn = names@.map_values(|s: String| s@);
    let p = chars_of(prefix);
    let mut r: Vec<String> = Vec::new();
    let mut i: usize = 0;
    while i < names.len()
        invariant
            0 <= i <= names@.len(),
            p@ == prefix@,
            bn == names@.map_values(|s: String| s@),
            bn == builtin_names(),
            forall|a: int, b: int| 0 <= a < b < r@.len() ==> seq_lt(#[trigger] r@[a]@, #[trigger] r@[b]@),
            forall|k: Seq<char>| #[trigger] listed(r@, k) <==> (is_prefix(prefix@, k) && listed(
                names@.subrange(0, i as int),
                k,
            )),
        decreases names@.len() - i,
    {
        let ghost before = r@;
        if starts_with_chars(&chars_of(names[i].as_str()), &p) {
            insert_sorted(&mut r, names[i].clone());
        }
        proof {
            assert forall|k: Seq<char>| #[trigger] listed(r@, k) <==> (is_prefix(prefix@, k) && listed(
                names@.subrange(0, i + 1),
                k,
            )) by {
                let s1 = names@.subrange(0, i + 1);
                let s0 = names@.subrange(0, i as int);
                if listed(s1, k) {
                    let a = choose|a: int| 0 <= a < s1.len() && s1[a]@ == k;
                    if a < i {
                        assert(s0[a] == s1[a]);
                    }
                }
                if listed(s0, k) {
                    let a = choose|a: int| 0 <= a < s0.len() && s0[a]@ == k;
                    assert(s1[a] == s0[a]);
                }
                if k == names@[i as int]@ {
                    assert(s1[i as int] == names@[i as int]);
                }
            }
        }
        i += 1;
    }
    proof {
        assert(names@.subrange(0, names@.len() as int) =~= names@);
        assert forall|k: Seq<char>| !listed(executables@.subrange(0, 0), k) by {}
    }
    let mut j: usize = 0;
    while j < executables.len()
        invariant
            0 <= j <= executables@.len(),
            p@ == prefix@,
            bn == names@.map_values(|s: String| s@),
            bn == builtin_names(),
            forall|a: int, b: int| 0 <= a < b < r@.len() ==> seq_lt(#[trigger] r@[a]@, #[trigger] r@[b]@),
            forall|k: Seq<char>| #[trigger] listed(r@, k) <==> (is_prefix(prefix@, k) && (listed(names@, k) || listed(
                executables@.subrange(0, j as int),
                k,
            ))),
        decreases executables@.len() - j,
    {
        if starts_with_chars(&chars_of(executables[j].as_str()), &p) {
            insert_sorted(&mut r, executables[j].clone());
        }
        proof {
            assert forall|k: Seq<char>| #[trigger] listed(r@, k) <==> (is_prefix(prefix@, k) && (listed(names@, k)
                || listed(executables@.subrange(0, j + 1), k))) by {
                let s1 = executables@.subrange(0, j + 1);
                let s0 = executables@.subrange(0, j as int);
                if listed(s1, k) {
                    let a = choose|a: int| 0 <= a < s1.len() && s1[a]@ == k;
                    if a < j {
                        assert(s0[a] == s1[a]);
                    }
                }
                if listed(s0, k) {
                    let a = choose|a: int| 0 <= a < s0.len() && s0[a]@ == k;
                    assert(s1[a] == s0[a]);
                }
                if k == executables@[j as int]@ {
                    assert(s1[j as int] == executables@[j as int]);
                }
            }
        }
        j += 1;
    }
    proof {
        assert(names@.subrange(0, names@.len() as int) =~= names@);
        assert(executables@.subrange(0, executables@.len() as int) =~= executables@);
        assert forall|k: Seq<char>| builtin_names().contains(k) <==> listed(names@, k) by {
            if builtin_names().contains(k) {
                let a = choose|a: int| 0 <= a < builtin_names().len() && builtin_names()[a] == k;
                assert(bn[a] == names@[a]@);
            }
            if listed(names@, k) {
                let a = choose|a: int| 0 <= a < names@.len() && names@[a]@ == k;
                assert(bn[a] == k);
            }
        }
    }
    r
}

} // verus!
