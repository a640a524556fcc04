//! Glob expansion of command arguments: which words are patterns, how
//! escapes reach the matcher, and how matches are filtered and ordered.

use vstd::prelude::*;
use vstd::string::*;
use crate::order::{is_permutation, seq_lt, sort_indices, sorted_by};
use crate::text::{chars_of, push_char, slice_string};
use crate::worktree::trim_slashes;

verus! {

pub open spec fn is_glob_char(c: char) -> bool {
    c == '*' || c == '?' || c == '['
}

/// `s` holds `*`, `?` or `[` that no backslash escapes.
pub open spec fn has_unescaped_glob(s: Seq<char>) -> bool
    decreases s.len(),
{
    if s.len() == 0 {
        false
    } else if s[0] == '\\' && s.len() >= 2 {
        has_unescaped_glob(s.subrange(2, s.len() as int))
    } else if is_glob_char(s[0]) {
        true
    } else {
        has_unescaped_glob(s.drop_first())
    }
}

/// `s` is wrapped in a pair of single or double quotes.
pub open spec fn quoted(s: Seq<char>) -> bool {
    s.len() >= 2 && ((s[0] == '"' && s[s.len() - 1] == '"') || (s[0] == '\'' && s[s.len() - 1] == '\''))
}

/// `s` without its surrounding quotes, if it has them.
pub open spec fn unquoted(s: Seq<char>) -> Seq<char> {
    if quoted(s) {
        s.subrange(1, s.len() - 1)
    } else {
        s
    }
}

/// The pattern handed to the matcher: `\*`, `\?` and `\[` become the
/// one-character classes `[*]`, `[?]` and `[[]`.
pub open spec fn escape_for_matcher(s: Seq<char>) -> Seq<char>
    decreases s.len(),
{
    if s.len() == 0 {
        Seq::empty()
    } else if s[0] == '\\' && s.len() >= 2 && is_glob_char(s[1]) {
        seq!['[', s[1], ']'] + escape_for_matcher(s.subrange(2, s.len() as int))
    } else {
        seq![s[0]] + escape_for_matcher(s.drop_first())
    }
}

/// The last component of a path: what follows its last `/`.
pub open spec fn last_component(p: Seq<char>) -> Seq<char>
    decreases p.len(),
{
    if p.len() == 0 {
        p
    } else if p.last() == '/' {
        Seq::empty()
    } else {
        last_component(p.drop_last()).push(p.last())
    }
}

/// The file name of a path: its last component, trailing slashes aside.
pub open spec fn file_name(p: Seq<char>) -> Seq<char> {
    last_component(trim_slashes(p))
}

pub open spec fn starts_with_dot(s: Seq<char>) -> bool {
    s.len() > 0 && s[0] == '.'
}

/// A match to leave out: a hidden name that the pattern's last component
/// does not ask for by starting with `.`.
pub open spec fn hidden_unless_explicit(pattern: Seq<char>, path: Seq<char>) -> bool {
    starts_with_dot(file_name(path)) && !starts_with_dot(file_name(pattern))
}

/// The matches that are kept.
pub open spec fn visible_matches(pattern: Seq<char>, paths: Seq<Seq<char>>) -> Seq<Seq<char>> {
    paths.filter(|p: Seq<char>| !hidden_unless_explicit(pattern, p))
}

/// What `str::to_lowercase` returns for `s`.
pub uninterp spec fn lower_of(s: Seq<char>) -> Seq<char>;

/// ASCII text with no capital letter, which lower-casing leaves as it is.
pub open spec fn ascii_plain(s: Seq<char>) -> bool {
    forall|i: int| 0 <= i < s.len() ==> (#[trigger] s[i] as u32) < 128 && !('A' <= s[i] && s[i] <= 'Z')
}

/// Relies on `str::to_lowercase`: the lower-case form of `s`, a function of
/// its characters alone; ASCII text without capitals maps to itself.
#[verifier::external_body]
pub(crate) fn to_lower(s: &str) -> (r: String)
    ensures
        r@ == lower_of(s@),
        ascii_plain(s@) ==> r@ == s@,
{
    s.to_lowercase()
}

/// Whether `glob::glob` rejects `pattern` as malformed.
pub uninterp spec fn glob_rejects(pattern: Seq<char>) -> bool;

/// Relies on `glob::glob`: the paths on disk that match `pattern`, in the
/// crate's order; `None` where the crate rejects the pattern, which its
/// pattern parser decides from the text alone. What is on disk decides the
/// paths, so nothing is promised of them.
#[verifier::external_body]
fn glob_paths(pattern: &str) -> (r: Option<Vec<String>>)
    ensures
        r is None == glob_rejects(pattern@),
{
    match glob::glob(pattern) {
        Ok(paths) => Some(paths.filter_map(|e| e.ok()).map(|p| p.to_string_lossy().to_string()).collect()),
        Err(_) => None,
    }
}

pub fn is_glob_character(c: char) -> (r: bool)
    ensures
        r == is_glob_char(c),
{
    c == '*' || c == '?' || c == '['
}

/// Whether `s` holds a glob character that no backslash escapes.
pub fn contains_glob_chars(s: &str) -> (r: bool)
    ensures
        r == has_unescaped_glob(s@),
{
    let chars = chars_of(s);
    let n = chars.len();
    let mut i: usize = 0;
    assert(s@.subrange(0, n as int) =~= s@);
    while i < n
        invariant
            n == chars@.len(),
            chars@ == s@,
            0 <= i <= n + 1,
            i <= n ==> has_unescaped_glob(s@) == has_unescaped_glob(s@.subrange(i as int, n as int)),
            i > n ==> !has_unescaped_glob(s@),
        decreases n + 1 - i,
    {
        let ghost rest = s@.subrange(i as int, n as int);
        if chars[i] == '\\' && i + 1 < n {
            assert(rest.subrange(2, rest.len() as int) =~= s@.subrange(i + 2, n as int));
            i += 2;
            if i > n {
                assert(false);
            }
            continue;
        }
        if is_glob_character(chars[i]) {
            return true;
        }
        assert(rest.drop_first() =~= s@.subrange(i + 1, n as int));
        i += 1;
    }
    proof {
        if i == n {
            assert(s@.subrange(n as int, n as int).len() == 0);
        }
    }
    false
}

/// Whether `s` is wrapped in matching single or double quotes.
pub fn is_quoted(s: &str) -> (r: bool)
    ensures
        r == quoted(s@),
{
    let n = s.unicode_len();
    if n < 2 {
        return false;
    }
    let first = s.get_char(0);
    let last = s.get_char(n - 1);
    (first == '"' && last == '"') || (first == '\'' && last == '\'')
}

/// `s` without its surrounding quotes; unchanged when it has none.
pub fn unquote(s: &str) -> (r: String)
    ensures
        r@ == unquoted(s@),
{
    if is_quoted(s) {
        let chars = chars_of(s);
        slice_string(&chars, 1, chars.len() - 1)
    } else {
        String::from_str(s)
    }
}

/// Rewrites escaped glob characters as one-character classes, which the
/// matcher takes literally.
pub fn unescape_non_glob(s: &str) -> (r: String)
    ensures
        r@ == escape_for_matcher(s@),
{
    let chars = chars_of(s);
    let n = chars.len();
    let mut r = String::new();
    let mut i: usize = 0;
    assert(s@.subrange(0, n as int) =~= s@);
    assert(r@ + escape_for_matcher(s@) =~= escape_for_matcher(s@));
    while i < n
        invariant
            n == chars@.len(),
            chars@ == s@,
            0 <= i <= n,
            escape_for_matcher(s@) == r@ + escape_for_matcher(s@.subrange(i as int, n as int)),
        decreases n - i,
    {
        let ghost rest = s@.subrange(i as int, n as int);
        let ghost r0 = r@;
        if chars[i] == '\\' && i + 1 < n && is_glob_character(chars[i + 1]) {
            push_char(&mut r, '[');
            push_char(&mut r, chars[i + 1]);
            push_char(&mut r, ']');
            assert(rest.subrange(2, rest.len() as int) =~= s@.subrange(i + 2, n as int));
            assert(r@ =~= r0 + seq!['[', rest[1], ']']);
            assert(r0 + (seq!['[', rest[1], ']'] + escape_for_matcher(s@.subrange(i + 2, n as int)))
                =~= r@ + escape_for_matcher(s@.subrange(i + 2, n as int)));
            i += 2;
        } else {
            push_char(&mut r, chars[i]);
            assert(rest.drop_first() =~= s@.subrange(i + 1, n as int));
            assert(r0 + (seq![rest[0]] + escape_for_matcher(s@.subrange(i + 1, n as int)))
                =~= r@ + escape_for_matcher(s@.subrange(i + 1, n as int)));
            i += 1;
        }
    }
    assert(escape_for_matcher(s@.subrange(n as int, n as int)) =~= Seq::<char>::empty());
    assert(r@ + Seq::<char>::empty() =~= r@);
    r
}

/// The last path component of `p`.
pub fn file_name_of(p: &Vec<char>) -> (r: Vec<char>)
    ensures
        r@ == file_name(p@),
{
    let t = crate::worktree::trim_slashes_of(p);
    last_component_of(&t)
}

/// The last path component of `p`.
fn last_component_of(p: &Vec<char>) -> (r: Vec<char>)
    ensures
        r@ == last_component(p@),
{
    let mut start: usize = p.len();
    while start > 0 && p[start - 1] != '/'
        invariant
            0 <= start <= p@.len(),
            forall|j: int| start <= j < p@.len() ==> p@[j] != '/',
        decreases start,
    {
        start -= 1;
    }
    let mut r: Vec<char> = Vec::new();
    let mut i: usize = start;
    while i < p.len()
        invariant
            start <= i <= p@.len(),
            r@ == p@.subrange(start as int, i as int),
        decreases p@.len() - i,
    {
        r.push(p[i]);
        assert(p@.subrange(start as int, i as int).push(p@[i as int]) =~= p@.subrange(start as int, i + 1));
        i += 1;
    }
    proof {
        lemma_last_component(p@, start as int);
    }
    r
}

proof fn lemma_last_component(p: Seq<char>, start: int)
    requires
        0 <= start <= p.len(),
        forall|j: int| start <= j < p.len() ==> p[j] != '/',
        start == 0 || p[start - 1] == '/',
    ensures
        last_component(p) == p.subrange(start, p.len() as int),
    decreases p.len(),
{
    if p.len() == 0 {
    } else if p.last() == '/' {
        assert(start == p.len());
    } else {
        let d = p.drop_last();
        if start == p.len() {
            assert(p[start - 1] == '/');
            assert(false);
        }
        lemma_last_component(d, start);
        assert(d.subrange(start, d.len() as int).push(p.last()) =~= p.subrange(start, p.len() as int));
    }
}

/// Whether a match at `path` is a hidden file that `pattern` did not ask
/// for.
pub fn is_hidden_unless_explicit(pattern: &str, path: &str) -> (r: bool)
    ensures
        r == hidden_unless_explicit(pattern@, path@),
{
    let name = file_name_of(&chars_of(path));
    if !(name.len() > 0 && name[0] == '.') {
        return false;
    }
    let pat = file_name_of(&chars_of(pattern));
    !(pat.len() > 0 && pat[0] == '.')
}

/// What `expand_single_glob` makes of the matcher's answer `found` for
/// the word `arg`, whose matcher pattern is `pattern`: the visible matches
/// sorted case-insensitively, or `arg` itself where nothing is left or the
/// pattern was rejected.
pub fn select_matches(arg: &str, pattern: &str, found: Option<Vec<String>>) -> (r: Vec<String>)
    ensures
        forall|i: int, j: int|
            0 <= i < j < r@.len() && ascii_plain(r@[i]@) && ascii_plain(r@[j]@) ==> !seq_lt(#[trigger] r@[j]@, #[trigger] r@[i]@),
        r@.map_values(|s: String| s@) == seq![arg@] || forall|i: int|
            0 <= i < r@.len() ==> !hidden_unless_explicit(pattern@, #[trigger] r@[i]@),
        match found {
            None => r@.map_values(|s: String| s@) == seq![arg@],
            Some(paths) => {
                let vis = visible_matches(pattern@, paths@.map_values(|s: String| s@));
                if vis.len() == 0 {
                    r@.map_values(|s: String| s@) == seq![arg@]
                } else {
                    &&& r@.len() == vis.len()
                    &&& exists|idx: Seq<usize>|
                        is_permutation(idx, vis.len()) && forall|i: int|
                            0 <= i < r@.len() ==> #[trigger] r@[i]@ == vis[idx[i] as int]
                    &&& forall|i: int, j: int|
                        0 <= i < j < r@.len() ==> !seq_lt(lower_of(#[trigger] r@[j]@), lower_of(#[trigger] r@[i]@))
                }
            },
        },
{
    let paths = match found {
        None => {
            let mut r: Vec<String> = Vec::new();
            r.push(String::from_str(arg));
            assert(r@.map_values(|s: String| s@) =~= seq![arg@]);
            return r;
        },
        Some(p) => p,
    };
    let ghost pv = paths@.map_values(|s: String| s@);
    let ghost vis = visible_matches(pattern@, pv);
    let mut kept: Vec<String> = Vec::new();
    let mut i: usize = 0;
    while i < paths.len()
        invariant
            0 <= i <= paths@.len(),
            pv == paths@.map_values(|s: String| s@),
            kept@.map_values(|s: String| s@) == visible_matches(pattern@, pv.subrange(0, i as int)),
        decreases paths@.len() - i,
    {
        let ghost before = kept@.map_values(|s: String| s@);
        if !is_hidden_unless_explicit(pattern, paths[i].as_str()) {
            kept.push(paths[i].clone());
            assert(kept@.map_values(|s: String| s@) =~= before.push(pv[i as int]));
        } else {
            assert(kept@.map_values(|s: String| s@) =~= before);
        }
        proof {
            let f = |p: Seq<char>| !hidden_unless_explicit(pattern@, p);
            assert(pv.subrange(0, i + 1).drop_last() =~= pv.subrange(0, i as int));
            pv.subrange(0, i + 1).filter_lemma(f);
            assert(pv.subrange(0, i + 1).filter(f) == pv.subrange(0, i as int).filter(f).push(pv[i as int])
                || pv.subrange(0, i + 1).filter(f) == pv.subrange(0, i as int).filter(f)) by {
                reveal(Seq::filter);
                assert(pv.subrange(0, i + 1).last() == pv[i as int]);
            }
            if f(pv[i as int]) {
                reveal(Seq::filter);
                assert(pv.subrange(0, i + 1).filter(f) == pv.subrange(0, i as int).filter(f).push(pv[i as int]));
            } else {
                reveal(Seq::filter);
                assert(pv.subrange(0, i + 1).filter(f) == pv.subrange(0, i as int).filter(f));
            }
        }
        i += 1;
    }
    assert(pv.subrange(0, paths@.len() as int) =~= pv);
    let ghost kv = kept@.map_values(|s: String| s@);
    if kept.len() == 0 {
        let mut r: Vec<String> = Vec::new();
        r.push(String::from_str(arg));
        assert(r@.map_values(|s: String| s@) =~= seq![arg@]);
        return r;
    }
    let mut keys: Vec<Vec<char>> = Vec::new();
    let mut j: usize = 0;
    while j < kept.len()
        invariant
            0 <= j <= kept@.len(),
            keys@.len() == j,
            forall|t: int| 0 <= t < j ==> #[trigger] keys@[t]@ == lower_of(kept@[t]@),
            forall|t: int| 0 <= t < j && ascii_plain(kept@[t]@) ==> #[trigger] keys@[t]@ == kept@[t]@,
        decreases kept@.len() - j,
    {
        let low = to_lower(kept[j].as_str());
        keys.push(chars_of(low.as_str()));
        j += 1;
    }
    let idx = sort_indices(&keys);
    let ghost keyv = keys@.map_values(|k: Vec<char>| k@);
    let mut r: Vec<String> = Vec::new();
    let mut t: usize = 0;
    while t < idx.len()
        invariant
            kv == kept@.map_values(|s: String| s@),
            keyv == keys@.map_values(|k: Vec<char>| k@),
            keys@.len() == kept@.len(),
            forall|q: int| 0 <= q < keys@.len() ==> #[trigger] keys@[q]@ == lower_of(kept@[q]@),
            forall|q: int| 0 <= q < keys@.len() && ascii_plain(kept@[q]@) ==> #[trigger] keys@[q]@ == kept@[q]@,
            is_permutation(idx@, keys@.len()),
            sorted_by(idx@, keyv),
            0 <= t <= idx@.len(),
            r@.len() == t,
            forall|q: int| 0 <= q < t ==> #[trigger] r@[q]@ == kv[idx@[q] as int],
        decreases idx@.len() - t,
    {
        r.push(kept[idx[t]].clone());
        t += 1;
    }
    proof {
        assert(forall|i: int| 0 <= i < r@.len() ==> #[trigger] r@[i]@ == vis[idx@[i] as int]);
        assert forall|i: int, j: int| 0 <= i < j < r@.len() && ascii_plain(r@[i]@) && ascii_plain(r@[j]@) implies !seq_lt(
            #[trigger] r@[j]@,
            #[trigger] r@[i]@,
        ) by {
            assert(keyv[idx@[j] as int] == r@[j]@);
            assert(keyv[idx@[i] as int] == r@[i]@);
        }
        pv.filter_lemma(|p: Seq<char>| !hidden_unless_explicit(pattern@, p));
        assert forall|i: int| 0 <= i < r@.len() implies !hidden_unless_explicit(pattern@, #[trigger] r@[i]@) by {
            assert(idx@[i] < vis.len());
            assert(r@[i]@ == vis[idx@[i] as int]);
        }
        assert forall|i: int, j: int| 0 <= i < j < r@.len() implies !seq_lt(
            lower_of(#[trigger] r@[j]@),
            lower_of(#[trigger] r@[i]@),
        ) by {
            assert(keyv[idx@[j] as int] == lower_of(r@[j]@));
            assert(keyv[idx@[i] as int] == lower_of(r@[i]@));
        }
    }
    r
}

/// Expands one word: a quoted word loses its quotes, a word without an
/// unescaped glob character stays as it is, and a pattern becomes its
/// visible matches sorted case-insensitively, or itself when nothing
/// matches.
pub fn expand_single_glob(arg: &str) -> (r: Vec<String>)
    ensures
        !quoted(arg@) && has_unescaped_glob(arg@) && glob_rejects(escape_for_matcher(arg@)) ==> r@.map_values(
            |s: String| s@,
        ) == seq![arg@],
        forall|i: int, j: int|
            0 <= i < j < r@.len() && ascii_plain(r@[i]@) && ascii_plain(r@[j]@) ==> !seq_lt(#[trigger] r@[j]@, #[trigger] r@[i]@),
        !quoted(arg@) && has_unescaped_glob(arg@) ==> (r@.map_values(|s: String| s@) == seq![arg@] || forall|i: int|
            0 <= i < r@.len() ==> !hidden_unless_explicit(escape_for_matcher(arg@), #[trigger] r@[i]@)),
        quoted(arg@) ==> r@.map_values(|s: String| s@) == seq![unquoted(arg@)],
        !quoted(arg@) && !has_unescaped_glob(arg@) ==> r@.map_values(|s: String| s@) == seq![arg@],
        r@.len() >= 1,
        forall|i: int, j: int|
            0 <= i < j < r@.len() ==> !seq_lt(lower_of(#[trigger] r@[j]@), lower_of(#[trigger] r@[i]@)),
{
    if is_quoted(arg) {
        let mut r: Vec<String> = Vec::new();
        r.push(unquote(arg));
        assert(r@.map_values(|s: String| s@) =~= seq![unquoted(arg@)]);
        return r;
    }
    if !contains_glob_chars(arg) {
        let mut r: Vec<String> = Vec::new();
        r.push(String::from_str(arg));
        assert(r@.map_values(|s: String| s@) =~= seq![arg@]);
        return r;
    }
    let pattern = unescape_non_glob(arg);
    let found = glob_paths(pattern.as_str());
    let ghost g = found;
    let r = select_matches(arg, pattern.as_str(), found);
    proof {
        match g {
            None => {
                assert(r@.map_values(|s: String| s@).len() == 1);
            },
            Some(paths) => {
                let vis = visible_matches(pattern@, paths@.map_values(|s: String| s@));
                if vis.len() == 0 {
                    assert(r@.map_values(|s: String| s@).len() == 1);
                }
            },
        }
    }
    r
}

/// The word unchanged by globbing: quotes removed from a quoted word.
pub open spec fn plain_word(a: Seq<char>) -> Seq<char> {
    unquoted(a)
}

/// A word that globbing may replace by matches.
pub open spec fn is_pattern_word(a: Seq<char>) -> bool {
    !quoted(a) && has_unescaped_glob(a)
}

/// What globbing may make of the word `a`: a word that is no pattern
/// gives itself without quotes; a pattern gives a non-empty group sorted
/// case-insensitively, which is the word itself or holds no hidden match,
/// and is the word itself when the matcher rejects the pattern.
pub open spec fn glob_group_ok(a: Seq<char>, g: Seq<Seq<char>>) -> bool {
    if !is_pattern_word(a) {
        g == seq![plain_word(a)]
    } else {
        &&& g.len() >= 1
        &&& forall|i: int, j: int| 0 <= i < j < g.len() ==> !seq_lt(lower_of(#[trigger] g[j]), lower_of(#[trigger] g[i]))
        &&& (g == seq![a] || forall|i: int| 0 <= i < g.len() ==> !hidden_unless_explicit(escape_for_matcher(a), #[trigger] g[i]))
        &&& (glob_rejects(escape_for_matcher(a)) ==> g == seq![a])
    }
}

/// The groups one after another.
pub open spec fn flatten(gs: Seq<Seq<Seq<char>>>) -> Seq<Seq<char>>
    decreases gs.len(),
{
    if gs.len() == 0 {
        Seq::empty()
    } else {
        flatten(gs.drop_last()) + gs.last()
    }
}

/// Expands each argument in turn and concatenates the results: one group
/// per argument, in order, each as `glob_group_ok` says.
pub fn expand_globs(args: &Vec<String>) -> (r: Vec<String>)
    ensures
        exists|gs: Seq<Seq<Seq<char>>>|
            gs.len() == args@.len() && (forall|i: int| 0 <= i < args@.len() ==> glob_group_ok(#[trigger] args@[i]@, gs[i]))
                && r@.map_values(|s: String| s@) == flatten(gs),
        (forall|i: int| 0 <= i < args@.len() ==> !is_pattern_word(#[trigger] args@[i]@)) ==> r@.map_values(
            |s: String| s@,
        ) == args@.map_values(|s: String| plain_word(s@)),
{
    let mut r: Vec<String> = Vec::new();
    let ghost mut gs: Seq<Seq<Seq<char>>> = Seq::empty();
    let mut i: usize = 0;
    while i < args.len()
        invariant
            0 <= i <= args@.len(),
            gs.len() == i,
            forall|q: int| 0 <= q < i ==> glob_group_ok(#[trigger] args@[q]@, gs[q]),
            r@.map_values(|s: String| s@) == flatten(gs),
            (forall|q: int| 0 <= q < args@.len() ==> !is_pattern_word(#[trigger] args@[q]@)) ==> r@.map_values(
                |s: String| s@,
            ) == args@.subrange(0, i as int).map_values(|s: String| plain_word(s@)),
        decreases args@.len() - i,
    {
        let ghost before = r@;
        let ghost old_gs = gs;
        let mut words = expand_single_glob(args[i].as_str());
        let ghost wv = words@;
        let ghost g = wv.map_values(|s: String| s@);
        proof {
            let a = args@[i as int]@;
            if !is_pattern_word(a) {
                if quoted(a) {
                    assert(g == seq![unquoted(a)]);
                } else {
                    assert(g == seq![a]);
                }
            } else {
                assert forall|x: int, y: int| 0 <= x < y < g.len() implies !seq_lt(lower_of(#[trigger] g[y]), lower_of(
                    #[trigger] g[x],
                )) by {
                    assert(g[x] == wv[x]@ && g[y] == wv[y]@);
                }
                if !(g == seq![a]) {
                    assert forall|x: int| 0 <= x < g.len() implies !hidden_unless_explicit(
                        escape_for_matcher(a),
                        #[trigger] g[x],
                    ) by {
                        assert(g[x] == wv[x]@);
                    }
                }
            }
            assert(glob_group_ok(a, g));
        }
        r.append(&mut words);
        proof {
            gs = gs.push(g);
            assert(gs.drop_last() =~= old_gs);
            assert(r@ == before + wv);
            assert(r@.map_values(|s: String| s@) =~= before.map_values(|s: String| s@) + g);
            assert forall|q: int| 0 <= q < i + 1 implies glob_group_ok(#[trigger] args@[q]@, gs[q]) by {
                if q < i {
                    assert(gs[q] == old_gs[q]);
                }
            }
            if forall|q: int| 0 <= q < args@.len() ==> !is_pattern_word(#[trigger] args@[q]@) {
                assert(!is_pattern_word(args@[i as int]@));
                assert(args@.subrange(0, i + 1).map_values(|s: String| plain_word(s@)) =~= args@.subrange(
                    0,
                    i as int,
                ).map_values(|s: String| plain_word(s@)).push(plain_word(args@[i as int]@)));
                assert(g =~= seq![plain_word(args@[i as int]@)]);
            }
        }
        i += 1;
    }
    assert(args@.subrange(0, args@.len() as int) =~= args@);
    r
}

/// Globs a word whose value is `value` and whose matcher pattern, with
/// escapes still written as `\*`, is `pattern`: the visible matches
/// sorted case-insensitively, or `value` when nothing is left or the
/// matcher rejects the pattern.
pub fn select_matches_on_disk(value: &str, pattern: &str) -> (r: Vec<String>)
    ensures
        r@.len() >= 1,
        forall|i: int, j: int|
            0 <= i < j < r@.len() ==> !seq_lt(lower_of(#[trigger] r@[j]@), lower_of(#[trigger] r@[i]@)),
        forall|i: int, j: int|
            0 <= i < j < r@.len() && ascii_plain(r@[i]@) && ascii_plain(r@[j]@) ==> !seq_lt(#[trigger] r@[j]@, #[trigger] r@[i]@),
        r@.map_values(|s: String| s@) == seq![value@] || forall|i: int|
            0 <= i < r@.len() ==> !hidden_unless_explicit(escape_for_matcher(pattern@), #[trigger] r@[i]@),
        glob_rejects(escape_for_matcher(pattern@)) ==> r@.map_values(|s: String| s@) == seq![value@],
{
    let m = unescape_non_glob(pattern);
    let found = glob_paths(m.as_str());
    let ghost g = found;
    let r = select_matches(value, m.as_str(), found);
    proof {
        match g {
            None => {
                assert(r@.map_values(|s: String| s@).len() == 1);
            },
            Some(paths) => {
                let vis = visible_matches(m@, paths@.map_values(|s: String| s@));
                if vis.len() == 0 {
                    assert(r@.map_values(|s: String| s@).len() == 1);
                }
            },
        }
    }
    r
}

} // verus!
