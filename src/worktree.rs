//! Reading the output of `git worktree list`, and finding the worktree
//! that holds a path.

use vstd::prelude::*;
use vstd::string::*;
use crate::expansion::{find_exec, holds_seq};
use crate::hint::first_token;
use crate::lexer::is_space;
use crate::text::{chars_of, from_chars, push_char, str_eq};

verus! {

/// A worktree of a repository.
#[derive(Debug, Clone)]
pub struct WorktreeData {
    pub path: String,
    pub branch: String,
    pub is_main: bool,
}

/// A branch, for display.
#[derive(Debug, Clone)]
pub struct BranchInfo {
    /// Branch name (`main`, `feature/auth`).
    pub name: String,
    /// Whether the branch already has a worktree.
    pub has_worktree: bool,
    /// Whether it is the branch checked out in the main worktree.
    pub is_current: bool,
}

/// The pieces of `s` between occurrences of `c` (empty pieces included).
pub open spec fn split_on(s: Seq<char>, c: char) -> Seq<Seq<char>>
    decreases s.len(),
{
    if s.len() == 0 {
        seq![Seq::empty()]
    } else if s.last() == c {
        split_on(s.drop_last(), c).push(Seq::empty())
    } else {
        let p = split_on(s.drop_last(), c);
        p.update(p.len() - 1, p.last().push(s.last()))
    }
}

proof fn lemma_split_nonempty(s: Seq<char>, c: char)
    ensures
        split_on(s, c).len() >= 1,
    decreases s.len(),
{
    if s.len() > 0 {
        lemma_split_nonempty(s.drop_last(), c);
    }
}

/// Splits `s` at each `c`.
fn split_exec(s: &Vec<char>, c: char) -> (r: Vec<Vec<char>>)
    ensures
        r@.map_values(|v: Vec<char>| v@) == split_on(s@, c),
{
    let mut pieces: Vec<Vec<char>> = Vec::new();
    let mut cur: Vec<char> = Vec::new();
    let mut i: usize = 0;
    assert(s@.subrange(0, 0) =~= Seq::<char>::empty());
    while i < s.len()
        invariant
            0 <= i <= s@.len(),
            pieces@.map_values(|v: Vec<char>| v@).push(cur@) == split_on(s@.subrange(0, i as int), c),
        decreases s@.len() - i,
    {
        let ghost before = pieces@.map_values(|v: Vec<char>| v@).push(cur@);
        assert(s@.subrange(0, i + 1).drop_last() =~= s@.subrange(0, i as int));
        proof {
            lemma_split_nonempty(s@.subrange(0, i as int), c);
        }
        if s[i] == c {
            let done = cur;
            let ghost dv = done@;
            pieces.push(done);
            cur = Vec::new();
            assert(pieces@.map_values(|v: Vec<char>| v@).push(cur@) =~= before.push(Seq::empty()));
        } else {
            cur.push(s[i]);
            assert(pieces@.map_values(|v: Vec<char>| v@).push(cur@) =~= before.update(
                before.len() - 1,
                before.last().push(s@[i as int]),
            ));
        }
        i += 1;
    }
    assert(s@.subrange(0, s@.len() as int) =~= s@);
    let ghost pv = pieces@.map_values(|v: Vec<char>| v@);
    let cv = cur;
    let ghost cvv = cv@;
    pieces.push(cv);
    assert(pieces@.map_values(|v: Vec<char>| v@) =~= pv.push(cvv));
    pieces
}

/// The components of a path: its pieces between slashes, leaving out
/// empty ones and `.`.
pub open spec fn components(s: Seq<char>) -> Seq<Seq<char>> {
    split_on(s, '/').filter(|p: Seq<char>| p.len() > 0 && p != seq!['.'])
}

/// The marker a path starts with: the root for an absolute path, `.` for
/// a path that begins with `./` or is `.`, none otherwise.
pub open spec fn lead_marker(s: Seq<char>) -> Seq<Seq<char>> {
    if s.len() > 0 && s[0] == '/' {
        seq![seq!['/']]
    } else if s.len() > 0 && s[0] == '.' && (s.len() == 1 || s[1] == '/') {
        seq![seq!['.']]
    } else {
        Seq::empty()
    }
}

/// The components of a path as `Path::components` lists them: the leading
/// marker, then the pieces between slashes other than empty ones and `.`.
pub open spec fn path_components(s: Seq<char>) -> Seq<Seq<char>> {
    lead_marker(s) + components(s)
}

/// `p` lies at or under `base`: the components of `base` begin those of
/// `p`.
pub open spec fn path_under(p: Seq<char>, base: Seq<char>) -> bool {
    let pc = path_components(p);
    let bc = path_components(base);
    bc.len() <= pc.len() && pc.subrange(0, bc.len() as int) == bc
}

fn components_exec(s: &Vec<char>) -> (r: Vec<Vec<char>>)
    ensures
        r@.map_values(|v: Vec<char>| v@) == components(s@),
{
    let pieces = split_exec(s, '/');
    let ghost pv = pieces@.map_values(|v: Vec<char>| v@);
    let ghost f = |p: Seq<char>| p.len() > 0 && p != seq!['.'];
    let mut r: Vec<Vec<char>> = Vec::new();
    let mut i: usize = 0;
    while i < pieces.len()
        invariant
            0 <= i <= pieces@.len(),
            pv == pieces@.map_values(|v: Vec<char>| v@),
            f == (|p: Seq<char>| p.len() > 0 && p != seq!['.']),
            r@.map_values(|v: Vec<char>| v@) == pv.subrange(0, i as int).filter(f),
        decreases pieces@.len() - i,
    {
        let ghost before = r@.map_values(|v: Vec<char>| v@);
        let p = &pieces[i];
        let keep = p.len() > 0 && !(p.len() == 1 && p[0] == '.');
        proof {
            if p@.len() == 1 && p@[0] == '.' {
                assert(p@ =~= seq!['.']);
            }
            if p@ == seq!['.'] {
                assert(p@.len() == 1 && p@[0] == '.');
            }
            let sub = pv.subrange(0, i + 1);
            assert(sub.drop_last() =~= pv.subrange(0, i as int));
            reveal(Seq::filter);
            assert(sub.last() == p@);
        }
        if keep {
            let mut q: Vec<char> = Vec::new();
            let mut k: usize = 0;
            while k < p.len()
                invariant
                    0 <= k <= p@.len(),
                    q@ == p@.subrange(0, k as int),
                decreases p@.len() - k,
            {
                q.push(p[k]);
                assert(p@.subrange(0, k as int).push(p@[k as int]) =~= p@.subrange(0, k + 1));
                k += 1;
            }
            assert(p@.subrange(0, p@.len() as int) =~= p@);
            let ghost qv = q@;
            r.push(q);
            assert(r@.map_values(|v: Vec<char>| v@) =~= before.push(qv));
        } else {
            assert(r@.map_values(|v: Vec<char>| v@) =~= before);
        }
        i += 1;
    }
    assert(pv.subrange(0, pv.len() as int) =~= pv);
    r
}

fn vec_eq(a: &Vec<char>, b: &Vec<char>) -> (r: bool)
    ensures
        r == (a@ == b@),
{
    if a.len() != b.len() {
        return false;
    }
    let mut i: usize = 0;
    while i < a.len()
        invariant
            a@.len() == b@.len(),
            0 <= i <= a@.len(),
            forall|j: int| 0 <= j < i ==> a@[j] == b@[j],
        decreases a@.len() - i,
    {
        if a[i] != b[i] {
            return false;
        }
        i += 1;
    }
    assert(a@ =~= b@);
    true
}

fn lead_marker_exec(s: &Vec<char>) -> (r: Vec<Vec<char>>)
    ensures
        r@.map_values(|v: Vec<char>| v@) == lead_marker(s@),
{
    let mut r: Vec<Vec<char>> = Vec::new();
    if s.len() > 0 && s[0] == '/' {
        let v = vec!['/'];
        assert(v@ =~= seq!['/']);
        r.push(v);
        assert(r@.map_values(|v: Vec<char>| v@) =~= seq![seq!['/']]);
    } else if s.len() > 0 && s[0] == '.' && (s.len() == 1 || s[1] == '/') {
        let v = vec!['.'];
        assert(v@ =~= seq!['.']);
        r.push(v);
        assert(r@.map_values(|v: Vec<char>| v@) =~= seq![seq!['.']]);
    } else {
        assert(r@.map_values(|v: Vec<char>| v@) =~= Seq::<Seq<char>>::empty());
    }
    r
}

fn path_components_exec(s: &Vec<char>) -> (r: Vec<Vec<char>>)
    ensures
        r@.map_values(|v: Vec<char>| v@) == path_components(s@),
{
    let mut r = lead_marker_exec(s);
    let ghost lv = r@.map_values(|v: Vec<char>| v@);
    let mut c = components_exec(s);
    let ghost cv = c@.map_values(|v: Vec<char>| v@);
    r.append(&mut c);
    assert(r@.map_values(|v: Vec<char>| v@) =~= lv + cv);
    r
}

/// Whether `p` lies at or under `base`, comparing whole components.
pub fn path_starts_with(p: &str, base: &str) -> (r: bool)
    ensures
        r == path_under(p@, base@),
{
    let ps = path_components_exec(&chars_of(p));
    let bs = path_components_exec(&chars_of(base));
    let ghost pv = ps@.map_values(|v: Vec<char>| v@);
    let ghost bv = bs@.map_values(|v: Vec<char>| v@);
    if bs.len() > ps.len() {
        return false;
    }
    let mut i: usize = 0;
    while i < bs.len()
        invariant
            bs@.len() <= ps@.len(),
            0 <= i <= bs@.len(),
            pv == ps@.map_values(|v: Vec<char>| v@),
            bv == bs@.map_values(|v: Vec<char>| v@),
            pv == path_components(p@),
            bv == path_components(base@),
            forall|j: int| 0 <= j < i ==> pv[j] == bv[j],
        decreases bs@.len() - i,
    {
        if !vec_eq(&ps[i], &bs[i]) {
            assert(pv[i as int] == ps@[i as int]@);
            assert(bv[i as int] == bs@[i as int]@);
            assert(pv.subrange(0, bv.len() as int)[i as int] != bv[i as int]);
            assert(pv.subrange(0, bv.len() as int) != bv);
            return false;
        }
        i += 1;
    }
    assert(pv.subrange(0, bv.len() as int) =~= bv);
    true
}

/// Index of the first worktree that holds `path`.
pub fn find_worktree_for_path(path: &str, worktrees: &Vec<WorktreeData>) -> (r: Option<usize>)
    ensures
        match r {
            Some(i) => i < worktrees@.len() && path_under(path@, worktrees@[i as int].path@) && forall|j: int|
                0 <= j < i ==> !path_under(path@, #[trigger] worktrees@[j].path@),
            None => forall|j: int| 0 <= j < worktrees@.len() ==> !path_under(path@, #[trigger] worktrees@[j].path@),
        },
{
    let mut i: usize = 0;
    while i < worktrees.len()
        invariant
            0 <= i <= worktrees@.len(),
            forall|j: int| 0 <= j < i ==> !path_under(path@, #[trigger] worktrees@[j].path@),
        decreases worktrees@.len() - i,
    {
        if path_starts_with(path, worktrees[i].path.as_str()) {
            return Some(i);
        }
        i += 1;
    }
    None
}

/// Position of the last `c` in `s`.
pub open spec fn last_index(s: Seq<char>, c: char) -> Option<int>
    decreases s.len(),
{
    if s.len() == 0 {
        None
    } else if s.last() == c {
        Some(s.len() - 1)
    } else {
        last_index(s.drop_last(), c)
    }
}

proof fn lemma_last_index(s: Seq<char>, c: char)
    ensures
        last_index(s, c) matches Some(i) ==> 0 <= i < s.len() && s[i] == c,
    decreases s.len(),
{
    if s.len() > 0 && s.last() != c {
        lemma_last_index(s.drop_last(), c);
    }
}

fn last_index_exec(s: &Vec<char>, c: char) -> (r: Option<usize>)
    ensures
        match r {
            Some(i) => last_index(s@, c) == Some(i as int),
            None => last_index(s@, c) is None,
        },
{
    let mut k: usize = s.len();
    assert(s@.subrange(0, k as int) =~= s@);
    while k > 0
        invariant
            0 <= k <= s@.len(),
            last_index(s@, c) == last_index(s@.subrange(0, k as int), c),
        decreases k,
    {
        assert(s@.subrange(0, k as int).drop_last() =~= s@.subrange(0, k - 1));
        if s[k - 1] == c {
            return Some(k - 1);
        }
        k -= 1;
    }
    None
}

/// `s` without trailing slashes.
pub open spec fn trim_slashes(s: Seq<char>) -> Seq<char>
    decreases s.len(),
{
    if s.len() > 0 && s.last() == '/' {
        trim_slashes(s.drop_last())
    } else {
        s
    }
}

fn trim_slashes_exec(s: &Vec<char>) -> (r: Vec<char>)
    ensures
        r@ == trim_slashes(s@),
{
    let mut k: usize = s.len();
    assert(s@.subrange(0, k as int) =~= s@);
    while k > 0 && s[k - 1] == '/'
        invariant
            0 <= k <= s@.len(),
            trim_slashes(s@) == trim_slashes(s@.subrange(0, k as int)),
        decreases k,
    {
        assert(s@.subrange(0, k as int).drop_last() =~= s@.subrange(0, k - 1));
        k -= 1;
    }
    crate::expansion::slice_vec(s, 0, k)
}

/// The branch shown on a line: the text in its last `[...]`; for a
/// detached head, `HEAD (detached)`; else `None`.
pub open spec fn line_branch(l: Seq<char>) -> Option<Seq<char>> {
    match last_index(l, '[') {
        Some(st) => match last_index(l, ']') {
            Some(en) => if st < en { Some(l.subrange(st + 1, en)) } else { None },
            None => None,
        },
        None => if holds_seq(l, "(detached HEAD)"@) { Some("HEAD (detached)"@) } else { None },
    }
}

/// The worktree a line of `git worktree list` describes, as
/// (path, branch, is_main); `None` for a bare repository or a blank line.
pub open spec fn line_worktree(l: Seq<char>, main: Seq<char>) -> Option<(Seq<char>, Seq<char>, bool)> {
    if last_index(l, '[') is None && !holds_seq(l, "(detached HEAD)"@) && holds_seq(l, "(bare)"@) {
        None
    } else {
        let path = first_token(l);
        if path.len() == 0 {
            None
        } else {
            let branch = match line_branch(l) {
                Some(b) => b,
                None => "unknown"@,
            };
            Some((path, branch, path == main || trim_slashes(path) == trim_slashes(main)))
        }
    }
}

fn lit(s: &str) -> (r: Vec<char>)
    ensures
        r@ == s@,
{
    chars_of(s)
}

/// Reads one line of `git worktree list`: `<path> <commit> [<branch>]`.
pub fn parse_worktree_line(line: &str, main_worktree_path: &str) -> (r: Option<WorktreeData>)
    ensures
        match r {
            Some(w) => line_worktree(line@, main_worktree_path@) == Some((w.path@, w.branch@, w.is_main)),
            None => line_worktree(line@, main_worktree_path@) is None,
        },
{
    proof {
        reveal_strlit("(detached HEAD)");
        reveal_strlit("(bare)");
        reveal_strlit("HEAD (detached)");
        reveal_strlit("unknown");
    }
    let l = chars_of(line);
    let detached = lit("(detached HEAD)");
    let bare = lit("(bare)");
    let open_pos = last_index_exec(&l, '[');
    let has_detached = find_exec(&l, &detached).is_some();
    if open_pos.is_none() && !has_detached && find_exec(&l, &bare).is_some() {
        return None;
    }
    let branch: String = match open_pos {
        Some(st) => match last_index_exec(&l, ']') {
            Some(en) => {
                proof {
                    lemma_last_index(l@, '[');
                    lemma_last_index(l@, ']');
                }
                if st < en {
                    crate::text::slice_string(&l, st + 1, en)
                } else {
                    String::from_str("unknown")
                }
            },
            None => String::from_str("unknown"),
        },
        None => if has_detached {
            String::from_str("HEAD (detached)")
        } else {
            String::from_str("unknown")
        },
    };
    let path = first_token_of(line);
    if path.unicode_len() == 0 {
        return None;
    }
    let pc = chars_of(path.as_str());
    let mc = chars_of(main_worktree_path);
    let is_main = str_eq(path.as_str(), main_worktree_path) || vec_eq(&trim_slashes_exec(&pc), &trim_slashes_exec(&mc));
    Some(WorktreeData { path, branch, is_main })
}

/// The first whitespace-separated token of `s`.
pub fn first_token_of(s: &str) -> (r: String)
    ensures
        r@ == first_token(s@),
{
    let c = chars_of(s);
    let n = c.len();
    let mut i: usize = 0;
    assert(c@.subrange(0, n as int) =~= c@);
    while i < n && crate::lexer::is_space_char(c[i])
        invariant
            n == c@.len(),
            0 <= i <= n,
            first_token(c@) == first_token(c@.subrange(i as int, n as int)),
        decreases n - i,
    {
        assert(c@.subrange(i as int, n as int).drop_first() =~= c@.subrange(i + 1, n as int));
        i += 1;
    }
    let mut j: usize = i;
    while j < n && !crate::lexer::is_space_char(c[j])
        invariant
            n == c@.len(),
            i <= j <= n,
            crate::hint::leading_run(c@.subrange(i as int, n as int)) == c@.subrange(i as int, j as int)
                + crate::hint::leading_run(c@.subrange(j as int, n as int)),
        decreases n - j,
    {
        assert(c@.subrange(j as int, n as int).drop_first() =~= c@.subrange(j + 1, n as int));
        assert(c@.subrange(i as int, j as int) + (seq![c@[j as int]] + crate::hint::leading_run(c@.subrange(j + 1, n as int)))
            =~= c@.subrange(i as int, j + 1) + crate::hint::leading_run(c@.subrange(j + 1, n as int)));
        j += 1;
    }
    proof {
        assert(crate::hint::leading_run(c@.subrange(j as int, n as int)) == Seq::<char>::empty());
        assert(c@.subrange(i as int, j as int) + Seq::<char>::empty() =~= c@.subrange(i as int, j as int));
        if i == n {
            assert(c@.subrange(i as int, j as int) =~= Seq::<char>::empty());
        }
    }
    crate::text::slice_string(&c, i, j)
}

/// `l` holds only whitespace.
pub open spec fn is_blank_line(l: Seq<char>) -> bool {
    forall|i: int| 0 <= i < l.len() ==> is_space(#[trigger] l[i])
}

/// The worktrees the lines of `lines` describe, blank lines skipped.
pub open spec fn worktrees_of(lines: Seq<Seq<char>>, main: Seq<char>) -> Seq<(Seq<char>, Seq<char>, bool)>
    decreases lines.len(),
{
    if lines.len() == 0 {
        Seq::empty()
    } else {
        let before = worktrees_of(lines.drop_last(), main);
        let l = lines.last();
        if is_blank_line(l) {
            before
        } else {
            match line_worktree(l, main) {
                Some(w) => before.push(w),
                None => before,
            }
        }
    }
}

pub open spec fn wt_view(w: WorktreeData) -> (Seq<char>, Seq<char>, bool) {
    (w.path@, w.branch@, w.is_main)
}

/// Reads the whole output of `git worktree list`. When no line gives a
/// worktree, the main worktree on branch `main` stands alone.
pub fn parse_worktree_list(output: &str, main_worktree_path: &str) -> (r: Result<Vec<WorktreeData>, String>)
    ensures
        r is Ok,
        ({
            let found = worktrees_of(split_on(output@, '\n'), main_worktree_path@);
            let got = r->Ok_0@.map_values(|w: WorktreeData| wt_view(w));
            if found.len() == 0 {
                got == seq![(main_worktree_path@, "main"@, true)]
            } else {
                got == found
            }
        }),
{
    let c = chars_of(output);
    let lines = split_exec(&c, '\n');
    let ghost lv = lines@.map_values(|v: Vec<char>| v@);
    let mut out: Vec<WorktreeData> = Vec::new();
    let mut i: usize = 0;
    while i < lines.len()
        invariant
            0 <= i <= lines@.len(),
            lv == lines@.map_values(|v: Vec<char>| v@),
            lv == split_on(output@, '\n'),
            out@.map_values(|w: WorktreeData| wt_view(w)) == worktrees_of(lv.subrange(0, i as int), main_worktree_path@),
        decreases lines@.len() - i,
    {
        let ghost before = out@.map_values(|w: WorktreeData| wt_view(w));
        assert(lv.subrange(0, i + 1).drop_last() =~= lv.subrange(0, i as int));
        let l = from_chars(&lines[i]);
        if !crate::repl::Repl::blank_line(l.as_str()) {
            match parse_worktree_line(l.as_str(), main_worktree_path) {
                Some(w) => {
                    let ghost wv = wt_view(w);
                    out.push(w);
                    assert(out@.map_values(|w: WorktreeData| wt_view(w)) =~= before.push(wv));
                },
                None => {
                    assert(out@.map_values(|w: WorktreeData| wt_view(w)) =~= before);
                },
            }
        } else {
            assert(out@.map_values(|w: WorktreeData| wt_view(w)) =~= before);
        }
        i += 1;
    }
    assert(lv.subrange(0, lv.len() as int) =~= lv);
    if out.len() == 0 {
        proof {
            reveal_strlit("main");
        }
        out.push(WorktreeData {
            path: String::from_str(main_worktree_path),
            branch: String::from_str("main"),
            is_main: true,
        });
        assert(out@.map_values(|w: WorktreeData| wt_view(w)) =~= seq![(main_worktree_path@, "main"@, true)]);
    }
    Ok(out)
}


/// Splits `s` at each `c`.
pub fn split_chars(s: &Vec<char>, c: char) -> (r: Vec<Vec<char>>)
    ensures
        r@.map_values(|v: Vec<char>| v@) == split_on(s@, c),
{
    split_exec(s, c)
}


/// `branch` with each `/` turned into `-`.
pub open spec fn safe_branch(branch: Seq<char>) -> Seq<char> {
    branch.map_values(|c: char| if c == '/' { '-' } else { c })
}

/// Where a new worktree for `branch` goes: beside the repository, named
/// `<repo>-<branch>` with each `/` of the branch turned into `-`
/// (`project` stands for a repository path with no name).
pub open spec fn sibling_path(repo: Seq<char>, branch: Seq<char>) -> Seq<char> {
    let t = trim_slashes(repo);
    let start = match last_index(t, '/') {
        Some(i) => i + 1,
        None => 0,
    };
    let name = t.subrange(start, t.len() as int);
    let name2 = if name.len() == 0 { "project"@ } else { name };
    t.subrange(0, start) + name2 + seq!['-'] + safe_branch(branch)
}

/// The path for a new worktree of `repo_path` on `branch`.
pub fn generate_worktree_path(repo_path: &str, branch: &str) -> (r: String)
    ensures
        r@ == sibling_path(repo_path@, branch@),
{
    let rc = chars_of(repo_path);
    let t = trim_slashes_exec(&rc);
    let tlen = t.len();
    let start: usize = match last_index_exec(&t, '/') {
        Some(i) => {
            proof {
                lemma_last_index(t@, '/');
                assert(i < tlen);
            }
            i + 1
        },
        None => 0,
    };
    let mut out = crate::text::slice_string(&t, 0, start);
    if start == t.len() {
        proof {
            reveal_strlit("project");
        }
        crate::text::push_str(&mut out, "project");
        assert(t@.subrange(start as int, t@.len() as int).len() == 0);
    } else {
        let name = crate::text::slice_string(&t, start, t.len());
        crate::text::push_str(&mut out, name.as_str());
    }
    push_char(&mut out, '-');
    let b = chars_of(branch);
    let ghost base = out@;
    let mut i: usize = 0;
    while i < b.len()
        invariant
            0 <= i <= b@.len(),
            b@ == branch@,
            out@ == base + safe_branch(branch@.subrange(0, i as int)),
        decreases b@.len() - i,
    {
        let c = if b[i] == '/' { '-' } else { b[i] };
        push_char(&mut out, c);
        assert(safe_branch(branch@.subrange(0, i + 1)) =~= safe_branch(branch@.subrange(0, i as int)).push(c));
        i += 1;
    }
    assert(branch@.subrange(0, branch@.len() as int) =~= branch@);
    out
}


/// Position of the last `c` in `s`.
pub fn last_index_of(s: &Vec<char>, c: char) -> (r: Option<usize>)
    ensures
        match r {
            Some(i) => last_index(s@, c) == Some(i as int) && i < s@.len(),
            None => last_index(s@, c) is None,
        },
{
    proof {
        lemma_last_index(s@, c);
    }
    last_index_exec(s, c)
}


/// `s` without trailing slashes.
pub fn trim_slashes_of(s: &Vec<char>) -> (r: Vec<char>)
    ensures
        r@ == trim_slashes(s@),
{
    trim_slashes_exec(s)
}

} // verus!
