//! Variable and parameter expansion of command text: `$NAME`, `${NAME}`,
//! special parameters, array references and the `${var<op>word}` forms.

use vstd::prelude::*;
use vstd::string::*;
use crate::names::{is_name_char, is_name_character, valid_name};
use crate::text::{decimal, from_chars, int_text, push_char, push_decimal, push_int, push_str, slice_string};
use crate::variables::{strings_view, VariableManager};

verus! {

// ---------------------------------------------------------------------
// Searching in character sequences

/// `p` occurs in `s` at `i`.
pub open spec fn occurs_at(s: Seq<char>, p: Seq<char>, i: int) -> bool {
    0 <= i && i + p.len() <= s.len() && s.subrange(i, i + p.len()) == p
}

/// The first position at or after `i` where `p` occurs in `s`.
pub open spec fn first_from(s: Seq<char>, p: Seq<char>, i: int) -> Option<int>
    decreases s.len() + 1 - i,
{
    if i < 0 || i + p.len() > s.len() {
        None
    } else if occurs_at(s, p, i) {
        Some(i)
    } else {
        first_from(s, p, i + 1)
    }
}

pub open spec fn find(s: Seq<char>, p: Seq<char>) -> Option<int> {
    first_from(s, p, 0)
}

pub open spec fn holds_seq(s: Seq<char>, p: Seq<char>) -> bool {
    find(s, p) is Some
}

proof fn lemma_first_from_range(s: Seq<char>, p: Seq<char>, i: int)
    ensures
        first_from(s, p, i) matches Some(k) ==> i <= k && occurs_at(s, p, k),
    decreases s.len() + 1 - i,
{
    if !(i < 0 || i + p.len() > s.len()) && !occurs_at(s, p, i) {
        lemma_first_from_range(s, p, i + 1);
    }
}

fn occurs_at_exec(s: &Vec<char>, p: &Vec<char>, i: usize) -> (r: bool)
    ensures
        r == occurs_at(s@, p@, i as int),
{
    if i > s.len() || p.len() > s.len() - i {
        return false;
    }
    let end: usize = i + p.len();
    let mut t: usize = i;
    while t < end
        invariant
            end == i + p@.len(),
            end <= s@.len(),
            i <= t <= end,
            forall|q: int| 0 <= q < t - i ==> s@[i + q] == p@[q],
        decreases end - t,
    {
        if s[t] != p[t - i] {
            assert(s@.subrange(i as int, i + p@.len())[t - i] != p@[t - i]);
            return false;
        }
        t += 1;
    }
    assert(s@.subrange(i as int, i + p@.len()) =~= p@);
    true
}

/// The first position of `p` in `s`.
pub fn find_exec(s: &Vec<char>, p: &Vec<char>) -> (r: Option<usize>)
    ensures
        match r {
            Some(i) => find(s@, p@) == Some(i as int),
            None => find(s@, p@) is None,
        },
{
    let mut i: usize = 0;
    while i <= s.len()
        invariant
            0 <= i <= s@.len() + 1,
            first_from(s@, p@, 0) == first_from(s@, p@, i as int),
        decreases s@.len() + 1 - i,
    {
        if p.len() > s.len() - i {
            return None;
        }
        if occurs_at_exec(s, p, i) {
            return Some(i);
        }
        if i == s.len() {
            assert(first_from(s@, p@, i + 1) is None);
            return None;
        }
        i += 1;
    }
    None
}

fn has_exec(s: &Vec<char>, p: &Vec<char>) -> (r: bool)
    ensures
        r == holds_seq(s@, p@),
{
    find_exec(s, p).is_some()
}

// ---------------------------------------------------------------------
// Numbers

pub open spec fn digit_value(c: char) -> nat {
    ((c as u32) - ('0' as u32)) as nat
}

pub open spec fn all_digits(s: Seq<char>) -> bool {
    forall|i: int| 0 <= i < s.len() ==> '0' <= #[trigger] s[i] && s[i] <= '9'
}

/// The value of a string of decimal digits.
pub open spec fn digits_value(s: Seq<char>) -> nat
    decreases s.len(),
{
    if s.len() == 0 {
        0
    } else {
        digits_value(s.drop_last()) * 10 + digit_value(s.last())
    }
}

/// `s` read as an `i64` the way `str::parse::<i64>` reads it: an optional
/// sign, then at least one digit, within range.
pub open spec fn parse_i64(s: Seq<char>) -> Option<int> {
    let neg = s.len() > 0 && s[0] == '-';
    let signed = s.len() > 0 && (s[0] == '-' || s[0] == '+');
    let body = if signed { s.drop_first() } else { s };
    if body.len() == 0 || !all_digits(body) {
        None
    } else {
        let v: int = if neg { -(digits_value(body) as int) } else { digits_value(body) as int };
        if i64::MIN <= v <= i64::MAX {
            Some(v)
        } else {
            None
        }
    }
}

proof fn lemma_digits_push(s: Seq<char>, n: int)
    requires
        0 <= n < s.len(),
    ensures
        digits_value(s.subrange(0, n + 1)) == digits_value(s.subrange(0, n)) * 10 + digit_value(s[n]),
{
    assert(s.subrange(0, n + 1).drop_last() =~= s.subrange(0, n));
}

proof fn lemma_digits_monotone(s: Seq<char>, n: int, m: int)
    requires
        0 <= n <= m <= s.len(),
        all_digits(s),
    ensures
        digits_value(s.subrange(0, n)) <= digits_value(s.subrange(0, m)),
    decreases m - n,
{
    if n < m {
        lemma_digits_monotone(s, n, m - 1);
        lemma_digits_push(s, m - 1);
        assert(digits_value(s.subrange(0, m - 1)) * 10 >= digits_value(s.subrange(0, m - 1))) by (nonlinear_arith);
    }
}

/// Reads a decimal digit string; `None` when its value exceeds `limit`.
fn digits_up_to(s: &Vec<char>, from: usize, limit: u64) -> (r: Option<u64>)
    requires
        from <= s@.len(),
        limit >= 9,
        all_digits(s@.subrange(from as int, s@.len() as int)),
    ensures
        match r {
            Some(v) => v == digits_value(s@.subrange(from as int, s@.len() as int)) && v <= limit,
            None => digits_value(s@.subrange(from as int, s@.len() as int)) > limit,
        },
{
    let ghost b = s@.subrange(from as int, s@.len() as int);
    let mut v: u64 = 0;
    let mut i: usize = from;
    while i < s.len()
        invariant
            from <= i <= s@.len(),
            b == s@.subrange(from as int, s@.len() as int),
            all_digits(b),
            v == digits_value(b.subrange(0, i - from)),
            v <= limit,
            limit >= 9,
        decreases s@.len() - i,
    {
        proof {
            assert(b[i - from] == s@[i as int]);
            lemma_digits_push(b, i - from);
        }
        assert('0' <= s@[i as int] && s@[i as int] <= '9');
        let d = (s[i] as u32 - '0' as u32) as u64;
        assert(d <= 9);
        if v > (limit - d) / 10 {
            proof {
                assert(v * 10 + d > limit) by (nonlinear_arith)
                    requires v > (limit - d) / 10, d <= 9, d <= limit || true;
                lemma_digits_monotone(b, i - from + 1, b.len() as int);
                assert(b.subrange(0, b.len() as int) =~= b);
            }
            return None;
        }
        proof {
            assert(v * 10 + d <= limit) by (nonlinear_arith)
                requires v <= (limit - d) / 10, d <= 9, d <= limit;
        }
        v = v * 10 + d;
        i += 1;
    }
    assert(b.subrange(0, b.len() as int) =~= b);
    Some(v)
}

fn all_digits_from(s: &Vec<char>, from: usize) -> (r: bool)
    requires
        from <= s@.len(),
    ensures
        r == all_digits(s@.subrange(from as int, s@.len() as int)),
{
    let mut i: usize = from;
    while i < s.len()
        invariant
            from <= i <= s@.len(),
            forall|t: int| from <= t < i ==> '0' <= #[trigger] s@[t] && s@[t] <= '9',
        decreases s@.len() - i,
    {
        if !('0' <= s[i] && s[i] <= '9') {
            assert(s@.subrange(from as int, s@.len() as int)[i - from] == s@[i as int]);
            return false;
        }
        i += 1;
    }
    assert forall|t: int| 0 <= t < s@.len() - from implies '0' <= #[trigger] s@.subrange(
        from as int,
        s@.len() as int,
    )[t] && s@.subrange(from as int, s@.len() as int)[t] <= '9' by {
        assert(s@.subrange(from as int, s@.len() as int)[t] == s@[from + t]);
    }
    true
}

/// `str::parse::<i64>` on the characters of `s`.
fn parse_i64_exec(s: &Vec<char>) -> (r: Option<i64>)
    ensures
        match r {
            Some(v) => parse_i64(s@) == Some(v as int),
            None => parse_i64(s@) is None,
        },
{
    let neg = s.len() > 0 && s[0] == '-';
    let signed = s.len() > 0 && (s[0] == '-' || s[0] == '+');
    let from: usize = if signed { 1 } else { 0 };
    proof {
        if signed {
            assert(s@.subrange(1, s@.len() as int) =~= s@.drop_first());
        } else {
            assert(s@.subrange(0, s@.len() as int) =~= s@);
        }
    }
    if from == s.len() || !all_digits_from(s, from) {
        return None;
    }
    let limit: u64 = if neg { 9223372036854775808u64 } else { 9223372036854775807u64 };
    match digits_up_to(s, from, limit) {
        Some(v) => {
            if neg {
                if v == 9223372036854775808u64 {
                    Some(i64::MIN)
                } else {
                    Some(-(v as i64))
                }
            } else {
                Some(v as i64)
            }
        },
        None => None,
    }
}

// ---------------------------------------------------------------------
// Byte length

pub open spec fn utf8_width(c: char) -> nat {
    if (c as u32) < 0x80 {
        1
    } else if (c as u32) < 0x800 {
        2
    } else if (c as u32) < 0x10000 {
        3
    } else {
        4
    }
}

/// Number of bytes in the UTF-8 encoding of `s`.
pub open spec fn utf8_len(s: Seq<char>) -> nat
    decreases s.len(),
{
    if s.len() == 0 {
        0
    } else {
        utf8_len(s.drop_last()) + utf8_width(s.last())
    }
}

fn utf8_len_exec(s: &Vec<char>) -> (r: u128)
    ensures
        r == utf8_len(s@),
{
    let mut n: u128 = 0;
    let mut i: usize = 0;
    while i < s.len()
        invariant
            0 <= i <= s@.len(),
            n == utf8_len(s@.subrange(0, i as int)),
            n <= 4 * i,
        decreases s@.len() - i,
    {
        let c = s[i] as u32;
        let w: u128 = if c < 0x80 {
            1
        } else if c < 0x800 {
            2
        } else if c < 0x10000 {
            3
        } else {
            4
        };
        assert(s@.subrange(0, i + 1).drop_last() =~= s@.subrange(0, i as int));
        n = n + w;
        i += 1;
    }
    assert(s@.subrange(0, s@.len() as int) =~= s@);
    n
}

// ---------------------------------------------------------------------
// Parameter expansion

/// What one `${...}` or `$...` reference turns into.
pub enum Piece {
    /// Text to insert.
    Text(Seq<char>),
    /// Insert `value`, and assign it to `name` first.
    Assign(Seq<char>, Seq<char>),
    /// Insert nothing, and report the message.
    Error(Seq<char>),
}

/// The result of a parameter expansion.
pub enum ParamExpansionResult {
    /// Text to insert.
    Value(String),
    /// Insert nothing and report this message (the `?` forms).
    Error(String),
    /// Assign `value` to `var_name`, then insert it (the `=` forms).
    Assign { var_name: String, value: String },
}

impl ParamExpansionResult {
    pub open spec fn piece(&self) -> Piece {
        match self {
            ParamExpansionResult::Value(v) => Piece::Text(v@),
            ParamExpansionResult::Error(m) => Piece::Error(m@),
            ParamExpansionResult::Assign { var_name, value } => Piece::Assign(var_name@, value@),
        }
    }
}

/// The operators of the modifier forms, in the order they are tried, and
/// whether each also treats an empty value as missing.
pub open spec fn op_text(k: int) -> Seq<char> {
    if k == 0 { seq![':', '-'] }
    else if k == 1 { seq![':', '='] }
    else if k == 2 { seq![':', '?'] }
    else if k == 3 { seq![':', '+'] }
    else if k == 4 { seq!['-'] }
    else if k == 5 { seq!['='] }
    else if k == 6 { seq!['?'] }
    else { seq!['+'] }
}

pub open spec fn lookup(m: Map<Seq<char>, Seq<char>>, k: Seq<char>) -> Seq<char> {
    if m.contains_key(k) { m[k] } else { Seq::empty() }
}

/// The modifier form for operator `k` found at `pos` in `content`.
pub open spec fn modifier_piece(content: Seq<char>, m: Map<Seq<char>, Seq<char>>, k: int, pos: int) -> Piece {
    let op = op_text(k);
    let name = content.subrange(0, pos);
    let operand = content.subrange(pos + op.len(), content.len() as int);
    let unset = !m.contains_key(name);
    let null = unset || m[name].len() == 0;
    let cond = if k < 4 { null } else { unset };
    let kind = k % 4;
    if kind == 0 {
        if cond { Piece::Text(operand) } else { Piece::Text(lookup(m, name)) }
    } else if kind == 1 {
        if cond { Piece::Assign(name, operand) } else { Piece::Text(lookup(m, name)) }
    } else if kind == 2 {
        if cond {
            if operand.len() == 0 {
                Piece::Error(name + seq![':', ' '] + "parameter null or not set"@)
            } else {
                Piece::Error(name + seq![':', ' '] + operand)
            }
        } else {
            Piece::Text(lookup(m, name))
        }
    } else {
        if !cond { Piece::Text(operand) } else { Piece::Text(Seq::empty()) }
    }
}

/// Try the operators from `k` on, passing over a match whose text before
/// it is no valid name; `None` when none applies.
pub open spec fn modifier_from(content: Seq<char>, m: Map<Seq<char>, Seq<char>>, k: int) -> Option<Piece>
    decreases 8 - k,
{
    if k < 0 || k >= 8 {
        None
    } else {
        match find(content, op_text(k)) {
            Some(pos) => {
                if !valid_name(content.subrange(0, pos)) {
                    modifier_from(content, m, k + 1)
                } else {
                    Some(modifier_piece(content, m, k, pos))
                }
            },
            None => modifier_from(content, m, k + 1),
        }
    }
}

/// Number of blanks at the start of `s`.
pub open spec fn lead_blanks(s: Seq<char>) -> int
    decreases s.len(),
{
    if s.len() == 0 || s[0] != ' ' {
        0
    } else {
        1 + lead_blanks(s.drop_first())
    }
}

/// `s` without its leading blanks, so that `${v: -2}` reads the offset
/// `-2` (the blank keeps `:-` from being the default form).
pub open spec fn skip_blanks(s: Seq<char>) -> Seq<char> {
    s.subrange(lead_blanks(s), s.len() as int)
}

proof fn lemma_lead_blanks(s: Seq<char>)
    ensures
        0 <= lead_blanks(s) <= s.len(),
    decreases s.len(),
{
    if s.len() > 0 && s[0] == ' ' {
        lemma_lead_blanks(s.drop_first());
    }
}

fn skip_blanks_exec(s: &Vec<char>) -> (r: Vec<char>)
    ensures
        r@ == skip_blanks(s@),
{
    let n = s.len();
    let mut a: usize = 0;
    assert(s@.subrange(0, n as int) =~= s@);
    while a < n && s[a] == ' '
        invariant
            n == s@.len(),
            0 <= a <= n,
            lead_blanks(s@) == a + lead_blanks(s@.subrange(a as int, n as int)),
        decreases n - a,
    {
        assert(s@.subrange(a as int, n as int).drop_first() =~= s@.subrange(a + 1, n as int));
        a += 1;
    }
    slice_vec(s, a, n)
}

/// Substring start: a negative offset counts from the end; both clamp.
pub open spec fn sub_start(len: int, offset: int) -> int {
    if offset < 0 {
        if len + offset < 0 { 0 } else { len + offset }
    } else {
        if offset < len { offset } else { len }
    }
}

/// Substring end for an explicit length: a negative length marks a
/// position counted from the end.
pub open spec fn sub_end(len: int, start: int, length: int) -> int {
    let actual = if length < 0 {
        let end_pos = if len + length < 0 { 0 } else { len + length };
        if end_pos > start { end_pos - start } else { 0 }
    } else {
        length
    };
    if start + actual < len { start + actual } else { len }
}

/// `${var:offset}` or `${var:offset:length}`; `None` when `content` is no
/// such form.
pub open spec fn substring_piece(content: Seq<char>, m: Map<Seq<char>, Seq<char>>) -> Option<Piece> {
    match find(content, seq![':']) {
        None => None,
        Some(c) => {
            let name = content.subrange(0, c);
            let rest = content.subrange(c + 1, content.len() as int);
            if holds_seq(name, seq!['[']) {
                None
            } else {
                let value = lookup(m, name);
                let len = value.len() as int;
                match find(rest, seq![':']) {
                    None => match parse_i64(skip_blanks(rest)) {
                        Some(off) => Some(Piece::Text(value.subrange(sub_start(len, off), len))),
                        None => None,
                    },
                    Some(c2) => match parse_i64(skip_blanks(rest.subrange(0, c2))) {
                        Some(off) => match parse_i64(skip_blanks(rest.subrange(c2 + 1, rest.len() as int))) {
                            Some(l) => {
                                let st = sub_start(len, off);
                                Some(Piece::Text(value.subrange(st, sub_end(len, st, l))))
                            },
                            None => None,
                        },
                        None => None,
                    },
                }
            }
        },
    }
}

/// `content` asks for a length: it starts with `#` and holds none of the
/// operator characters.
pub open spec fn is_length_form(content: Seq<char>) -> bool {
    content.len() > 0 && content[0] == '#' && !content.contains(':') && !content.contains('-')
        && !content.contains('=') && !content.contains('?') && !content.contains('+')
}

/// The expansion of `${content}` outside the array forms. A modifier
/// operator counts only where the text before it is a valid name, so
/// `${v:1:-1}` is a substring (its `:-` follows `v:1`), while `${v:-2}`
/// is the default form, not an offset of -2; `${v: -2}`, with a blank,
/// is the offset. Nesting is not supported:
/// the first `}` closes the reference, so `${a:-${b:-x}}` gives
/// `${b:-x` followed by `}`.
pub open spec fn param_piece(content: Seq<char>, m: Map<Seq<char>, Seq<char>>) -> Piece {
    if is_length_form(content) {
        Piece::Text(decimal(utf8_len(lookup(m, content.drop_first()))))
    } else {
        match modifier_from(content, m, 0) {
            Some(p) => p,
            None => match substring_piece(content, m) {
                Some(p) => p,
                None => Piece::Text(lookup(m, content)),
            },
        }
    }
}

fn op_chars(k: usize) -> (r: Vec<char>)
    requires
        k < 8,
    ensures
        r@ == op_text(k as int),
{
    let r = if k == 0 { vec![':', '-'] }
    else if k == 1 { vec![':', '='] }
    else if k == 2 { vec![':', '?'] }
    else if k == 3 { vec![':', '+'] }
    else if k == 4 { vec!['-'] }
    else if k == 5 { vec!['='] }
    else if k == 6 { vec!['?'] }
    else { vec!['+'] };
    assert(r@ =~= op_text(k as int));
    r
}

fn lookup_exec(vars: &VariableManager, name: &Vec<char>) -> (r: String)
    requires
        vars.wf(),
    ensures
        r@ == lookup(vars.scalars(), name@),
{
    let n = from_chars(name);
    match vars.get(n.as_str()) {
        Some(v) => String::from_str(v),
        None => String::new(),
    }
}

fn modifier_exec(content: &Vec<char>, vars: &VariableManager, k: usize, pos: usize) -> (r: ParamExpansionResult)
    requires
        vars.wf(),
        k < 8,
        occurs_at(content@, op_text(k as int), pos as int),
    ensures
        r.piece() == modifier_piece(content@, vars.scalars(), k as int, pos as int),
{
    let op_len: usize = if k < 4 { 2 } else { 1 };
    assert(op_len == op_text(k as int).len());
    let clen = content.len();
    assert(pos + op_len <= clen);
    let name_chars = slice_vec(content, 0, pos);
    let name = from_chars(&name_chars);
    let operand = slice_string(content, pos + op_len, content.len());
    let value = vars.get(name.as_str());
    let unset = value.is_none();
    let null = match value {
        Some(v) => v.unicode_len() == 0,
        None => true,
    };
    let cond = if k < 4 { null } else { unset };
    let kind = k % 4;
    if kind == 0 {
        if cond {
            ParamExpansionResult::Value(operand)
        } else {
            ParamExpansionResult::Value(lookup_exec(vars, &name_chars))
        }
    } else if kind == 1 {
        if cond {
            ParamExpansionResult::Assign { var_name: name, value: operand }
        } else {
            ParamExpansionResult::Value(lookup_exec(vars, &name_chars))
        }
    } else if kind == 2 {
        if cond {
            let mut msg = name;
            push_str(&mut msg, ": ");
            if operand.unicode_len() == 0 {
                push_str(&mut msg, "parameter null or not set");
                proof {
                    reveal_strlit("parameter null or not set");
                }
            } else {
                push_str(&mut msg, operand.as_str());
            }
            proof {
                reveal_strlit(": ");
                assert(": "@ =~= seq![':', ' ']);
            }
            ParamExpansionResult::Error(msg)
        } else {
            ParamExpansionResult::Value(lookup_exec(vars, &name_chars))
        }
    } else {
        if !cond {
            ParamExpansionResult::Value(operand)
        } else {
            ParamExpansionResult::Value(String::new())
        }
    }
}

/// `s[from..to]` as a new vector.
pub fn slice_vec(s: &Vec<char>, from: usize, to: usize) -> (r: Vec<char>)
    requires
        from <= to <= s@.len(),
    ensures
        r@ == s@.subrange(from as int, to as int),
{
    let mut r: Vec<char> = Vec::new();
    let mut i: usize = from;
    while i < to
        invariant
            from <= i <= to <= s@.len(),
            r@ == s@.subrange(from as int, i as int),
        decreases to - i,
    {
        r.push(s[i]);
        assert(s@.subrange(from as int, i as int).push(s@[i as int]) =~= s@.subrange(from as int, i + 1));
        i += 1;
    }
    r
}

fn modifier_from_exec(content: &Vec<char>, vars: &VariableManager, k0: usize) -> (r: Option<ParamExpansionResult>)
    requires
        vars.wf(),
        k0 <= 8,
    ensures
        match r {
            Some(p) => modifier_from(content@, vars.scalars(), k0 as int) == Some(p.piece()),
            None => modifier_from(content@, vars.scalars(), k0 as int) is None,
        },
{
    let mut k: usize = k0;
    while k < 8
        invariant
            vars.wf(),
            k0 <= k <= 8,
            modifier_from(content@, vars.scalars(), k0 as int) == modifier_from(content@, vars.scalars(), k as int),
        decreases 8 - k,
    {
        let op = op_chars(k);
        match find_exec(content, &op) {
            Some(pos) => {
                proof {
                    lemma_first_from_range(content@, op@, 0);
                }
                let name = slice_vec(content, 0, pos);
                if crate::names::is_valid_variable_name(from_chars(&name).as_str()) {
                    return Some(modifier_exec(content, vars, k, pos));
                }
            },
            None => {},
        }
        k += 1;
    }
    None
}

fn substring_exec(content: &Vec<char>, vars: &VariableManager) -> (r: Option<ParamExpansionResult>)
    requires
        vars.wf(),
    ensures
        match r {
            Some(p) => substring_piece(content@, vars.scalars()) == Some(p.piece()),
            None => substring_piece(content@, vars.scalars()) is None,
        },
{
    let colon = vec![':'];
    assert(colon@ =~= seq![':']);
    let c = match find_exec(content, &colon) {
        None => return None,
        Some(c) => c,
    };
    proof {
        lemma_first_from_range(content@, colon@, 0);
        assert(occurs_at(content@, colon@, c as int));
    }
    let clen = content.len();
    assert(c + 1 <= clen);
    let name = slice_vec(content, 0, c);
    let rest = slice_vec(content, c + 1, content.len());
    let lb = vec!['['];
    assert(lb@ =~= seq!['[']);
    if has_exec(&name, &lb) {
        return None;
    }
    let value_s = lookup_exec(vars, &name);
    let value = crate::text::chars_of(value_s.as_str());
    let len = value.len();
    match find_exec(&rest, &colon) {
        None => match parse_i64_exec(&skip_blanks_exec(&rest)) {
            Some(off) => {
                let st = clamp_start(len, off);
                Some(ParamExpansionResult::Value(slice_string(&value, st, len)))
            },
            None => None,
        },
        Some(c2) => {
            proof {
                lemma_first_from_range(rest@, colon@, 0);
            }
            let off_s = slice_vec(&rest, 0, c2);
            let len_s = slice_vec(&rest, c2 + 1, rest.len());
            match parse_i64_exec(&skip_blanks_exec(&off_s)) {
                Some(off) => match parse_i64_exec(&skip_blanks_exec(&len_s)) {
                    Some(l) => {
                        let st = clamp_start(len, off);
                        let en = clamp_end(len, st, l);
                        Some(ParamExpansionResult::Value(slice_string(&value, st, en)))
                    },
                    None => None,
                },
                None => None,
            }
        },
    }
}

fn clamp_start(len: usize, offset: i64) -> (r: usize)
    ensures
        r as int == sub_start(len as int, offset as int),
        r <= len,
{
    if offset < 0 {
        let back: u64 = if offset == i64::MIN { 9223372036854775808u64 } else { (-offset) as u64 };
        if back as u128 > len as u128 {
            0
        } else {
            len - back as usize
        }
    } else {
        if (offset as u64 as u128) < (len as u128) {
            offset as usize
        } else {
            len
        }
    }
}

fn clamp_end(len: usize, start: usize, length: i64) -> (r: usize)
    requires
        start <= len,
    ensures
        r as int == sub_end(len as int, start as int, length as int),
        start <= r <= len,
{
    if length < 0 {
        let back: u64 = if length == i64::MIN { 9223372036854775808u64 } else { (-length) as u64 };
        let end_pos: usize = if back as u128 > len as u128 { 0 } else { len - back as usize };
        if end_pos > start {
            end_pos
        } else {
            start
        }
    } else {
        if (length as u64 as u128) < ((len - start) as u128) {
            start + length as usize
        } else {
            len
        }
    }
}

/// Expands the inside of `${...}` (not an array reference).
pub fn expand_parameter(content: &Vec<char>, vars: &VariableManager) -> (r: ParamExpansionResult)
    requires
        vars.wf(),
    ensures
        r.piece() == param_piece(content@, vars.scalars()),
{
    if content.len() > 0 && content[0] == '#' && !crate::text::has_char(content, ':') && !crate::text::has_char(content, '-')
        && !crate::text::has_char(content, '=') && !crate::text::has_char(content, '?') && !crate::text::has_char(content, '+') {
        let name = slice_vec(content, 1, content.len());
        assert(name@ =~= content@.drop_first());
        let value = lookup_exec(vars, &name);
        let vc = crate::text::chars_of(value.as_str());
        let n = utf8_len_exec(&vc);
        let mut s = String::new();
        push_decimal(&mut s, n);
        return ParamExpansionResult::Value(s);
    }
    match modifier_from_exec(content, vars, 0) {
        Some(p) => p,
        None => match substring_exec(content, vars) {
            Some(p) => p,
            None => ParamExpansionResult::Value(lookup_exec(vars, content)),
        },
    }
}


// ---------------------------------------------------------------------
// Array references

/// Elements joined with single spaces.
pub open spec fn join_space(items: Seq<Seq<char>>) -> Seq<char>
    decreases items.len(),
{
    if items.len() == 0 {
        Seq::empty()
    } else if items.len() == 1 {
        items[0]
    } else {
        join_space(items.drop_last()) + seq![' '] + items.last()
    }
}

/// `${name[i]}`, `${name[@]}` or `${name[*]}`: the element, or all
/// elements joined by spaces; empty when the array, the element or the
/// syntax is missing.
pub open spec fn array_text(content: Seq<char>, arrays: Map<Seq<char>, Seq<Seq<char>>>) -> Seq<char> {
    match find(content, seq!['[']) {
        None => Seq::empty(),
        Some(b) => {
            let n = content.len() as int;
            if content[n - 1] != ']' || b + 1 > n - 1 {
                Seq::empty()
            } else {
                let name = content.subrange(0, b);
                let inner = content.subrange(b + 1, n - 1);
                if !arrays.contains_key(name) {
                    Seq::empty()
                } else if inner == seq!['@'] || inner == seq!['*'] {
                    join_space(arrays[name])
                } else if inner.len() > 0 && all_digits(inner) && digits_value(inner) < arrays[name].len() {
                    arrays[name][digits_value(inner) as int]
                } else {
                    Seq::empty()
                }
            }
        },
    }
}

/// `content` is read as an array reference: it holds `[`, none of the
/// colon operators, and does not start with `#`.
pub open spec fn is_array_form(content: Seq<char>) -> bool {
    &&& holds_seq(content, seq!['['])
    &&& !holds_seq(content, seq![':', '-'])
    &&& !holds_seq(content, seq![':', '='])
    &&& !holds_seq(content, seq![':', '?'])
    &&& !holds_seq(content, seq![':', '+'])
    &&& !(content.len() > 0 && content[0] == '#')
}

/// What `${content}` stands for.
pub open spec fn brace_piece(
    content: Seq<char>,
    m: Map<Seq<char>, Seq<char>>,
    arrays: Map<Seq<char>, Seq<Seq<char>>>,
) -> Piece {
    if content.len() == 0 {
        Piece::Text(Seq::empty())
    } else if is_array_form(content) {
        Piece::Text(array_text(content, arrays))
    } else {
        param_piece(content, m)
    }
}

fn join_exec(items: &Vec<String>) -> (r: String)
    ensures
        r@ == join_space(strings_view(items@)),
{
    let mut r = String::new();
    let mut i: usize = 0;
    while i < items.len()
        invariant
            0 <= i <= items@.len(),
            r@ == join_space(strings_view(items@).subrange(0, i as int)),
        decreases items@.len() - i,
    {
        let ghost before = r@;
        if i > 0 {
            push_char(&mut r, ' ');
        }
        push_str(&mut r, items[i].as_str());
        proof {
            let sv = strings_view(items@);
            assert(sv.subrange(0, i + 1).drop_last() =~= sv.subrange(0, i as int));
            if i == 0 {
                assert(r@ =~= sv.subrange(0, 1)[0]);
            } else {
                assert(r@ =~= before + seq![' '] + sv[i as int]);
            }
        }
        i += 1;
    }
    assert(strings_view(items@).subrange(0, items@.len() as int) =~= strings_view(items@));
    r
}

fn array_reference(content: &Vec<char>, vars: &VariableManager) -> (r: String)
    requires
        vars.wf(),
    ensures
        r@ == array_text(content@, vars.arrays()),
{
    let lb = vec!['['];
    assert(lb@ =~= seq!['[']);
    let b = match find_exec(content, &lb) {
        None => return String::new(),
        Some(b) => b,
    };
    proof {
        lemma_first_from_range(content@, lb@, 0);
    }
    let n = content.len();
    if content[n - 1] != ']' || b + 1 > n - 1 {
        return String::new();
    }
    let name_chars = slice_vec(content, 0, b);
    let name = from_chars(&name_chars);
    let inner = slice_vec(content, b + 1, n - 1);
    let arr = match vars.get_array(name.as_str()) {
        None => return String::new(),
        Some(a) => a,
    };
    if inner.len() == 1 && (inner[0] == '@' || inner[0] == '*') {
        proof {
            if inner@[0] == '@' {
                assert(inner@ =~= seq!['@']);
            } else {
                assert(inner@ =~= seq!['*']);
            }
        }
        return join_exec(arr);
    }
    proof {
        if inner@ == seq!['@'] || inner@ == seq!['*'] {
            assert(inner@.len() == 1);
            assert(inner@[0] == '@' || inner@[0] == '*');
        }
        assert(inner@.subrange(0, inner@.len() as int) =~= inner@);
    }
    if inner.len() == 0 || !all_digits_from(&inner, 0) {
        return String::new();
    }
    let alen = arr.len();
    proof {
        assert(strings_view(arr@).len() == alen);
    }
    match digits_up_to(&inner, 0, 0xFFFF_FFFF_FFFF_FFFFu64) {
        Some(v) => {
            if v < alen as u64 {
                assert(strings_view(arr@)[v as int] == arr@[v as int]@);
                String::from_str(arr[v as usize].as_str())
            } else {
                String::new()
            }
        },
        None => String::new(),
    }
}

fn brace_exec(content: &Vec<char>, vars: &VariableManager) -> (r: ParamExpansionResult)
    requires
        vars.wf(),
    ensures
        r.piece() == brace_piece(content@, vars.scalars(), vars.arrays()),
{
    if content.len() == 0 {
        return ParamExpansionResult::Value(String::new());
    }
    let lb = vec!['['];
    let o1 = vec![':', '-'];
    let o2 = vec![':', '='];
    let o3 = vec![':', '?'];
    let o4 = vec![':', '+'];
    proof {
        assert(lb@ =~= seq!['[']);
        assert(o1@ =~= seq![':', '-']);
        assert(o2@ =~= seq![':', '=']);
        assert(o3@ =~= seq![':', '?']);
        assert(o4@ =~= seq![':', '+']);
    }
    if has_exec(content, &lb) && !has_exec(content, &o1) && !has_exec(content, &o2) && !has_exec(content, &o3)
        && !has_exec(content, &o4) && !(content[0] == '#') {
        ParamExpansionResult::Value(array_reference(content, vars))
    } else {
        expand_parameter(content, vars)
    }
}

// ---------------------------------------------------------------------
// Scanning a line

/// First position at or after `j` holding `}`, or the end.
pub open spec fn brace_close(s: Seq<char>, j: int) -> int
    decreases s.len() - j,
{
    if j >= s.len() || j < 0 {
        s.len() as int
    } else if s[j] == '}' {
        j
    } else {
        brace_close(s, j + 1)
    }
}

/// First position at or after `j` that holds no name character, or the end.
pub open spec fn ident_end(s: Seq<char>, j: int) -> int
    decreases s.len() - j,
{
    if j >= s.len() || j < 0 {
        s.len() as int
    } else if !is_name_char(s[j]) {
        j
    } else {
        ident_end(s, j + 1)
    }
}

proof fn lemma_brace_close(s: Seq<char>, j: int)
    requires
        0 <= j <= s.len(),
    ensures
        j <= brace_close(s, j) <= s.len(),
        brace_close(s, j) < s.len() ==> s[brace_close(s, j)] == '}',
        forall|t: int| j <= t < brace_close(s, j) ==> s[t] != '}',
    decreases s.len() - j,
{
    if j < s.len() && s[j] != '}' {
        lemma_brace_close(s, j + 1);
    }
}

proof fn lemma_ident_end(s: Seq<char>, j: int)
    requires
        0 <= j <= s.len(),
    ensures
        j <= ident_end(s, j) <= s.len(),
        ident_end(s, j) < s.len() ==> !is_name_char(s[ident_end(s, j)]),
        forall|t: int| j <= t < ident_end(s, j) ==> is_name_char(s[t]),
    decreases s.len() - j,
{
    if j < s.len() && is_name_char(s[j]) {
        lemma_ident_end(s, j + 1);
    }
}

pub open spec fn is_digit_1_9(c: char) -> bool {
    '1' <= c && c <= '9'
}

pub open spec fn starts_name(c: char) -> bool {
    ('a' <= c && c <= 'z') || ('A' <= c && c <= 'Z') || c == '_'
}

/// The reference that starts at `i`: how many characters it takes, and
/// what it stands for.
pub open spec fn token_at(
    s: Seq<char>,
    i: int,
    m: Map<Seq<char>, Seq<char>>,
    arrays: Map<Seq<char>, Seq<Seq<char>>>,
    last: int,
    pid: nat,
) -> (int, Piece) {
    if s[i] == '\\' && i + 1 < s.len() && s[i + 1] == '$' {
        (2, Piece::Text(seq!['$']))
    } else if s[i] == '$' {
        if i + 1 >= s.len() {
            (1, Piece::Text(seq!['$']))
        } else {
            let c = s[i + 1];
            if c == '$' {
                (2, Piece::Text(decimal(pid)))
            } else if c == '?' {
                (2, Piece::Text(int_text(last)))
            } else if c == '0' {
                (2, Piece::Text(seq!['r', 'u', 's', 'h']))
            } else if c == '#' {
                (2, Piece::Text(seq!['0']))
            } else if is_digit_1_9(c) {
                (2, Piece::Text(Seq::empty()))
            } else if c == '{' {
                let close = brace_close(s, i + 2);
                let content = s.subrange(i + 2, close);
                let next = if close < s.len() { close + 1 } else { close };
                (next - i, brace_piece(content, m, arrays))
            } else if starts_name(c) {
                let end = ident_end(s, i + 1);
                (end - i, Piece::Text(lookup(m, s.subrange(i + 1, end))))
            } else {
                (1, Piece::Text(seq!['$']))
            }
        }
    } else {
        (1, Piece::Text(seq![s[i]]))
    }
}

proof fn lemma_token_advance(
    s: Seq<char>,
    i: int,
    m: Map<Seq<char>, Seq<char>>,
    arrays: Map<Seq<char>, Seq<Seq<char>>>,
    last: int,
    pid: nat,
)
    requires
        0 <= i < s.len(),
    ensures
        1 <= token_at(s, i, m, arrays, last, pid).0 <= s.len() - i,
{
    if s[i] == '$' && i + 1 < s.len() {
        let c = s[i + 1];
        if c == '{' {
            lemma_brace_close(s, i + 2);
        } else if starts_name(c) {
            lemma_ident_end(s, i + 1);
            assert(is_name_char(s[i + 1]));
        }
    }
}

/// Position of the first `'` at or after `j`.
pub open spec fn quote_close(s: Seq<char>, j: int) -> Option<int>
    decreases s.len() - j,
{
    if j < 0 || j >= s.len() {
        None
    } else if s[j] == '\'' {
        Some(j)
    } else {
        quote_close(s, j + 1)
    }
}

proof fn lemma_quote_close(s: Seq<char>, j: int)
    requires
        0 <= j,
    ensures
        quote_close(s, j) matches Some(k) ==> j <= k < s.len() && s[k] == '\'',
        quote_close(s, j) is None ==> forall|t: int| j <= t < s.len() ==> s[t] != '\'',
    decreases s.len() - j,
{
    if j < s.len() && s[j] != '\'' {
        lemma_quote_close(s, j + 1);
    }
}

/// The piece that starts at `i` when quoting is honoured (`quotes`):
/// `\'` and `\"` are copied as written, `'...'` outside double quotes is
/// copied unchanged up to and including its closing quote (to the end when
/// there is none), and `"` is copied and opens or closes a double-quoted
/// stretch, inside which `'` is an ordinary character. Everything else is
/// read as `token_at` says. The last component is whether a double-quoted
/// stretch is open after the piece.
pub open spec fn qtoken_at(
    s: Seq<char>,
    i: int,
    m: Map<Seq<char>, Seq<char>>,
    arrays: Map<Seq<char>, Seq<Seq<char>>>,
    last: int,
    pid: nat,
    quotes: bool,
    in_dq: bool,
) -> (int, Piece, bool) {
    if quotes && s[i] == '\\' && i + 1 < s.len() && (s[i + 1] == '\'' || s[i + 1] == '"') {
        (2, Piece::Text(s.subrange(i, i + 2)), in_dq)
    } else if quotes && !in_dq && s[i] == '\'' {
        match quote_close(s, i + 1) {
            Some(j) => (j + 1 - i, Piece::Text(s.subrange(i, j + 1)), false),
            None => (s.len() - i, Piece::Text(s.subrange(i, s.len() as int)), false),
        }
    } else if quotes && s[i] == '"' {
        (1, Piece::Text(seq!['"']), !in_dq)
    } else {
        let t = token_at(s, i, m, arrays, last, pid);
        (t.0, t.1, in_dq)
    }
}

/// `p` would assign to a name that holds an array, which `:=` leaves
/// alone.
pub open spec fn assigns_array(p: Piece, arrays: Map<Seq<char>, Seq<Seq<char>>>) -> bool {
    match p {
        Piece::Assign(n, _) => arrays.contains_key(n),
        _ => false,
    }
}

/// Text, variables and messages after one reference.
pub open spec fn apply_piece(p: Piece, m: Map<Seq<char>, Seq<char>>, assign: bool) -> (
    Seq<char>,
    Map<Seq<char>, Seq<char>>,
    Seq<Seq<char>>,
) {
    match p {
        Piece::Text(t) => (t, m, Seq::empty()),
        Piece::Assign(n, v) => (v, if assign && valid_name(n) { m.insert(n, v) } else { m }, Seq::empty()),
        Piece::Error(msg) => (Seq::empty(), m, seq![msg]),
    }
}

/// Expansion of `s` from position `i`: the text, the scalars afterwards
/// (changed only by `:=`/`=` when `assign` holds), and the messages of
/// the `?` forms, in order.
pub open spec fn expand_from(
    s: Seq<char>,
    i: int,
    m: Map<Seq<char>, Seq<char>>,
    arrays: Map<Seq<char>, Seq<Seq<char>>>,
    last: int,
    pid: nat,
    assign: bool,
    quotes: bool,
    in_dq: bool,
) -> (Seq<char>, Map<Seq<char>, Seq<char>>, Seq<Seq<char>>)
    decreases s.len() - i,
{
    if i < 0 || i >= s.len() {
        (Seq::empty(), m, Seq::empty())
    } else {
        let tok = qtoken_at(s, i, m, arrays, last, pid, quotes, in_dq);
        let here = apply_piece(tok.1, m, assign && !assigns_array(tok.1, arrays));
        if tok.0 < 1 || i + tok.0 > s.len() {
            (Seq::empty(), m, Seq::empty())
        } else {
            let rest = expand_from(s, i + tok.0, here.1, arrays, last, pid, assign, quotes, tok.2);
            (here.0 + rest.0, rest.1, here.2 + rest.2)
        }
    }
}

/// The expansion of the text of one word part, which holds no quoting
/// of its own.
pub open spec fn expand_spec(
    s: Seq<char>,
    m: Map<Seq<char>, Seq<char>>,
    arrays: Map<Seq<char>, Seq<Seq<char>>>,
    last: int,
    pid: nat,
    assign: bool,
) -> (Seq<char>, Map<Seq<char>, Seq<char>>, Seq<Seq<char>>) {
    expand_from(s, 0, m, arrays, last, pid, assign, false, false)
}

/// The expansion of a command line, where single quotes keep their text
/// unexpanded and the quote characters stay in place.
pub open spec fn expand_line_spec(
    s: Seq<char>,
    m: Map<Seq<char>, Seq<char>>,
    arrays: Map<Seq<char>, Seq<Seq<char>>>,
    last: int,
    pid: nat,
    assign: bool,
) -> (Seq<char>, Map<Seq<char>, Seq<char>>, Seq<Seq<char>>) {
    expand_from(s, 0, m, arrays, last, pid, assign, true, false)
}

/// The expanded text, and the messages that the `?` forms report.
pub struct Expanded {
    pub text: String,
    pub errors: Vec<String>,
}

/// Expands the one reference that starts at `i`, appending its text and
/// messages, and returns how many characters it took and the assignment
/// it asks for.
#[verifier::rlimit(50)]
fn expand_token(
    s: &Vec<char>,
    i: usize,
    vars: &VariableManager,
    last_exit_code: i32,
    pid: u32,
    text: &mut String,
    errors: &mut Vec<String>,
) -> (r: (usize, Option<(String, String)>))
    requires
        i < s@.len(),
        vars.wf(),
    ensures
        ({
            let tok = token_at(s@, i as int, vars.scalars(), vars.arrays(), last_exit_code as int, pid as nat);
            let here = apply_piece(tok.1, vars.scalars(), false);
            &&& r.0 as int == tok.0
            &&& final(text)@ == old(text)@ + here.0
            &&& strings_view(final(errors)@) == strings_view(old(errors)@) + here.2
            &&& match tok.1 {
                Piece::Assign(n, v) => r.1 matches Some(x) && x.0@ == n && x.1@ == v,
                _ => r.1 is None,
            }
        }),
{
    let mut assignment: Option<(String, String)> = None;
    let n = s.len();
    let ghost m = vars.scalars();
    let ghost a0 = vars.arrays();
    let ghost t0 = text@;
    let ghost e0 = strings_view(errors@);
    proof {
        lemma_token_advance(s@, i as int, m, a0, last_exit_code as int, pid as nat);
    }
    let c = s[i];
    let adv: usize;
    if c == '\\' && i + 1 < n && s[i + 1] == '$' {
        push_char(text, '$');
        adv = 2;
    } else if c == '$' {
        if i + 1 >= n {
            push_char(text, '$');
            adv = 1;
        } else {
            let d = s[i + 1];
            if d == '$' {
                push_decimal(text, pid as u128);
                adv = 2;
            } else if d == '?' {
                push_int(text, last_exit_code as i64);
                adv = 2;
            } else if d == '0' {
                push_str(text, "rush");
                proof {
                    reveal_strlit("rush");
                    assert("rush"@ =~= seq!['r', 'u', 's', 'h']);
                }
                adv = 2;
            } else if d == '#' {
                push_char(text, '0');
                adv = 2;
            } else if '1' <= d && d <= '9' {
                adv = 2;
            } else if d == '{' {
                let mut j: usize = i + 2;
                proof {
                    lemma_brace_close(s@, i + 2);
                }
                while j < n && s[j] != '}'
                    invariant
                        n == s@.len(),
                        i + 2 <= j <= n,
                        brace_close(s@, i + 2) == brace_close(s@, j as int),
                    decreases n - j,
                {
                    j += 1;
                }
                assert(brace_close(s@, j as int) == j);
                let content = slice_vec(s, i + 2, j);
                let piece = brace_exec(&content, vars);
                adv = if j < n { j + 1 - i } else { j - i };
                match piece {
                    ParamExpansionResult::Value(v) => {
                        push_str(text, v.as_str());
                    },
                    ParamExpansionResult::Error(msg) => {
                        errors.push(msg);
                    },
                    ParamExpansionResult::Assign { var_name, value } => {
                        push_str(text, value.as_str());
                        assignment = Some((var_name, value));
                    },
                }
            } else if ('a' <= d && d <= 'z') || ('A' <= d && d <= 'Z') || d == '_' {
                let mut j: usize = i + 1;
                while j < n && is_name_character(s[j])
                    invariant
                        n == s@.len(),
                        i + 1 <= j <= n,
                        ident_end(s@, i + 1) == ident_end(s@, j as int),
                    decreases n - j,
                {
                    j += 1;
                }
                assert(ident_end(s@, j as int) == j);
                let name = slice_vec(s, i + 1, j);
                let v = lookup_exec(vars, &name);
                push_str(text, v.as_str());
                adv = j - i;
            } else {
                push_char(text, '$');
                adv = 1;
            }
        }
    } else {
        push_char(text, c);
        adv = 1;
    }
    proof {
        assert(strings_view(errors@) =~= e0 + apply_piece(
            token_at(s@, i as int, m, a0, last_exit_code as int, pid as nat).1,
            m,
            false,
        ).2);
        assert(text@ =~= t0 + apply_piece(
            token_at(s@, i as int, m, a0, last_exit_code as int, pid as nat).1,
            m,
            false,
        ).0);
    }
    (adv, assignment)
}

/// Expands the piece that starts at `i`, honouring quotes when `quotes`
/// holds; returns how many characters it took, the assignment it asks
/// for, and whether a double-quoted stretch is open after it.
fn expand_qtoken(
    s: &Vec<char>,
    i: usize,
    vars: &VariableManager,
    last_exit_code: i32,
    pid: u32,
    quotes: bool,
    in_dq: bool,
    text: &mut String,
    errors: &mut Vec<String>,
) -> (r: (usize, Option<(String, String)>, bool))
    requires
        i < s@.len(),
        vars.wf(),
    ensures
        ({
            let tok = qtoken_at(s@, i as int, vars.scalars(), vars.arrays(), last_exit_code as int, pid as nat, quotes, in_dq);
            let here = apply_piece(tok.1, vars.scalars(), false);
            &&& r.0 as int == tok.0
            &&& 1 <= tok.0 <= s@.len() - i
            &&& r.2 == tok.2
            &&& final(text)@ == old(text)@ + here.0
            &&& strings_view(final(errors)@) == strings_view(old(errors)@) + here.2
            &&& match tok.1 {
                Piece::Assign(n, v) => r.1 matches Some(x) && x.0@ == n && x.1@ == v,
                _ => r.1 is None,
            }
        }),
{
    let n = s.len();
    let ghost t0 = text@;
    if quotes && s[i] == '\\' && i + 1 < n && (s[i + 1] == '\'' || s[i + 1] == '"') {
        push_char(text, s[i]);
        push_char(text, s[i + 1]);
        assert(text@ =~= t0 + s@.subrange(i as int, i + 2));
        return (2, None, in_dq);
    }
    if quotes && !in_dq && s[i] == '\'' {
        let mut j: usize = i + 1;
        proof {
            lemma_quote_close(s@, i + 1);
        }
        while j < n && s[j] != '\''
            invariant
                n == s@.len(),
                i + 1 <= j <= n,
                quote_close(s@, i + 1) == quote_close(s@, j as int),
            decreases n - j,
        {
            j += 1;
        }
        let end: usize = if j < n { j + 1 } else { n };
        let piece = slice_string(s, i, end);
        push_str(text, piece.as_str());
        return (end - i, None, false);
    }
    if quotes && s[i] == '"' {
        push_char(text, '"');
        assert(text@ =~= t0 + seq!['"']);
        return (1, None, !in_dq);
    }
    proof {
        lemma_token_advance(s@, i as int, vars.scalars(), vars.arrays(), last_exit_code as int, pid as nat);
    }
    let (adv, assignment) = expand_token(s, i, vars, last_exit_code, pid, text, errors);
    (adv, assignment, in_dq)
}

/// Expands `input`; with `assign`, the `:=` and `=` forms assign their
/// default in `vars`; with `quotes`, single-quoted text is left as it is.
pub fn expand_into(
    input: &str,
    vars: &mut VariableManager,
    last_exit_code: i32,
    pid: u32,
    assign: bool,
    quotes: bool,
) -> (r: Expanded)
    requires
        old(vars).wf(),
    ensures
        final(vars).wf(),
        final(vars).arrays() == old(vars).arrays(),
        final(vars).exported_names() == old(vars).exported_names(),
        ({
            let e = expand_from(
                input@,
                0,
                old(vars).scalars(),
                old(vars).arrays(),
                last_exit_code as int,
                pid as nat,
                assign,
                quotes,
                false,
            );
            &&& r.text@ == e.0
            &&& final(vars).scalars() == e.1
            &&& strings_view(r.errors@) == e.2
        }),
{
    let s = crate::text::chars_of(input);
    let n = s.len();
    let ghost m0 = vars.scalars();
    let ghost a0 = vars.arrays();
    let ghost x0 = old(vars).exported_names();
    let ghost last = last_exit_code as int;
    let ghost p = pid as nat;
    let mut text = String::new();
    let mut errors: Vec<String> = Vec::new();
    let mut in_dq = false;
    let mut i: usize = 0;
    while i < n
        invariant
            n == s@.len(),
            s@ == input@,
            0 <= i <= n,
            vars.wf(),
            vars.arrays() == a0,
            vars.exported_names() == x0,
            last == last_exit_code as int,
            p == pid as nat,
            ({
                let whole = expand_from(s@, 0, m0, a0, last, p, assign, quotes, false);
                let rest = expand_from(s@, i as int, vars.scalars(), a0, last, p, assign, quotes, in_dq);
                &&& whole.0 == text@ + rest.0
                &&& whole.1 == rest.1
                &&& whole.2 == strings_view(errors@) + rest.2
            }),
        decreases n - i,
    {
        let ghost m = vars.scalars();
        let ghost tok = qtoken_at(s@, i as int, m, a0, last, p, quotes, in_dq);
        let ghost t0 = text@;
        let ghost e0 = strings_view(errors@);
        let (adv, assignment, dq) = expand_qtoken(&s, i, vars, last_exit_code, pid, quotes, in_dq, &mut text, &mut errors);
        if assign {
            match assignment {
                Some((name, value)) => {
                    if vars.get_array(name.as_str()).is_none() {
                        let ghost nv = name@;
                        let _ = vars.set(name, value);
                        assert(vars.arrays() =~= a0.remove(nv));
                        assert(a0.remove(nv) =~= a0);
                    }
                },
                None => {},
            }
        }
        proof {
            let here = apply_piece(tok.1, m, assign && !assigns_array(tok.1, a0));
            assert(vars.scalars() == here.1);
            let rest = expand_from(s@, i + adv, here.1, a0, last, p, assign, quotes, dq);
            assert(t0 + (here.0 + rest.0) =~= text@ + rest.0);
            assert(e0 + (here.2 + rest.2) =~= strings_view(errors@) + rest.2);
        }
        in_dq = dq;
        i = i + adv;
    }
    Expanded { text, errors }
}

/// Expands a command line against `vars` without assigning: the `:=` and
/// `=` forms insert their default only. Single-quoted text is left as it
/// is, quotes included.
pub fn expand_variables(input: &str, vars: &VariableManager, last_exit_code: i32, pid: u32) -> (r: String)
    requires
        vars.wf(),
    ensures
        r@ == expand_line_spec(input@, vars.scalars(), vars.arrays(), last_exit_code as int, pid as nat, false).0,
{
    let s = crate::text::chars_of(input);
    let n = s.len();
    let ghost m = vars.scalars();
    let ghost a = vars.arrays();
    let ghost last = last_exit_code as int;
    let ghost p = pid as nat;
    let mut text = String::new();
    let mut errors: Vec<String> = Vec::new();
    let mut in_dq = false;
    let mut i: usize = 0;
    while i < n
        invariant
            n == s@.len(),
            s@ == input@,
            0 <= i <= n,
            vars.wf(),
            m == vars.scalars(),
            a == vars.arrays(),
            last == last_exit_code as int,
            p == pid as nat,
            expand_from(s@, 0, m, a, last, p, false, true, false).0 == text@ + expand_from(
                s@,
                i as int,
                m,
                a,
                last,
                p,
                false,
                true,
                in_dq,
            ).0,
        decreases n - i,
    {
        let ghost tok = qtoken_at(s@, i as int, m, a, last, p, true, in_dq);
        let ghost t0 = text@;
        let (adv, _, dq) = expand_qtoken(&s, i, vars, last_exit_code, pid, true, in_dq, &mut text, &mut errors);
        proof {
            let here = apply_piece(tok.1, m, false);
            assert(here.1 == m);
            let rest = expand_from(s@, i + adv, m, a, last, p, false, true, dq);
            assert(t0 + (here.0 + rest.0) =~= text@ + rest.0);
        }
        in_dq = dq;
        i = i + adv;
    }
    text
}

/// Expands a command line, letting the `:=` and `=` forms assign their
/// default in `vars`; single-quoted text is left as it is. Messages of the
/// `?` forms are left out (see `expand_into`).
pub fn expand_variables_mut(input: &str, vars: &mut VariableManager, last_exit_code: i32, pid: u32) -> (r: String)
    requires
        old(vars).wf(),
    ensures
        final(vars).wf(),
        ({
            let e = expand_line_spec(input@, old(vars).scalars(), old(vars).arrays(), last_exit_code as int, pid as nat, true);
            r@ == e.0 && final(vars).scalars() == e.1
        }),
        final(vars).arrays() == old(vars).arrays(),
        final(vars).exported_names() == old(vars).exported_names(),
{
    expand_into(input, vars, last_exit_code, pid, true, true).text
}

proof fn lemma_find_absent(s: Seq<char>, c: char, i: int)
    requires
        forall|t: int| 0 <= t < s.len() ==> s[t] != c,
        0 <= i,
    ensures
        first_from(s, seq![c], i) is None,
    decreases s.len() + 1 - i,
{
    if i + 1 <= s.len() {
        assert(s.subrange(i, i + 1)[0] != seq![c][0]);
        lemma_find_absent(s, c, i + 1);
    }
}

/// `${#name}` expands to the number of UTF-8 bytes in the value of
/// `name`, and to `0` when `name` is unset.
pub proof fn law_length_expansion(
    name: Seq<char>,
    m: Map<Seq<char>, Seq<char>>,
    arrays: Map<Seq<char>, Seq<Seq<char>>>,
    last: int,
    pid: nat,
    assign: bool,
)
    requires
        valid_name(name),
    ensures
        expand_spec(seq!['$', '{', '#'] + name + seq!['}'], m, arrays, last, pid, assign).0 == decimal(
            utf8_len(lookup(m, name)),
        ),
        !m.contains_key(name) ==> expand_spec(seq!['$', '{', '#'] + name + seq!['}'], m, arrays, last, pid, assign).0
            == seq!['0'],
{
    let s = seq!['$', '{', '#'] + name + seq!['}'];
    let close: int = 3 + name.len() as int;
    assert(s[close] == '}');
    assert forall|t: int| 2 <= t < close implies s[t] != '}' by {
        if t > 2 {
            assert(s[t] == name[t - 3]);
            assert(is_name_char(name[t - 3]));
        }
    }
    assert forall|t: int| 2 <= t <= close implies brace_close(s, t) == close by {
        lemma_brace_close_at(s, t, close);
    }
    let content = s.subrange(2, close);
    assert(content =~= seq!['#'] + name);
    assert forall|t: int| 0 <= t < content.len() implies content[t] != '[' && content[t] != ':' && content[t] != '-'
        && content[t] != '=' && content[t] != '?' && content[t] != '+' by {
        if t > 0 {
            assert(content[t] == name[t - 1]);
            assert(is_name_char(name[t - 1]));
        }
    }
    lemma_find_absent(content, '[', 0);
    assert(!content.contains(':'));
    assert(!content.contains('-'));
    assert(!content.contains('='));
    assert(!content.contains('?'));
    assert(!content.contains('+'));
    assert(is_length_form(content));
    assert(content.drop_first() =~= name);
    let tok = token_at(s, 0, m, arrays, last, pid);
    assert(tok.0 == close + 1);
    assert(tok.1 == Piece::Text(decimal(utf8_len(lookup(m, name)))));
    assert(expand_from(s, close + 1, m, arrays, last, pid, assign, false, false).0 == Seq::<char>::empty());
    assert(decimal(utf8_len(lookup(m, name))) + Seq::<char>::empty() =~= decimal(utf8_len(lookup(m, name))));
    if !m.contains_key(name) {
        assert(utf8_len(Seq::<char>::empty()) == 0);
        assert(decimal(0) =~= seq!['0']);
    }
}

proof fn lemma_brace_close_at(s: Seq<char>, t: int, close: int)
    requires
        0 <= t <= close < s.len(),
        s[close] == '}',
        forall|q: int| t <= q < close ==> s[q] != '}',
    ensures
        brace_close(s, t) == close,
    decreases close - t,
{
    if t < close {
        lemma_brace_close_at(s, t + 1, close);
    }
}


/// `str::parse::<i64>` on the characters of `s`.
pub fn parse_i64_chars(s: &Vec<char>) -> (r: Option<i64>)
    ensures
        match r {
            Some(v) => parse_i64(s@) == Some(v as int),
            None => parse_i64(s@) is None,
        },
{
    parse_i64_exec(s)
}

/// The value of the digits of `s` from `from` on; `None` when there are
/// none, a non-digit follows, or the value exceeds `u64`.
pub fn read_digits(s: &Vec<char>, from: usize) -> (r: Option<u64>)
    requires
        from <= s@.len(),
    ensures
        r matches Some(v) ==> ({
            let d = s@.subrange(from as int, s@.len() as int);
            d.len() > 0 && all_digits(d) && digits_value(d) == v
        }),
        ({
            let d = s@.subrange(from as int, s@.len() as int);
            (d.len() > 0 && all_digits(d) && digits_value(d) <= u64::MAX) ==> r is Some
        }),
{
    if from == s.len() || !all_digits_from(s, from) {
        return None;
    }
    digits_up_to(s, from, 0xFFFF_FFFF_FFFF_FFFFu64)
}


pub proof fn lemma_find_found(s: Seq<char>, p: Seq<char>)
    ensures
        find(s, p) matches Some(k) ==> 0 <= k && occurs_at(s, p, k),
{
    lemma_first_from_range(s, p, 0);
}


proof fn lemma_quote_close_at(s: Seq<char>, t: int, k: int)
    requires
        0 <= t <= k < s.len(),
        s[k] == '\'',
        forall|q: int| t <= q < k ==> s[q] != '\'',
    ensures
        quote_close(s, t) == Some(k),
    decreases k - t,
{
    if t < k {
        lemma_quote_close_at(s, t + 1, k);
    }
}

/// In a command line, single-quoted text is not expanded: `'t'` (with no
/// quote inside `t`) comes out exactly as written, and nothing is
/// assigned or reported.
pub proof fn law_single_quotes_not_expanded(
    t: Seq<char>,
    m: Map<Seq<char>, Seq<char>>,
    arrays: Map<Seq<char>, Seq<Seq<char>>>,
    last: int,
    pid: nat,
    assign: bool,
)
    requires
        !t.contains('\''),
    ensures
        expand_line_spec(seq!['\''] + t + seq!['\''], m, arrays, last, pid, assign) == (
            seq!['\''] + t + seq!['\''],
            m,
            Seq::<Seq<char>>::empty(),
        ),
{
    let s = seq!['\''] + t + seq!['\''];
    let k = s.len() - 1;
    assert forall|q: int| 1 <= q < k implies s[q] != '\'' by {
        assert(s[q] == t[q - 1]);
    }
    lemma_quote_close_at(s, 1, k);
    assert(s.subrange(0, k + 1) =~= s);
    let tok = qtoken_at(s, 0, m, arrays, last, pid, true, false);
    assert(tok == (s.len() as int, Piece::Text(s), false));
    let here = apply_piece(tok.1, m, assign);
    assert(here == (s, m, Seq::<Seq<char>>::empty()));
    let rest = expand_from(s, s.len() as int, m, arrays, last, pid, assign, true, false);
    assert(rest == (Seq::<char>::empty(), m, Seq::<Seq<char>>::empty()));
    assert(s + Seq::<char>::empty() =~= s);
    assert(Seq::<Seq<char>>::empty() + Seq::<Seq<char>>::empty() =~= Seq::<Seq<char>>::empty());
}

} // verus!
