//! Lexicographic order on character sequences, and a stable sort by it.

use vstd::prelude::*;

verus! {

/// `a` comes strictly before `b` in code-point lexicographic order,
/// the order that `str`'s `Ord` uses.
pub open spec fn seq_lt(a: Seq<char>, b: Seq<char>) -> bool
    decreases a.len(),
{
    if b.len() == 0 {
        false
    } else if a.len() == 0 {
        true
    } else if a[0] != b[0] {
        a[0] < b[0]
    } else {
        seq_lt(a.drop_first(), b.drop_first())
    }
}

pub proof fn lemma_lt_irreflexive(a: Seq<char>)
    ensures
        !seq_lt(a, a),
    decreases a.len(),
{
    if a.len() > 0 {
        lemma_lt_irreflexive(a.drop_first());
    }
}

pub proof fn lemma_lt_transitive(a: Seq<char>, b: Seq<char>, c: Seq<char>)
    requires
        seq_lt(a, b),
        seq_lt(b, c),
    ensures
        seq_lt(a, c),
    decreases a.len(),
{
    if a.len() > 0 && b.len() > 0 && c.len() > 0 {
        if a[0] == b[0] && b[0] == c[0] {
            lemma_lt_transitive(a.drop_first(), b.drop_first(), c.drop_first());
        }
    }
}

/// Two different sequences are ordered one way or the other.
pub proof fn lemma_lt_total(a: Seq<char>, b: Seq<char>)
    requires
        a != b,
    ensures
        seq_lt(a, b) || seq_lt(b, a),
    decreases a.len(),
{
    if a.len() > 0 && b.len() > 0 && a[0] == b[0] {
        if a.drop_first() == b.drop_first() {
            assert(a =~= seq![a[0]] + a.drop_first());
            assert(b =~= seq![b[0]] + b.drop_first());
        }
        lemma_lt_total(a.drop_first(), b.drop_first());
    } else if a.len() == 0 && b.len() == 0 {
        assert(a =~= b);
    }
}

proof fn lemma_lt_skip(a: Seq<char>, b: Seq<char>, i: int)
    requires
        0 <= i <= a.len(),
        i <= b.len(),
        a.subrange(0, i) == b.subrange(0, i),
    ensures
        seq_lt(a, b) == seq_lt(a.subrange(i, a.len() as int), b.subrange(i, b.len() as int)),
    decreases i,
{
    if i > 0 {
        assert(a[0] == a.subrange(0, i)[0]);
        assert(b[0] == b.subrange(0, i)[0]);
        assert(a.drop_first().subrange(0, i - 1) =~= a.subrange(0, i).drop_first());
        assert(b.drop_first().subrange(0, i - 1) =~= b.subrange(0, i).drop_first());
        lemma_lt_skip(a.drop_first(), b.drop_first(), i - 1);
        assert(a.drop_first().subrange(i - 1, a.len() - 1) =~= a.subrange(i, a.len() as int));
        assert(b.drop_first().subrange(i - 1, b.len() - 1) =~= b.subrange(i, b.len() as int));
    } else {
        assert(a.subrange(0, a.len() as int) =~= a);
        assert(b.subrange(0, b.len() as int) =~= b);
    }
}

/// Whether `a` comes strictly before `b`.
pub fn chars_lt(a: &Vec<char>, b: &Vec<char>) -> (r: bool)
    ensures
        r == seq_lt(a@, b@),
{
    let mut i: usize = 0;
    while i < a.len() && i < b.len() && a[i] == b[i]
        invariant
            0 <= i <= a@.len(),
            i <= b@.len(),
            a@.subrange(0, i as int) == b@.subrange(0, i as int),
        decreases a@.len() - i,
    {
        assert(a@.subrange(0, i + 1) =~= a@.subrange(0, i as int).push(a@[i as int]));
        assert(b@.subrange(0, i + 1) =~= b@.subrange(0, i as int).push(b@[i as int]));
        i += 1;
    }
    proof {
        lemma_lt_skip(a@, b@, i as int);
    }
    if i == b.len() {
        false
    } else if i == a.len() {
        true
    } else {
        a[i] < b[i]
    }
}

/// `idx` lists every index below `n` exactly once.
pub open spec fn is_permutation(idx: Seq<usize>, n: nat) -> bool {
    &&& idx.len() == n
    &&& forall|i: int| 0 <= i < idx.len() ==> #[trigger] idx[i] < n
    &&& forall|i: int, j: int| 0 <= i < j < idx.len() ==> idx[i] != idx[j]
}

/// A permutation reaches every index below `n`.
pub proof fn lemma_permutation_covers(idx: Seq<usize>, n: nat, j: int)
    requires
        is_permutation(idx, n),
        0 <= j < n,
    ensures
        exists|i: int| 0 <= i < idx.len() && idx[i] == j,
{
    let m = idx.map_values(|x: usize| x as int);
    assert(m.no_duplicates()) by {
        assert forall|a: int, b: int| 0 <= a < m.len() && 0 <= b < m.len() && a != b implies m[a]
            != m[b] by {
            if a < b {
                assert(idx[a] != idx[b]);
            } else {
                assert(idx[b] != idx[a]);
            }
        }
    }
    m.unique_seq_to_set();
    let range = vstd::set_lib::set_int_range(0, n as int);
    vstd::set_lib::lemma_int_range(0, n as int);
    assert(m.to_set().subset_of(range)) by {
        assert forall|x: int| m.to_set().contains(x) implies range.contains(x) by {
            let k = choose|k: int| 0 <= k < m.len() && m[k] == x;
            assert(idx[k] < n);
        }
    }
    vstd::set_lib::lemma_subset_equality(m.to_set(), range);
    assert(range.contains(j));
    assert(m.to_set().contains(j));
    let k = choose|k: int| 0 <= k < m.len() && m[k] == j;
    assert(idx[k] == j);
}

/// Read through `idx`, `keys` never goes down.
pub open spec fn sorted_by(idx: Seq<usize>, keys: Seq<Seq<char>>) -> bool {
    forall|i: int, j: int|
        0 <= i < j < idx.len() ==> !seq_lt(#[trigger] keys[idx[j] as int], #[trigger] keys[idx[i] as int])
}

/// The indices of `keys` in an order that sorts them; equal keys keep
/// their order.
pub fn sort_indices(keys: &Vec<Vec<char>>) -> (r: Vec<usize>)
    ensures
        is_permutation(r@, keys@.len()),
        sorted_by(r@, keys@.map_values(|k: Vec<char>| k@)),
{
    let ghost kv = keys@.map_values(|k: Vec<char>| k@);
    let mut r: Vec<usize> = Vec::new();
    let mut n: usize = 0;
    while n < keys.len()
        invariant
            kv == keys@.map_values(|k: Vec<char>| k@),
            0 <= n <= keys@.len(),
            r@.len() == n,
            forall|i: int| 0 <= i < r@.len() ==> #[trigger] r@[i] < n,
            forall|i: int, j: int| 0 <= i < j < r@.len() ==> r@[i] != r@[j],
            sorted_by(r@, kv),
        decreases keys@.len() - n,
    {
        // first position whose key lies strictly after keys[n]
        let mut p: usize = 0;
        while p < r.len() && !chars_lt(&keys[n], &keys[r[p]])
            invariant
                kv == keys@.map_values(|k: Vec<char>| k@),
                0 <= p <= r@.len(),
                n < keys@.len(),
                forall|i: int| 0 <= i < r@.len() ==> #[trigger] r@[i] < n,
                forall|i: int| 0 <= i < p ==> !seq_lt(kv[n as int], #[trigger] kv[r@[i] as int]),
            decreases r@.len() - p,
        {
            p += 1;
        }
        let ghost old_r = r@;
        r.insert(p, n);
        proof {
            assert forall|i: int| 0 <= i < r@.len() implies #[trigger] r@[i] < n + 1 by {
                if i < p {
                    assert(r@[i] == old_r[i]);
                } else if i > p {
                    assert(r@[i] == old_r[i - 1]);
                }
            }
            assert forall|i: int, j: int| 0 <= i < j < r@.len() implies r@[i] != r@[j] by {
                if i < p {
                    assert(r@[i] == old_r[i]);
                } else if i > p {
                    assert(r@[i] == old_r[i - 1]);
                }
                if j < p {
                    assert(r@[j] == old_r[j]);
                } else if j > p {
                    assert(r@[j] == old_r[j - 1]);
                }
            }
            assert forall|i: int, j: int| 0 <= i < j < r@.len() implies !seq_lt(
                #[trigger] kv[r@[j] as int],
                #[trigger] kv[r@[i] as int],
            ) by {
                if j < p {
                    assert(r@[i] == old_r[i] && r@[j] == old_r[j]);
                } else if j == p {
                    assert(r@[i] == old_r[i]);
                } else if i > p {
                    assert(r@[i] == old_r[i - 1] && r@[j] == old_r[j - 1]);
                } else if i == p {
                    // keys[n] < kv[old_r[p]] <= kv[old_r[j-1]]
                    assert(r@[j] == old_r[j - 1]);
                    assert(seq_lt(kv[n as int], kv[old_r[p as int] as int]));
                    if seq_lt(kv[old_r[j - 1] as int], kv[n as int]) {
                        lemma_lt_transitive(kv[old_r[j - 1] as int], kv[n as int], kv[old_r[p as int] as int]);
                        if j - 1 > p {
                            assert(!seq_lt(kv[old_r[j - 1] as int], kv[old_r[p as int] as int]));
                        } else {
                            lemma_lt_irreflexive(kv[old_r[p as int] as int]);
                        }
                    }
                } else {
                    // i < p < j
                    assert(r@[i] == old_r[i] && r@[j] == old_r[j - 1]);
                    if seq_lt(kv[old_r[j - 1] as int], kv[old_r[i] as int]) {
                        // kv[old_r[i]] <= kv[n] < kv[old_r[p]] <= kv[old_r[j-1]]
                        assert(!seq_lt(kv[n as int], kv[old_r[i] as int]));
                        assert(seq_lt(kv[n as int], kv[old_r[p as int] as int]));
                        if seq_lt(kv[old_r[i] as int], kv[n as int]) {
                            lemma_lt_transitive(kv[old_r[i] as int], kv[n as int], kv[old_r[p as int] as int]);
                        } else {
                            if kv[old_r[i] as int] != kv[n as int] {
                                lemma_lt_total(kv[old_r[i] as int], kv[n as int]);
                            }
                        }
                        lemma_lt_transitive(kv[old_r[j - 1] as int], kv[old_r[i] as int], kv[old_r[p as int] as int]);
                        if j - 1 > p {
                            assert(!seq_lt(kv[old_r[j - 1] as int], kv[old_r[p as int] as int]));
                        } else {
                            lemma_lt_irreflexive(kv[old_r[p as int] as int]);
                        }
                    }
                }
            }
        }
        n += 1;
    }
    r
}

} // verus!
