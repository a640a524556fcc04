//! Association lists keyed by names: their meaning as a `Map`, and a
//! lookup by name.

use vstd::prelude::*;
use crate::text::str_eq;

verus! {

/// The map that an association list stands for (later entries win).
pub open spec fn pairs_map<V>(e: Seq<(Seq<char>, V)>) -> Map<Seq<char>, V>
    decreases e.len(),
{
    if e.len() == 0 {
        Map::empty()
    } else {
        pairs_map(e.drop_last()).insert(e.last().0, e.last().1)
    }
}

/// No name occurs twice.
pub open spec fn distinct_keys<V>(e: Seq<(Seq<char>, V)>) -> bool {
    forall|i: int, j: int| 0 <= i < j < e.len() ==> #[trigger] e[i].0 != #[trigger] e[j].0
}

/// The names of an association list.
pub open spec fn keys_of<V>(e: Seq<(Seq<char>, V)>) -> Seq<Seq<char>> {
    e.map_values(|p: (Seq<char>, V)| p.0)
}

pub proof fn lemma_pairs_map_index<V>(e: Seq<(Seq<char>, V)>, i: int)
    requires
        distinct_keys(e),
        0 <= i < e.len(),
    ensures
        pairs_map(e).contains_key(e[i].0),
        pairs_map(e)[e[i].0] == e[i].1,
    decreases e.len(),
{
    if i < e.len() - 1 {
        let d = e.drop_last();
        assert(d[i] == e[i]);
        lemma_pairs_map_index(d, i);
        assert(e[i].0 != e[e.len() - 1].0);
    }
}

pub proof fn lemma_pairs_map_absent<V>(e: Seq<(Seq<char>, V)>, k: Seq<char>)
    requires
        forall|i: int| 0 <= i < e.len() ==> #[trigger] e[i].0 != k,
    ensures
        !pairs_map(e).contains_key(k),
    decreases e.len(),
{
    if e.len() > 0 {
        let d = e.drop_last();
        assert forall|i: int| 0 <= i < d.len() implies #[trigger] d[i].0 != k by {
            assert(d[i] == e[i]);
        }
        lemma_pairs_map_absent(d, k);
        assert(e.last().0 != k);
    }
}

/// The keys of the map are exactly the names listed.
pub proof fn lemma_pairs_map_domain<V>(e: Seq<(Seq<char>, V)>)
    ensures
        pairs_map(e).dom() == keys_of(e).to_set(),
    decreases e.len(),
{
    if e.len() > 0 {
        let d = e.drop_last();
        lemma_pairs_map_domain(d);
        assert(keys_of(e) =~= keys_of(d).push(e.last().0));
        vstd::seq_lib::lemma_seq_contains_after_push(keys_of(d), e.last().0, e.last().0);
        assert forall|k| #[trigger] keys_of(e).to_set().contains(k) == keys_of(d).to_set().insert(
            e.last().0,
        ).contains(k) by {
            vstd::seq_lib::lemma_seq_contains_after_push(keys_of(d), e.last().0, k);
        }
        assert(keys_of(e).to_set() =~= keys_of(d).to_set().insert(e.last().0));
    } else {
        assert(keys_of(e).to_set() =~= Set::empty());
    }
}

pub proof fn lemma_pairs_map_update<V>(e: Seq<(Seq<char>, V)>, i: int, v: V)
    requires
        distinct_keys(e),
        0 <= i < e.len(),
    ensures
        distinct_keys(e.update(i, (e[i].0, v))),
        pairs_map(e.update(i, (e[i].0, v))) == pairs_map(e).insert(e[i].0, v),
    decreases e.len(),
{
    let u = e.update(i, (e[i].0, v));
    assert forall|a: int, b: int| 0 <= a < b < u.len() implies #[trigger] u[a].0 != #[trigger] u[b].0 by {
        assert(u[a].0 == e[a].0 && u[b].0 == e[b].0);
    }
    if i == e.len() - 1 {
        assert(u.drop_last() =~= e.drop_last());
        assert(pairs_map(e.drop_last()).insert(e[i].0, v) =~= pairs_map(e).insert(e[i].0, v));
    } else {
        let d = e.drop_last();
        lemma_pairs_map_update(d, i, v);
        assert(u.drop_last() =~= d.update(i, (d[i].0, v)));
        assert(e[i].0 != e.last().0);
        assert(pairs_map(u) =~= pairs_map(e).insert(e[i].0, v));
    }
}

pub proof fn lemma_pairs_map_push<V>(e: Seq<(Seq<char>, V)>, k: Seq<char>, v: V)
    requires
        distinct_keys(e),
        forall|i: int| 0 <= i < e.len() ==> #[trigger] e[i].0 != k,
    ensures
        distinct_keys(e.push((k, v))),
        pairs_map(e.push((k, v))) == pairs_map(e).insert(k, v),
{
    assert(e.push((k, v)).drop_last() =~= e);
    let u = e.push((k, v));
    assert forall|a: int, b: int| 0 <= a < b < u.len() implies #[trigger] u[a].0 != #[trigger] u[b].0 by {
        if b == e.len() {
            assert(u[a] == e[a]);
        } else {
            assert(u[a] == e[a] && u[b] == e[b]);
        }
    }
}

pub proof fn lemma_pairs_map_remove<V>(e: Seq<(Seq<char>, V)>, i: int)
    requires
        distinct_keys(e),
        0 <= i < e.len(),
    ensures
        distinct_keys(e.remove(i)),
        pairs_map(e.remove(i)) == pairs_map(e).remove(e[i].0),
    decreases e.len(),
{
    let u = e.remove(i);
    assert forall|a: int, b: int| 0 <= a < b < u.len() implies #[trigger] u[a].0 != #[trigger] u[b].0 by {
        let a2 = if a < i { a } else { a + 1 };
        let b2 = if b < i { b } else { b + 1 };
        assert(u[a] == e[a2] && u[b] == e[b2]);
    }
    if i == e.len() - 1 {
        assert(u =~= e.drop_last());
        let d = e.drop_last();
        assert forall|j: int| 0 <= j < d.len() implies #[trigger] d[j].0 != e[i].0 by {
            assert(d[j] == e[j]);
        }
        lemma_pairs_map_absent(d, e[i].0);
        assert(pairs_map(d) =~= pairs_map(e).remove(e[i].0));
    } else {
        let d = e.drop_last();
        lemma_pairs_map_remove(d, i);
        assert(u.drop_last() =~= d.remove(i));
        assert(u.last() == e.last());
        assert(e[i].0 != e.last().0);
        assert(pairs_map(u) =~= pairs_map(e).remove(e[i].0));
    }
}

/// Position of the entry named `k`, if any.
pub fn position_of<T>(v: &Vec<(String, T)>, k: &str) -> (r: Option<usize>)
    ensures
        match r {
            Some(i) => i < v@.len() && v@[i as int].0@ == k@,
            None => forall|i: int| 0 <= i < v@.len() ==> #[trigger] v@[i].0@ != k@,
        },
{
    let mut i: usize = 0;
    while i < v.len()
        invariant
            0 <= i <= v@.len(),
            forall|j: int| 0 <= j < i ==> #[trigger] v@[j].0@ != k@,
        decreases v@.len() - i,
    {
        if str_eq(v[i].0.as_str(), k) {
            return Some(i);
        }
        i += 1;
    }
    None
}

/// Position of `k` in a list of names, if any.
pub fn index_of_name(v: &Vec<String>, k: &str) -> (r: Option<usize>)
    ensures
        match r {
            Some(i) => i < v@.len() && v@[i as int]@ == k@,
            None => forall|i: int| 0 <= i < v@.len() ==> #[trigger] v@[i]@ != k@,
        },
{
    let mut i: usize = 0;
    while i < v.len()
        invariant
            0 <= i <= v@.len(),
            forall|j: int| 0 <= j < i ==> #[trigger] v@[j]@ != k@,
        decreases v@.len() - i,
    {
        if str_eq(v[i].as_str(), k) {
            return Some(i);
        }
        i += 1;
    }
    None
}

} // verus!
