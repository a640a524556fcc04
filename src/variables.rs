//! The shell's variable store: scalars, indexed arrays and the set of
//! exported names.

use vstd::prelude::*;
use vstd::string::*;
use crate::error::RushError;
use crate::names::{is_valid_variable_name, valid_name};
use crate::order::{is_permutation, lemma_lt_total, lemma_permutation_covers, seq_lt, sort_indices, sorted_by};
use crate::store::{
    distinct_keys, index_of_name, keys_of, lemma_pairs_map_absent, lemma_pairs_map_domain,
    lemma_pairs_map_index, lemma_pairs_map_push, lemma_pairs_map_remove, lemma_pairs_map_update,
    pairs_map, position_of,
};
use crate::text::{chars_of, push_str};

verus! {

pub open spec fn scalar_entries(v: Seq<(String, String)>) -> Seq<(Seq<char>, Seq<char>)> {
    v.map_values(|p: (String, String)| (p.0@, p.1@))
}

pub open spec fn strings_view(v: Seq<String>) -> Seq<Seq<char>> {
    v.map_values(|s: String| s@)
}

pub open spec fn array_entries(v: Seq<(String, Vec<String>)>) -> Seq<(Seq<char>, Seq<Seq<char>>)> {
    v.map_values(|p: (String, Vec<String>)| (p.0@, strings_view(p.1@)))
}

pub open spec fn name_entries(v: Seq<String>) -> Seq<(Seq<char>, ())> {
    v.map_values(|s: String| (s@, ()))
}

/// A listing of `m` sorted by name: each entry is in `m`, each name of `m`
/// is listed, and names strictly increase.
pub open spec fn is_sorted_listing(r: Seq<(String, String)>, m: Map<Seq<char>, Seq<char>>) -> bool {
    &&& forall|i: int| 0 <= i < r.len() ==> #[trigger] m.contains_key(r[i].0@) && m[r[i].0@] == r[i].1@
    &&& forall|k: Seq<char>| #[trigger] m.contains_key(k) ==> exists|i: int| 0 <= i < r.len() && r[i].0@ == k
    &&& forall|i: int, j: int| 0 <= i < j < r.len() ==> seq_lt(#[trigger] r[i].0@, #[trigger] r[j].0@)
}

/// Manages shell variables: scalars, indexed arrays, and which names are
/// exported to child processes.
#[derive(Debug, Clone)]
pub struct VariableManager {
    variables: Vec<(String, String)>,
    arrays: Vec<(String, Vec<String>)>,
    exported: Vec<String>,
}

impl VariableManager {
    /// Scalar variables, by name.
    pub closed spec fn scalars(&self) -> Map<Seq<char>, Seq<char>> {
        pairs_map(scalar_entries(self.variables@))
    }

    /// Array variables, by name.
    pub closed spec fn arrays(&self) -> Map<Seq<char>, Seq<Seq<char>>> {
        pairs_map(array_entries(self.arrays@))
    }

    /// Names marked for export.
    pub closed spec fn exported_names(&self) -> Set<Seq<char>> {
        pairs_map(name_entries(self.exported@)).dom()
    }

    /// Names are unique and valid; every exported name is set.
    pub closed spec fn wf(&self) -> bool {
        &&& distinct_keys(scalar_entries(self.variables@))
        &&& distinct_keys(array_entries(self.arrays@))
        &&& distinct_keys(name_entries(self.exported@))
        &&& forall|k: Seq<char>| #[trigger] self.scalars().contains_key(k) ==> valid_name(k)
        &&& forall|k: Seq<char>| #[trigger] self.arrays().contains_key(k) ==> valid_name(k)
        &&& forall|k: Seq<char>| #[trigger] self.exported_names().contains(k) ==> self.scalars().contains_key(k)
            || self.arrays().contains_key(k)
        &&& forall|k: Seq<char>| #[trigger] self.scalars().contains_key(k) ==> !self.arrays().contains_key(k)
    }

    /// Removes the array named `name`, if any, leaving everything else.
    fn drop_array(&mut self, name: &str)
        requires
            distinct_keys(array_entries(old(self).arrays@)),
        ensures
            distinct_keys(array_entries(final(self).arrays@)),
            final(self).arrays() == old(self).arrays().remove(name@),
            final(self).variables@ == old(self).variables@,
            final(self).exported@ == old(self).exported@,
    {
        let ghost ae = array_entries(self.arrays@);
        match position_of(&self.arrays, name) {
            Some(i) => {
                proof {
                    lemma_pairs_map_index(ae, i as int);
                }
                self.arrays.remove(i);
                proof {
                    assert(array_entries(self.arrays@) =~= ae.remove(i as int));
                    lemma_pairs_map_remove(ae, i as int);
                }
            },
            None => {
                proof {
                    lemma_pairs_map_absent(ae, name@);
                    assert(pairs_map(ae).remove(name@) =~= pairs_map(ae));
                }
            },
        }
    }

    /// Removes the scalar named `name`, if any, leaving everything else.
    fn drop_scalar(&mut self, name: &str)
        requires
            distinct_keys(scalar_entries(old(self).variables@)),
        ensures
            distinct_keys(scalar_entries(final(self).variables@)),
            final(self).scalars() == old(self).scalars().remove(name@),
            final(self).arrays@ == old(self).arrays@,
            final(self).exported@ == old(self).exported@,
    {
        let ghost se = scalar_entries(self.variables@);
        match position_of(&self.variables, name) {
            Some(i) => {
                proof {
                    lemma_pairs_map_index(se, i as int);
                }
                self.variables.remove(i);
                proof {
                    assert(scalar_entries(self.variables@) =~= se.remove(i as int));
                    lemma_pairs_map_remove(se, i as int);
                }
            },
            None => {
                proof {
                    lemma_pairs_map_absent(se, name@);
                    assert(pairs_map(se).remove(name@) =~= pairs_map(se));
                }
            },
        }
    }

    /// An empty store.
    pub fn new() -> (r: Self)
        ensures
            r.wf(),
            r.scalars() == Map::<Seq<char>, Seq<char>>::empty(),
            r.arrays() == Map::<Seq<char>, Seq<Seq<char>>>::empty(),
            r.exported_names() == Set::<Seq<char>>::empty(),
    {
        let r = VariableManager { variables: Vec::new(), arrays: Vec::new(), exported: Vec::new() };
        proof {
            assert(scalar_entries(r.variables@) =~= Seq::empty());
            assert(array_entries(r.arrays@) =~= Seq::empty());
            assert(name_entries(r.exported@) =~= Seq::empty());
            assert(r.exported_names() =~= Set::empty());
        }
        r
    }

    proof fn lemma_exported_index(&self, i: int)
        requires
            self.wf(),
            0 <= i < self.exported@.len(),
        ensures
            self.exported_names().contains(self.exported@[i]@),
    {
        lemma_pairs_map_index(name_entries(self.exported@), i);
    }

    /// Sets scalar `name` to `value`, replacing any earlier value; a name
    /// holds one kind of value, so an array of that name goes.
    pub fn set(&mut self, name: String, value: String) -> (r: Result<(), RushError>)
        requires
            old(self).wf(),
        ensures
            final(self).wf(),
            valid_name(name@) ==> r is Ok && final(self).scalars() == old(self).scalars().insert(name@, value@)
                && final(self).arrays() == old(self).arrays().remove(name@) && final(self).exported_names()
                == old(self).exported_names(),
            !valid_name(name@) ==> (r matches Err(RushError::InvalidName(_))) && *final(self) == *old(self),
    {
        if !is_valid_variable_name(name.as_str()) {
            let mut msg = String::from_str("set: ");
            push_str(&mut msg, name.as_str());
            push_str(&mut msg, ": invalid identifier");
            return Err(RushError::InvalidName(msg));
        }
        let key = name.clone();
        self.drop_array(key.as_str());
        let ghost e = scalar_entries(self.variables@);
        let ghost k = name@;
        let ghost v = value@;
        match position_of(&self.variables, name.as_str()) {
            Some(i) => {
                self.variables.set(i, (name, value));
                proof {
                    assert(scalar_entries(self.variables@) =~= e.update(i as int, (e[i as int].0, v)));
                    lemma_pairs_map_update(e, i as int, v);
                }
            },
            None => {
                self.variables.push((name, value));
                proof {
                    assert(scalar_entries(self.variables@) =~= e.push((k, v)));
                    lemma_pairs_map_push(e, k, v);
                }
            },
        }
        proof {
            assert(self.exported_names() == old(self).exported_names());
            assert forall|q: Seq<char>| #[trigger] self.scalars().contains_key(q) implies valid_name(q) by {
                if q != k {
                    assert(old(self).scalars().contains_key(q));
                }
            }
            assert forall|q: Seq<char>| #[trigger] self.arrays().contains_key(q) implies valid_name(q) by {
                assert(old(self).arrays().contains_key(q));
            }
            assert forall|q: Seq<char>| #[trigger] self.exported_names().contains(q) implies self.scalars().contains_key(q)
                || self.arrays().contains_key(q) by {
                assert(old(self).exported_names().contains(q));
            }
            assert forall|q: Seq<char>| #[trigger] self.scalars().contains_key(q) implies !self.arrays().contains_key(q) by {
                if q != k {
                    assert(old(self).scalars().contains_key(q));
                }
            }
        }
        Ok(())
    }

    /// The value of scalar `name`, if set.
    pub fn get(&self, name: &str) -> (r: Option<&str>)
        requires
            self.wf(),
        ensures
            r.is_some() == self.scalars().contains_key(name@),
            r matches Some(v) ==> v@ == self.scalars()[name@],
    {
        match position_of(&self.variables, name) {
            Some(i) => {
                proof {
                    lemma_pairs_map_index(scalar_entries(self.variables@), i as int);
                }
                Some(self.variables[i].1.as_str())
            },
            None => {
                proof {
                    lemma_pairs_map_absent(scalar_entries(self.variables@), name@);
                }
                None
            },
        }
    }

    /// Removes `name` as a scalar, as an array and from the exported set.
    /// Returns whether it was set.
    pub fn remove(&mut self, name: &str) -> (r: bool)
        requires
            old(self).wf(),
        ensures
            final(self).wf(),
            r == (old(self).scalars().contains_key(name@) || old(self).arrays().contains_key(name@)),
            final(self).scalars() == old(self).scalars().remove(name@),
            final(self).arrays() == old(self).arrays().remove(name@),
            final(self).exported_names() == old(self).exported_names().remove(name@),
    {
        let ghost ne = name_entries(self.exported@);
        match index_of_name(&self.exported, name) {
            Some(i) => {
                self.exported.remove(i);
                proof {
                    assert(name_entries(self.exported@) =~= ne.remove(i as int));
                    lemma_pairs_map_remove(ne, i as int);
                    assert(pairs_map(name_entries(self.exported@)).dom() =~= pairs_map(ne).dom().remove(name@));
                }
            },
            None => {
                proof {
                    lemma_pairs_map_absent(ne, name@);
                    assert(pairs_map(ne).dom().remove(name@) =~= pairs_map(ne).dom());
                }
            },
        }
        let ghost ae = array_entries(self.arrays@);
        let had_array = match position_of(&self.arrays, name) {
            Some(i) => {
                proof {
                    lemma_pairs_map_index(ae, i as int);
                }
                self.arrays.remove(i);
                proof {
                    assert(array_entries(self.arrays@) =~= ae.remove(i as int));
                    lemma_pairs_map_remove(ae, i as int);
                }
                true
            },
            None => {
                proof {
                    lemma_pairs_map_absent(ae, name@);
                    assert(pairs_map(ae).remove(name@) =~= pairs_map(ae));
                }
                false
            },
        };
        let ghost se = scalar_entries(self.variables@);
        let had_scalar = match position_of(&self.variables, name) {
            Some(i) => {
                proof {
                    lemma_pairs_map_index(se, i as int);
                }
                self.variables.remove(i);
                proof {
                    assert(scalar_entries(self.variables@) =~= se.remove(i as int));
                    lemma_pairs_map_remove(se, i as int);
                }
                true
            },
            None => {
                proof {
                    lemma_pairs_map_absent(se, name@);
                    assert(pairs_map(se).remove(name@) =~= pairs_map(se));
                }
                false
            },
        };
        proof {
            assert forall|q: Seq<char>| #[trigger] self.scalars().contains_key(q) implies valid_name(q) by {
                assert(old(self).scalars().contains_key(q));
            }
            assert forall|q: Seq<char>| #[trigger] self.arrays().contains_key(q) implies valid_name(q) by {
                assert(old(self).arrays().contains_key(q));
            }
            assert forall|q: Seq<char>| #[trigger] self.exported_names().contains(q) implies self.scalars().contains_key(q)
                || self.arrays().contains_key(q) by {
                assert(old(self).exported_names().contains(q));
            }
            assert forall|q: Seq<char>| #[trigger] self.scalars().contains_key(q) implies !self.arrays().contains_key(q) by {
                assert(old(self).scalars().contains_key(q));
            }
        }
        had_scalar || had_array
    }

    /// Marks scalar `name` for export. Fails when it is not set.
    pub fn export(&mut self, name: &str) -> (r: Result<(), RushError>)
        requires
            old(self).wf(),
        ensures
            final(self).wf(),
            r is Ok == old(self).scalars().contains_key(name@),
            r is Ok ==> final(self).exported_names() == old(self).exported_names().insert(name@)
                && final(self).scalars() == old(self).scalars() && final(self).arrays() == old(
                self,
            ).arrays(),
            r is Err ==> (r matches Err(RushError::NotSet(_))) && *final(self) == *old(self),
    {
        if self.get(name).is_none() {
            let mut msg = String::from_str("export: ");
            push_str(&mut msg, name);
            push_str(&mut msg, ": not set");
            return Err(RushError::NotSet(msg));
        }
        let ghost ne = name_entries(self.exported@);
        match index_of_name(&self.exported, name) {
            Some(i) => {
                proof {
                    lemma_pairs_map_index(ne, i as int);
                    assert(pairs_map(ne).dom().insert(name@) =~= pairs_map(ne).dom());
                }
            },
            None => {
                self.exported.push(String::from_str(name));
                proof {
                    assert(name_entries(self.exported@) =~= ne.push((name@, ())));
                    lemma_pairs_map_push(ne, name@, ());
                    assert(pairs_map(name_entries(self.exported@)).dom() =~= pairs_map(ne).dom().insert(name@));
                }
            },
        }
        proof {
            assert(self.arrays() == old(self).arrays());
            assert(self.scalars() == old(self).scalars());
            assert forall|q: Seq<char>| #[trigger] self.exported_names().contains(q) implies self.scalars().contains_key(q)
                || self.arrays().contains_key(q) by {
                if q != name@ {
                    assert(old(self).exported_names().contains(q));
                }
            }
        }
        Ok(())
    }

    /// Sets scalar `name` to `value` and marks it for export, as
    /// `export NAME=value` does.
    pub fn export_var(&mut self, name: String, value: String) -> (r: Result<(), RushError>)
        requires
            old(self).wf(),
        ensures
            final(self).wf(),
            valid_name(name@) ==> r is Ok && final(self).scalars() == old(self).scalars().insert(name@, value@)
                && final(self).exported_names() == old(self).exported_names().insert(name@)
                && final(self).arrays() == old(self).arrays().remove(name@),
            !valid_name(name@) ==> (r matches Err(RushError::InvalidName(_))) && *final(self) == *old(self),
    {
        let n = name.clone();
        match self.set(name, value) {
            Ok(()) => self.export(n.as_str()),
            Err(e) => Err(e),
        }
    }

    /// Whether `name` is marked for export.
    pub fn is_exported(&self, name: &str) -> (r: bool)
        requires
            self.wf(),
        ensures
            r == self.exported_names().contains(name@),
    {
        match index_of_name(&self.exported, name) {
            Some(i) => {
                proof {
                    self.lemma_exported_index(i as int);
                }
                true
            },
            None => {
                proof {
                    lemma_pairs_map_absent(name_entries(self.exported@), name@);
                }
                false
            },
        }
    }

    /// Sets array `name` to `items`, replacing any earlier array; a name
    /// holds one kind of value, so a scalar of that name goes.
    pub fn set_array(&mut self, name: String, items: Vec<String>) -> (r: Result<(), RushError>)
        requires
            old(self).wf(),
        ensures
            final(self).wf(),
            valid_name(name@) ==> r is Ok && final(self).arrays() == old(self).arrays().insert(
                name@,
                strings_view(items@),
            ) && final(self).scalars() == old(self).scalars().remove(name@) && final(self).exported_names()
                == old(self).exported_names(),
            !valid_name(name@) ==> (r matches Err(RushError::InvalidName(_))) && *final(self) == *old(self),
    {
        if !is_valid_variable_name(name.as_str()) {
            let mut msg = String::from_str("set: ");
            push_str(&mut msg, name.as_str());
            push_str(&mut msg, ": invalid identifier");
            return Err(RushError::InvalidName(msg));
        }
        let key = name.clone();
        self.drop_scalar(key.as_str());
        let ghost e = array_entries(self.arrays@);
        let ghost k = name@;
        let ghost v = strings_view(items@);
        match position_of(&self.arrays, name.as_str()) {
            Some(i) => {
                self.arrays.set(i, (name, items));
                proof {
                    assert(array_entries(self.arrays@) =~= e.update(i as int, (e[i as int].0, v)));
                    lemma_pairs_map_update(e, i as int, v);
                }
            },
            None => {
                self.arrays.push((name, items));
                proof {
                    assert(array_entries(self.arrays@) =~= e.push((k, v)));
                    lemma_pairs_map_push(e, k, v);
                }
            },
        }
        proof {
            assert(self.exported_names() == old(self).exported_names());
            assert forall|q: Seq<char>| #[trigger] self.arrays().contains_key(q) implies valid_name(q) by {
                if q != k {
                    assert(old(self).arrays().contains_key(q));
                }
            }
            assert forall|q: Seq<char>| #[trigger] self.scalars().contains_key(q) implies valid_name(q) by {
                assert(old(self).scalars().contains_key(q));
            }
            assert forall|q: Seq<char>| #[trigger] self.exported_names().contains(q) implies self.scalars().contains_key(q)
                || self.arrays().contains_key(q) by {
                assert(old(self).exported_names().contains(q));
                if q != k {
                    if old(self).arrays().contains_key(q) {
                        assert(self.arrays().contains_key(q));
                    }
                }
            }
            assert forall|q: Seq<char>| #[trigger] self.scalars().contains_key(q) implies !self.arrays().contains_key(q) by {
                assert(old(self).scalars().contains_key(q));
            }
        }
        Ok(())
    }

    /// The elements of array `name`, if set.
    pub fn get_array(&self, name: &str) -> (r: Option<&Vec<String>>)
        requires
            self.wf(),
        ensures
            r.is_some() == self.arrays().contains_key(name@),
            r matches Some(v) ==> strings_view(v@) == self.arrays()[name@],
    {
        match position_of(&self.arrays, name) {
            Some(i) => {
                proof {
                    lemma_pairs_map_index(array_entries(self.arrays@), i as int);
                }
                Some(&self.arrays[i].1)
            },
            None => {
                proof {
                    lemma_pairs_map_absent(array_entries(self.arrays@), name@);
                }
                None
            },
        }
    }

    /// Element `i` of array `name`; `None` when the array is not set or is
    /// shorter.
    pub fn array_get(&self, name: &str, i: usize) -> (r: Option<&str>)
        requires
            self.wf(),
        ensures
            r.is_some() == (self.arrays().contains_key(name@) && i < self.arrays()[name@].len()),
            r matches Some(v) ==> v@ == self.arrays()[name@][i as int],
    {
        match self.get_array(name) {
            Some(a) => {
                if i < a.len() {
                    Some(a[i].as_str())
                } else {
                    None
                }
            },
            None => None,
        }
    }

    proof fn lemma_len(&self)
        requires
            self.wf(),
        ensures
            self.scalars().len() == self.variables@.len(),
            self.scalars().dom().finite(),
    {
        let e = scalar_entries(self.variables@);
        lemma_pairs_map_domain(e);
        let ks = keys_of(e);
        assert(ks.no_duplicates()) by {
            assert forall|a: int, b: int| 0 <= a < ks.len() && 0 <= b < ks.len() && a != b implies ks[a]
                != ks[b] by {
                if a < b {
                    assert(e[a].0 != e[b].0);
                } else {
                    assert(e[b].0 != e[a].0);
                }
            }
        }
        ks.unique_seq_to_set();
    }

    /// Number of scalar variables.
    pub fn len(&self) -> (r: usize)
        requires
            self.wf(),
        ensures
            r == self.scalars().len(),
            self.scalars().dom().finite(),
    {
        proof {
            self.lemma_len();
        }
        self.variables.len()
    }

    /// Whether no scalar variable is set.
    pub fn is_empty(&self) -> (r: bool)
        requires
            self.wf(),
        ensures
            r == (self.scalars().len() == 0),
            self.scalars().dom().finite(),
    {
        proof {
            self.lemma_len();
        }
        self.variables.len() == 0
    }

    /// Scalars whose name passes `keep`, sorted by name.
    fn sorted_scalars(&self, only_exported: bool) -> (r: Vec<(String, String)>)
        requires
            self.wf(),
        ensures
            is_sorted_listing(
                r@,
                if only_exported {
                    self.scalars().restrict(self.exported_names())
                } else {
                    self.scalars()
                },
            ),
    {
        let ghost e = scalar_entries(self.variables@);
        let ghost m = if only_exported {
            self.scalars().restrict(self.exported_names())
        } else {
            self.scalars()
        };
        let mut keys: Vec<Vec<char>> = Vec::new();
        let mut j: usize = 0;
        while j < self.variables.len()
            invariant
                0 <= j <= self.variables@.len(),
                keys@.len() == j,
                forall|t: int| 0 <= t < j ==> #[trigger] keys@[t]@ == self.variables@[t].0@,
            decreases self.variables@.len() - j,
        {
            keys.push(chars_of(self.variables[j].0.as_str()));
            j += 1;
        }
        let idx = sort_indices(&keys);
        let ghost kv = keys@.map_values(|k: Vec<char>| k@);
        let mut r: Vec<(String, String)> = Vec::new();
        let ghost mut taken: Seq<int> = Seq::empty();
        let mut t: usize = 0;
        while t < idx.len()
            invariant
                self.wf(),
                e == scalar_entries(self.variables@),
                m == (if only_exported {
                    self.scalars().restrict(self.exported_names())
                } else {
                    self.scalars()
                }),
                kv == keys@.map_values(|k: Vec<char>| k@),
                keys@.len() == self.variables@.len(),
                forall|q: int| 0 <= q < keys@.len() ==> #[trigger] keys@[q]@ == self.variables@[q].0@,
                is_permutation(idx@, keys@.len()),
                sorted_by(idx@, kv),
                0 <= t <= idx@.len(),
                taken.len() == r@.len(),
                forall|q: int| 0 <= q < taken.len() ==> 0 <= #[trigger] taken[q] < t,
                forall|q: int, w: int| 0 <= q < w < taken.len() ==> taken[q] < taken[w],
                forall|q: int| 0 <= q < taken.len() ==> r@[q] == self.variables@[idx@[#[trigger] taken[q]] as int],
                forall|s: int| 0 <= s < t && m.contains_key(#[trigger] self.variables@[idx@[s] as int].0@)
                    ==> exists|q: int| 0 <= q < taken.len() && taken[q] == s,
                forall|q: int| 0 <= q < r@.len() ==> m.contains_key(#[trigger] r@[q].0@),
            decreases idx@.len() - t,
        {
            let p = idx[t];
            let keep = if only_exported {
                self.is_exported(self.variables[p].0.as_str())
            } else {
                true
            };
            proof {
                lemma_pairs_map_index(e, p as int);
            }
            let ghost old_taken = taken;
            if keep {
                let entry = (self.variables[p].0.clone(), self.variables[p].1.clone());
                r.push(entry);
                proof {
                    taken = taken.push(t as int);
                    assert(taken[taken.len() - 1] == t);
                }
            }
            proof {
                assert forall|s: int| 0 <= s < t + 1 && m.contains_key(
                    #[trigger] self.variables@[idx@[s] as int].0@,
                ) implies exists|q: int| 0 <= q < taken.len() && taken[q] == s by {
                    if s == t {
                        if only_exported {
                            assert(self.exported_names().contains(self.variables@[p as int].0@));
                        }
                        assert(keep);
                        assert(taken[taken.len() - 1] == s);
                    } else {
                        let q = choose|q: int| 0 <= q < old_taken.len() && old_taken[q] == s;
                        assert(taken[q] == s);
                    }
                }
            }
            t += 1;
        }
        proof {
            assert forall|i: int| 0 <= i < r@.len() implies #[trigger] m.contains_key(r@[i].0@) && m[r@[i].0@]
                == r@[i].1@ by {
                let p = idx@[taken[i]] as int;
                lemma_pairs_map_index(e, p);
            }
            assert forall|k: Seq<char>| #[trigger] m.contains_key(k) implies exists|i: int|
                0 <= i < r@.len() && r@[i].0@ == k by {
                lemma_pairs_map_domain(e);
                assert(keys_of(e).contains(k));
                let jj = choose|jj: int| 0 <= jj < keys_of(e).len() && keys_of(e)[jj] == k;
                lemma_permutation_covers(idx@, keys@.len(), jj);
                let s = choose|s: int| 0 <= s < idx@.len() && idx@[s] == jj;
                assert(self.variables@[idx@[s] as int].0@ == k);
                let q = choose|q: int| 0 <= q < taken.len() && taken[q] == s;
                assert(r@[q].0@ == k);
            }
            assert forall|i: int, j: int| 0 <= i < j < r@.len() implies seq_lt(
                #[trigger] r@[i].0@,
                #[trigger] r@[j].0@,
            ) by {
                let a = idx@[taken[i]] as int;
                let b = idx@[taken[j]] as int;
                assert(!seq_lt(kv[b], kv[a]));
                assert(a != b);
                assert(e[a].0 != e[b].0);
                lemma_lt_total(kv[a], kv[b]);
            }
        }
        r
    }

    /// All scalars as `(name, value)`, sorted by name.
    pub fn list(&self) -> (r: Vec<(String, String)>)
        requires
            self.wf(),
        ensures
            is_sorted_listing(r@, self.scalars()),
    {
        self.sorted_scalars(false)
    }

    /// Exported scalars as `(name, value)`, sorted by name.
    pub fn list_exported(&self) -> (r: Vec<(String, String)>)
        requires
            self.wf(),
        ensures
            is_sorted_listing(r@, self.scalars().restrict(self.exported_names())),
    {
        self.sorted_scalars(true)
    }
}

} // verus!
