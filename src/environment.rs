//! The environment handed to child processes: a name-to-value map with
//! validated names for everything set from the shell.

use vstd::prelude::*;
use vstd::string::*;
use crate::error::RushError;
use crate::names::{is_valid_variable_name, valid_name};
use crate::store::{
    distinct_keys, keys_of, lemma_pairs_map_absent, lemma_pairs_map_domain, lemma_pairs_map_index,
    lemma_pairs_map_push, lemma_pairs_map_remove, lemma_pairs_map_update, pairs_map, position_of,
};
use crate::text::push_str;
use crate::variables::scalar_entries;

verus! {

/// Environment variables of a shell session.
pub struct EnvironmentManager {
    variables: Vec<(String, String)>,
}

impl EnvironmentManager {
    /// The variables, by name.
    pub closed spec fn vars(&self) -> Map<Seq<char>, Seq<char>> {
        pairs_map(scalar_entries(self.variables@))
    }

    pub closed spec fn wf(&self) -> bool {
        distinct_keys(scalar_entries(self.variables@))
    }

    /// An empty environment.
    pub fn new() -> (r: Self)
        ensures
            r.wf(),
            r.vars() == Map::<Seq<char>, Seq<char>>::empty(),
    {
        let r = EnvironmentManager { variables: Vec::new() };
        proof {
            assert(scalar_entries(r.variables@) =~= Seq::empty());
        }
        r
    }

    /// An environment holding `vars`, as a process inherits them; where a
    /// name repeats, the later pair wins.
    pub fn from_vars(vars: Vec<(String, String)>) -> (r: Self)
        ensures
            r.wf(),
            r.vars() == pairs_map(scalar_entries(vars@)),
    {
        let mut r = EnvironmentManager::new();
        let mut i: usize = 0;
        while i < vars.len()
            invariant
                0 <= i <= vars@.len(),
                r.wf(),
                r.vars() == pairs_map(scalar_entries(vars@.subrange(0, i as int))),
            decreases vars@.len() - i,
        {
            let (k, v) = (vars[i].0.clone(), vars[i].1.clone());
            r.insert(k, v);
            proof {
                let e = scalar_entries(vars@.subrange(0, i + 1));
                assert(e.drop_last() =~= scalar_entries(vars@.subrange(0, i as int)));
            }
            i += 1;
        }
        proof {
            assert(vars@.subrange(0, vars@.len() as int) =~= vars@);
        }
        r
    }

    fn insert(&mut self, name: String, value: String)
        requires
            old(self).wf(),
        ensures
            final(self).wf(),
            final(self).vars() == old(self).vars().insert(name@, value@),
    {
        let ghost e = scalar_entries(self.variables@);
        let ghost k = name@;
        let ghost v = value@;
        match position_of(&self.variables, name.as_str()) {
            Some(i) => {
                self.variables.set(i, (name, value));
                proof {
                    assert(scalar_entries(self.variables@) =~= e.update(i as int, (e[i as int].0, v)));
                    lemma_pairs_map_update(e, i as int, v);
                }
            },
            None => {
                self.variables.push((name, value));
                proof {
                    assert(scalar_entries(self.variables@) =~= e.push((k, v)));
                    lemma_pairs_map_push(e, k, v);
                }
            },
        }
    }

    /// The value of `name`, if defined.
    pub fn get(&self, name: &str) -> (r: Option<&str>)
        requires
            self.wf(),
        ensures
            r.is_some() == self.vars().contains_key(name@),
            r matches Some(v) ==> v@ == self.vars()[name@],
    {
        match position_of(&self.variables, name) {
            Some(i) => {
                proof {
                    lemma_pairs_map_index(scalar_entries(self.variables@), i as int);
                }
                Some(self.variables[i].1.as_str())
            },
            None => {
                proof {
                    lemma_pairs_map_absent(scalar_entries(self.variables@), name@);
                }
                None
            },
        }
    }

    /// Sets or replaces `name`. Fails, changing nothing, on an empty or
    /// otherwise invalid name.
    pub fn set(&mut self, name: String, value: String) -> (r: Result<(), RushError>)
        requires
            old(self).wf(),
        ensures
            final(self).wf(),
            valid_name(name@) ==> r is Ok && final(self).vars() == old(self).vars().insert(name@, value@),
            !valid_name(name@) ==> (r matches Err(RushError::InvalidName(_))) && *final(self) == *old(self),
    {
        if name.unicode_len() == 0 {
            return Err(RushError::InvalidName(String::from_str("Variable name cannot be empty")));
        }
        if !is_valid_variable_name(name.as_str()) {
            let mut msg = String::from_str("Invalid variable name '");
            push_str(&mut msg, name.as_str());
            push_str(
                &mut msg,
                "': must start with letter or underscore, contain only alphanumeric and underscore",
            );
            return Err(RushError::InvalidName(msg));
        }
        self.insert(name, value);
        Ok(())
    }

    /// Removes `name`, returning its old value.
    pub fn remove(&mut self, name: &str) -> (r: Option<String>)
        requires
            old(self).wf(),
        ensures
            final(self).wf(),
            final(self).vars() == old(self).vars().remove(name@),
            r.is_some() == old(self).vars().contains_key(name@),
            r matches Some(v) ==> v@ == old(self).vars()[name@],
    {
        let ghost e = scalar_entries(self.variables@);
        match position_of(&self.variables, name) {
            Some(i) => {
                proof {
                    lemma_pairs_map_index(e, i as int);
                }
                let (_, v) = self.variables.remove(i);
                proof {
                    assert(scalar_entries(self.variables@) =~= e.remove(i as int));
                    lemma_pairs_map_remove(e, i as int);
                }
                Some(v)
            },
            None => {
                proof {
                    lemma_pairs_map_absent(e, name@);
                    assert(pairs_map(e).remove(name@) =~= pairs_map(e));
                }
                None
            },
        }
    }

    /// Every `(name, value)` pair, each name once.
    pub fn iter(&self) -> (r: Vec<(String, String)>)
        requires
            self.wf(),
        ensures
            distinct_keys(scalar_entries(r@)),
            pairs_map(scalar_entries(r@)) == self.vars(),
    {
        let mut r: Vec<(String, String)> = Vec::new();
        let mut i: usize = 0;
        while i < self.variables.len()
            invariant
                0 <= i <= self.variables@.len(),
                r@.len() == i,
                forall|j: int| 0 <= j < i ==> #[trigger] r@[j].0@ == self.variables@[j].0@ && r@[j].1@
                    == self.variables@[j].1@,
            decreases self.variables@.len() - i,
        {
            let k = self.variables[i].0.clone();
            let v = self.variables[i].1.clone();
            r.push((k, v));
            i += 1;
        }
        proof {
            assert(scalar_entries(r@) =~= scalar_entries(self.variables@));
        }
        r
    }

    /// The pairs to hand to a child process's environment.
    pub fn as_env_map(&self) -> (r: Vec<(String, String)>)
        requires
            self.wf(),
        ensures
            distinct_keys(scalar_entries(r@)),
            pairs_map(scalar_entries(r@)) == self.vars(),
    {
        self.iter()
    }

    proof fn lemma_len(&self)
        requires
            self.wf(),
        ensures
            self.vars().len() == self.variables@.len(),
            self.vars().dom().finite(),
    {
        let e = scalar_entries(self.variables@);
        lemma_pairs_map_domain(e);
        let ks = keys_of(e);
        assert(ks.no_duplicates()) by {
            assert forall|a: int, b: int| 0 <= a < ks.len() && 0 <= b < ks.len() && a != b implies ks[a]
                != ks[b] by {
                if a < b {
                    assert(e[a].0 != e[b].0);
                } else {
                    assert(e[b].0 != e[a].0);
                }
            }
        }
        ks.unique_seq_to_set();
    }

    /// Number of variables.
    pub fn len(&self) -> (r: usize)
        requires
            self.wf(),
        ensures
            r == self.vars().len(),
            self.vars().dom().finite(),
    {
        proof {
            self.lemma_len();
        }
        self.variables.len()
    }

    /// Whether no variable is defined.
    pub fn is_empty(&self) -> (r: bool)
        requires
            self.wf(),
        ensures
            r == (self.vars().len() == 0),
            self.vars().dom().finite(),
    {
        proof {
            self.lemma_len();
        }
        self.variables.len() == 0
    }
}

} // verus!
