//! Name-to-value argument mappings for template formatting.
//!
//! A [`PromptArgs`] value holds `(name, value)` string pairs with ordinary
//! mapping-insert semantics: names are unique and the last write to a name
//! wins. Its view is the sequence of entries, each entry a pair of character
//! sequences.

use crate::text::str_eq;
use vstd::prelude::*;

verus! {

/// Index of the first entry of `entries` whose name is `key`, if any.
pub open spec fn key_index(entries: Seq<(Seq<char>, Seq<char>)>, key: Seq<char>) -> Option<int>
    decreases entries.len(),
{
    if entries.len() == 0 {
        None
    } else if entries[0].0 == key {
        Some(0)
    } else {
        match key_index(entries.drop_first(), key) {
            Some(j) => Some(j + 1),
            None => None,
        }
    }
}

/// Some entry of `entries` is named `key`.
pub open spec fn has_key(entries: Seq<(Seq<char>, Seq<char>)>, key: Seq<char>) -> bool {
    exists|j: int| 0 <= j < entries.len() && entries[j].0 == key
}

/// The value stored under `key`, if any.
pub open spec fn spec_get(entries: Seq<(Seq<char>, Seq<char>)>, key: Seq<char>) -> Option<
    Seq<char>,
> {
    match key_index(entries, key) {
        Some(j) => Some(entries[j].1),
        None => None,
    }
}

/// `key_index` finds the first entry named `key` exactly when one exists.
pub proof fn lemma_key_index(entries: Seq<(Seq<char>, Seq<char>)>, key: Seq<char>)
    ensures
        match key_index(entries, key) {
            Some(j) => 0 <= j < entries.len() && entries[j].0 == key && (forall|k: int|
                0 <= k < j ==> entries[k].0 != key),
            None => forall|k: int| 0 <= k < entries.len() ==> entries[k].0 != key,
        },
        key_index(entries, key) is Some <==> has_key(entries, key),
    decreases entries.len(),
{
    if entries.len() == 0 {
    } else if entries[0].0 == key {
    } else {
        lemma_key_index(entries.drop_first(), key);
        assert(forall|k: int|
            1 <= k < entries.len() ==> entries[k] == entries.drop_first()[k - 1]);
    }
}

/// A mapping from variable names to the values substituted for them.
pub struct PromptArgs {
    entries: Vec<(String, String)>,
}

impl View for PromptArgs {
    type V = Seq<(Seq<char>, Seq<char>)>;

    closed spec fn view(&self) -> Seq<(Seq<char>, Seq<char>)> {
        self.entries@.map_values(|p: (String, String)| (p.0@, p.1@))
    }
}

impl PromptArgs {
    /// An empty mapping.
    pub fn new() -> (r: PromptArgs)
        ensures
            r@ == Seq::<(Seq<char>, Seq<char>)>::empty(),
    {
        let r = PromptArgs { entries: Vec::new() };
        proof {
            assert(r@ =~= Seq::<(Seq<char>, Seq<char>)>::empty());
        }
        r
    }

    /// Index of the entry named `key`, if any.
    fn position_of(&self, key: &str) -> (r: Option<usize>)
        ensures
            match r {
                Some(i) => key_index(self@, key@) == Some(i as int),
                None => key_index(self@, key@) is None,
            },
    {
        let n: usize = self.entries.len();
        let mut i: usize = 0;
        while i < n
            invariant
                i <= n,
                n == self.entries.len(),
                forall|k: int| 0 <= k < i ==> self@[k].0 != key@,
            decreases n - i,
        {
            if str_eq(self.entries[i].0.as_str(), key) {
                proof {
                    assert(self@[i as int].0 == key@);
                    lemma_key_index(self@, key@);
                }
                return Some(i);
            }
            proof {
                assert(self@[i as int].0 != key@);
            }
            i = i + 1;
        }
        proof {
            lemma_key_index(self@, key@);
        }
        None
    }

    /// Store `value` under `key`. A later write to the same name replaces the
    /// earlier value; a fresh name is appended.
    pub fn insert(&mut self, key: String, value: String)
        ensures
            final(self)@ == match key_index(old(self)@, key@) {
                Some(j) => old(self)@.update(j, (key@, value@)),
                None => old(self)@.push((key@, value@)),
            },
    {
        let pos = self.position_of(key.as_str());
        proof {
            lemma_key_index(self@, key@);
        }
        match pos {
            Some(i) => {
                self.entries.remove(i);
                self.entries.insert(i, (key, value));
                proof {
                    let j = key_index(old(self)@, key@)->Some_0;
                    assert(self@ =~= old(self)@.update(j, (key@, value@)));
                }
            },
            None => {
                self.entries.push((key, value));
                proof {
                    assert(self@ =~= old(self)@.push((key@, value@)));
                }
            },
        }
    }

    /// The value stored under `key`, if any.
    pub fn get(&self, key: &str) -> (r: Option<&String>)
        ensures
            match r {
                Some(v) => spec_get(self@, key@) == Some(v@),
                None => spec_get(self@, key@) is None,
            },
    {
        proof {
            lemma_key_index(self@, key@);
        }
        match self.position_of(key) {
            Some(i) => Some(&self.entries[i].1),
            None => None,
        }
    }

    /// Is some value stored under `key`?
    pub fn contains_key(&self, key: &str) -> (r: bool)
        ensures
            r == has_key(self@, key@),
    {
        proof {
            lemma_key_index(self@, key@);
        }
        match self.position_of(key) {
            Some(_) => true,
            None => false,
        }
    }

    /// How many entries the mapping holds.
    pub fn len(&self) -> (r: usize)
        ensures
            r == self@.len(),
    {
        self.entries.len()
    }

    /// Does the mapping hold no entry at all?
    pub fn is_empty(&self) -> (r: bool)
        ensures
            r == (self@.len() == 0),
    {
        self.entries.len() == 0
    }

    /// The entry at position `i`, as a `(name, value)` pair.
    pub fn entry(&self, i: usize) -> (r: &(String, String))
        requires
            i < self@.len(),
        ensures
            (r.0@, r.1@) == self@[i as int],
    {
        &self.entries[i]
    }
}

} // verus!
