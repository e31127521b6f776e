//! A map keyed by strings that keeps its entries in insertion order.

use vstd::prelude::*;

verus! {

/// Entries keyed by strings; no key occurs twice.
pub struct StringMap<V> {
    entries: Vec<(String, V)>,
}

impl<V> StringMap<V> {
    #[verifier::type_invariant]
    spec fn keys_unique(self) -> bool {
        forall|i: int, j: int|
            0 <= i < j < self.entries@.len() ==> self.entries@[i].0@ != self.entries@[j].0@
    }

    /// The entries, in the order in which their keys were first inserted.
    pub closed spec fn entries(self) -> Seq<(String, V)> {
        self.entries@
    }

    pub open spec fn contains_key(self, key: Seq<char>) -> bool {
        exists|i: int| 0 <= i < self.entries().len() && (#[trigger] self.entries()[i]).0@ == key
    }

    /// The position of the entry with the given key.
    pub open spec fn index_of(self, key: Seq<char>) -> int {
        choose|i: int| 0 <= i < self.entries().len() && (#[trigger] self.entries()[i]).0@ == key
    }

    /// The value stored under the given key.
    pub open spec fn value_of(self, key: Seq<char>) -> V {
        self.entries()[self.index_of(key)].1
    }

    /// The entries after `value` is stored under `key`: the entry with that key
    /// is replaced in place, or a new entry is appended.
    pub open spec fn entries_after_insert(self, key: String, value: V) -> Seq<(String, V)> {
        if self.contains_key(key@) {
            self.entries().update(self.index_of(key@), (key, value))
        } else {
            self.entries().push((key, value))
        }
    }

    proof fn lemma_unique(&self)
        requires
            self.keys_unique(),
        ensures
            forall|i: int, j: int|
                0 <= i < self.entries().len() && 0 <= j < self.entries().len() && i != j
                    ==> (#[trigger] self.entries()[i]).0@ != (#[trigger] self.entries()[j]).0@,
    {
        assert forall|i: int, j: int|
            0 <= i < self.entries().len() && 0 <= j < self.entries().len() && i != j
            implies (#[trigger] self.entries()[i]).0@ != (#[trigger] self.entries()[j]).0@ by {
            if i > j {
                assert(self.entries@[j].0@ != self.entries@[i].0@);
            }
        }
    }

    /// An empty map.
    pub fn new() -> (r: Self)
        ensures
            r.entries() == Seq::<(String, V)>::empty(),
    {
        StringMap { entries: Vec::new() }
    }

    /// The number of entries.
    pub fn len(&self) -> (n: usize)
        ensures
            n == self.entries().len(),
    {
        self.entries.len()
    }

    fn position(&self, key: &String) -> (r: Option<usize>)
        ensures
            match r {
                Some(i) => i < self.entries().len() && self.entries()[i as int].0@ == key@,
                None => !self.contains_key(key@),
            },
    {
        let mut i: usize = 0;
        while i < self.entries.len()
            invariant
                i <= self.entries@.len(),
                forall|j: int| 0 <= j < i ==> self.entries@[j].0@ != key@,
            decreases self.entries.len() - i,
        {
            if self.entries[i].0 == *key {
                return Some(i);
            }
            i = i + 1;
        }
        None
    }

    /// The value stored under `key`, if there is one.
    pub fn get(&self, key: &String) -> (r: Option<&V>)
        ensures
            match r {
                Some(v) => self.contains_key(key@) && *v == self.value_of(key@),
                None => !self.contains_key(key@),
            },
    {
        proof {
            use_type_invariant(self);
            self.lemma_unique();
        }
        match self.position(key) {
            Some(i) => Some(&self.entries[i].1),
            None => None,
        }
    }

    /// Stores `value` under `key`: replaces the entry with that key in place, or
    /// appends a new entry.
    pub fn insert(&mut self, key: String, value: V)
        ensures
            final(self).entries() == old(self).entries_after_insert(key, value),
    {
        proof {
            use_type_invariant(&*self);
            self.lemma_unique();
        }
        let position = self.position(&key);
        let mut entries: Vec<(String, V)> = Vec::new();
        std::mem::swap(&mut entries, &mut self.entries);
        match position {
            Some(i) => {
                entries.set(i, (key, value));
            },
            None => {
                entries.push((key, value));
            },
        }
        self.entries = entries;
    }

    /// Removes the entry with key `key`, and hands out its value.
    pub fn remove(&mut self, key: &String) -> (r: Option<V>)
        ensures
            match r {
                Some(v) => {
                    &&& old(self).contains_key(key@)
                    &&& v == old(self).value_of(key@)
                    &&& final(self).entries() == old(self).entries().remove(
                        old(self).index_of(key@),
                    )
                },
                None => !old(self).contains_key(key@) && final(self).entries() == old(
                    self,
                ).entries(),
            },
            !final(self).contains_key(key@),
            forall|k: Seq<char>| #[trigger] final(self).contains_key(k) ==> old(self).contains_key(k),
    {
        proof {
            use_type_invariant(&*self);
            self.lemma_unique();
        }
        let ghost before = *self;
        match self.position(key) {
            Some(i) => {
                let mut entries: Vec<(String, V)> = Vec::new();
                std::mem::swap(&mut entries, &mut self.entries);
                let (_, v) = entries.remove(i);
                self.entries = entries;
                proof {
                    assert forall|k: Seq<char>| #[trigger] self.contains_key(k) implies before.contains_key(k)
                        && k != key@ by {
                        let j = choose|j: int|
                            0 <= j < self.entries().len() && (#[trigger] self.entries()[j]).0@ == k;
                        let jj = if j < i { j } else { j + 1 };
                        assert(before.entries()[jj] == self.entries()[j]);
                    }
                }
                Some(v)
            },
            None => None,
        }
    }

    /// The entries, in the order in which their keys were first inserted.
    pub fn into_entries(self) -> (r: Vec<(String, V)>)
        ensures
            r@ == self.entries(),
    {
        self.entries
    }
}

} // verus!
