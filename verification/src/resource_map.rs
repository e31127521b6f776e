//! The resources of the management service, keyed by their kind and id.

use vstd::prelude::*;

verus! {

/// The kinds of resources, in the order in which their subscription channels are
/// served.
#[derive(Clone, Copy, Debug, PartialEq, Eq, Structural)]
pub enum ResourceKind {
    ClusterConfiguration,
    ClusterDeployment,
    OldPeerConfiguration,
    PeerConfiguration,
    PeerDescriptor,
    PeerState,
}

/// A resource's kind and id (the id's UUID as an integer).
#[derive(Clone, Copy, Debug, PartialEq, Eq, Structural)]
pub struct ResourceKey {
    pub kind: ResourceKind,
    pub id: u128,
}

/// Resources keyed by [`ResourceKey`], in the order in which their keys were first
/// inserted. No key occurs twice.
pub struct ResourceMap<V> {
    entries: Vec<(ResourceKey, V)>,
}

impl<V> ResourceMap<V> {
    #[verifier::type_invariant]
    spec fn keys_unique(self) -> bool {
        forall|i: int, j: int|
            0 <= i < j < self.entries@.len() ==> self.entries@[i].0 != self.entries@[j].0
    }

    spec fn has_key(self, key: ResourceKey) -> bool {
        exists|i: int| 0 <= i < self.entries@.len() && (#[trigger] self.entries@[i]).0 == key
    }

    spec fn index_of(self, key: ResourceKey) -> int {
        choose|i: int| 0 <= i < self.entries@.len() && (#[trigger] self.entries@[i]).0 == key
    }

    /// The resources as a map from key to resource.
    pub closed spec fn view(self) -> Map<ResourceKey, V> {
        Map::new(|k: ResourceKey| self.has_key(k), |k: ResourceKey| self.entries@[self.index_of(k)].1)
    }

    /// The keys of the given kind, in the order of the entries.
    pub closed spec fn keys_of_kind(self, kind: ResourceKind) -> Seq<ResourceKey> {
        keys_of_kind_in(self.entries@, kind)
    }

    proof fn lemma_unique(&self)
        requires
            self.keys_unique(),
        ensures
            forall|i: int, j: int|
                0 <= i < self.entries@.len() && 0 <= j < self.entries@.len() && i != j
                    ==> (#[trigger] self.entries@[i]).0 != (#[trigger] self.entries@[j]).0,
            forall|i: int|
                0 <= i < self.entries@.len() ==> self.index_of(#[trigger] self.entries@[i].0) == i,
            forall|i: int|
                0 <= i < self.entries@.len() ==> self@.contains_key(#[trigger] self.entries@[i].0)
                    && self@[self.entries@[i].0] == self.entries@[i].1,
    {
        assert forall|i: int, j: int|
            0 <= i < self.entries@.len() && 0 <= j < self.entries@.len() && i != j
            implies (#[trigger] self.entries@[i]).0 != (#[trigger] self.entries@[j]).0 by {
            if i > j {
                assert(self.entries@[j].0 != self.entries@[i].0);
            }
        }
        assert forall|i: int| 0 <= i < self.entries@.len() implies self.index_of(
            #[trigger] self.entries@[i].0,
        ) == i by {
            assert(self.has_key(self.entries@[i].0));
        }
        assert forall|i: int| 0 <= i < self.entries@.len() implies self@.contains_key(
            #[trigger] self.entries@[i].0,
        ) && self@[self.entries@[i].0] == self.entries@[i].1 by {
            assert(self.has_key(self.entries@[i].0));
        }
    }

    /// No resources.
    pub fn new() -> (r: Self)
        ensures
            r@ == Map::<ResourceKey, V>::empty(),
    {
        let r = ResourceMap { entries: Vec::new() };
        assert(r@ =~= Map::<ResourceKey, V>::empty());
        r
    }

    /// The number of resources.
    pub fn len(&self) -> (n: usize)
        ensures
            n == self@.dom().len(),
    {
        proof {
            use_type_invariant(self);
            self.lemma_unique();
            self.lemma_len();
        }
        self.entries.len()
    }

    proof fn lemma_len(&self)
        requires
            self.keys_unique(),
        ensures
            self@.dom().len() == self.entries@.len(),
            self@.dom().finite(),
        decreases self.entries@.len(),
    {
        self.lemma_unique();
        let keys = self.entries@.map_values(|e: (ResourceKey, V)| e.0);
        assert(self@.dom() =~= keys.to_set()) by {
            assert forall|k: ResourceKey| self@.dom().contains(k) implies keys.to_set().contains(k) by {
                let i = self.index_of(k);
                assert(keys[i] == k);
            }
            assert forall|k: ResourceKey| keys.to_set().contains(k) implies self@.dom().contains(k) by {
                let i = choose|i: int| 0 <= i < keys.len() && keys[i] == k;
                assert(self.entries@[i].0 == k);
            }
        }
        assert(keys.no_duplicates());
        keys.unique_seq_to_set();
    }

    fn position(&self, key: ResourceKey) -> (r: Option<usize>)
        ensures
            match r {
                Some(i) => i < self.entries@.len() && self.entries@[i as int].0 == key,
                None => !self.has_key(key),
            },
    {
        let mut i: usize = 0;
        while i < self.entries.len()
            invariant
                i <= self.entries@.len(),
                forall|j: int| 0 <= j < i ==> self.entries@[j].0 != key,
            decreases self.entries.len() - i,
        {
            if self.entries[i].0 == key {
                return Some(i);
            }
            i = i + 1;
        }
        None
    }

    /// The resource stored under `key`, if there is one.
    pub fn get(&self, key: ResourceKey) -> (r: Option<&V>)
        ensures
            match r {
                Some(v) => self@.contains_key(key) && *v == self@[key],
                None => !self@.contains_key(key),
            },
    {
        proof {
            use_type_invariant(self);
            self.lemma_unique();
        }
        match self.position(key) {
            Some(i) => Some(&self.entries[i].1),
            None => None,
        }
    }

    /// Stores `value` under `key`, and hands out the resource it replaces. A new
    /// key is appended to the order; a present one keeps its place.
    pub fn insert(&mut self, key: ResourceKey, value: V) -> (r: Option<V>)
        ensures
            final(self)@ == old(self)@.insert(key, value),
            r == if old(self)@.contains_key(key) {
                Some(old(self)@[key])
            } else {
                None
            },
    {
        proof {
            use_type_invariant(&*self);
            self.lemma_unique();
        }
        let ghost before = *self;
        let position = self.position(key);
        let mut entries: Vec<(ResourceKey, V)> = Vec::new();
        std::mem::swap(&mut entries, &mut self.entries);
        let r = match position {
            Some(i) => {
                let (_, previous) = entries.remove(i);
                entries.insert(i, (key, value));
                Some(previous)
            },
            None => {
                entries.push((key, value));
                None
            },
        };
        self.entries = entries;
        proof {
            use_type_invariant(&*self);
            self.lemma_unique();
            assert forall|k: ResourceKey| #[trigger]
                self@.contains_key(k) == before@.insert(key, value).contains_key(k) by {
                if before.has_key(k) {
                    let j = before.index_of(k);
                    assert(self.entries@[j].0 == k);
                }
                if self.has_key(k) && k != key {
                    let j = self.index_of(k);
                    assert(before.entries@[j].0 == k);
                }
                if k == key {
                    let j = match position {
                        Some(i) => i as int,
                        None => before.entries@.len() as int,
                    };
                    assert(self.entries@[j].0 == key);
                }
            }
            assert forall|k: ResourceKey| #[trigger]
                self@.contains_key(k) implies self@[k] == before@.insert(key, value)[k] by {
                let j = self.index_of(k);
                if k != key {
                    assert(before.entries@[j] == self.entries@[j]);
                }
            }
            assert(self@ =~= before@.insert(key, value));
        }
        r
    }

    /// Removes the resource stored under `key`, and hands it out.
    pub fn remove(&mut self, key: ResourceKey) -> (r: Option<V>)
        ensures
            final(self)@ == old(self)@.remove(key),
            r == if old(self)@.contains_key(key) {
                Some(old(self)@[key])
            } else {
                None
            },
    {
        proof {
            use_type_invariant(&*self);
            self.lemma_unique();
        }
        let ghost before = *self;
        match self.position(key) {
            Some(i) => {
                let mut entries: Vec<(ResourceKey, V)> = Vec::new();
                std::mem::swap(&mut entries, &mut self.entries);
                let (_, v) = entries.remove(i);
                self.entries = entries;
                proof {
                    use_type_invariant(&*self);
                    self.lemma_unique();
                    assert forall|k: ResourceKey| #[trigger]
                        self@.contains_key(k) == before@.remove(key).contains_key(k) by {
                        if before.has_key(k) && k != key {
                            let j = before.index_of(k);
                            let jj = if j < i { j } else { j - 1 };
                            assert(self.entries@[jj].0 == k);
                        }
                        if self.has_key(k) {
                            let j = self.index_of(k);
                            let jj = if j < i { j } else { j + 1 };
                            assert(before.entries@[jj].0 == k);
                        }
                    }
                    assert forall|k: ResourceKey| #[trigger]
                        self@.contains_key(k) implies self@[k] == before@.remove(key)[k] by {
                        let j = self.index_of(k);
                        let jj = if j < i { j } else { j + 1 };
                        assert(before.entries@[jj] == self.entries@[j]);
                    }
                    assert(self@ =~= before@.remove(key));
                }
                Some(v)
            },
            None => {
                assert(self@ =~= before@.remove(key));
                None
            },
        }
    }

    /// Clones of the resources of the given kind, in the order of
    /// [`keys_of_kind`](Self::keys_of_kind): every resource of that kind occurs,
    /// once each.
    pub fn list(&self, kind: ResourceKind) -> (r: Vec<V>)
        where
            V: Clone,
        ensures
            r@.len() == self.keys_of_kind(kind).len(),
            self.keys_of_kind(kind).no_duplicates(),
            forall|i: int|
                0 <= i < r@.len() ==> {
                    let k = #[trigger] self.keys_of_kind(kind)[i];
                    &&& k.kind == kind
                    &&& self@.contains_key(k)
                    &&& cloned::<V>(self@[k], r@[i])
                },
            forall|k: ResourceKey|
                #![trigger self@.contains_key(k)]
                self@.contains_key(k) && k.kind == kind ==> self.keys_of_kind(kind).contains(k),
    {
        proof {
            use_type_invariant(self);
            self.lemma_unique();
        }
        let mut r: Vec<V> = Vec::new();
        let mut i: usize = 0;
        while i < self.entries.len()
            invariant
                i <= self.entries@.len(),
                self.keys_unique(),
                r@.len() == keys_of_kind_in(self.entries@.take(i as int), kind).len(),
                forall|j: int|
                    0 <= j < r@.len() ==> {
                        let k = #[trigger] keys_of_kind_in(self.entries@.take(i as int), kind)[j];
                        &&& k.kind == kind
                        &&& self@.contains_key(k)
                        &&& cloned::<V>(self@[k], r@[j])
                    },
            decreases self.entries.len() - i,
        {
            proof {
                self.lemma_unique();
                assert(self.entries@.take(i + 1).drop_last() =~= self.entries@.take(i as int));
            }
            if self.entries[i].0.kind == kind {
                let v = self.entries[i].1.clone();
                r.push(v);
            }
            i = i + 1;
        }
        proof {
            assert(self.entries@.take(self.entries@.len() as int) =~= self.entries@);
            lemma_keys_of_kind_in(self.entries@, kind);
            self.lemma_unique();
            assert forall|k: ResourceKey|
                #![trigger self@.contains_key(k)]
                self@.contains_key(k) && k.kind == kind implies self.keys_of_kind(kind).contains(k) by {
                let j = self.index_of(k);
                assert(self.entries@[j].0 == k);
            }
        }
        r
    }

    /// A copy in which each resource is a clone of the one stored here.
    pub fn duplicate(&self) -> (r: Self)
        where
            V: Clone,
        ensures
            cloned_map(self@, r@),
    {
        proof {
            use_type_invariant(self);
            self.lemma_unique();
        }
        let mut entries: Vec<(ResourceKey, V)> = Vec::new();
        let mut i: usize = 0;
        while i < self.entries.len()
            invariant
                i <= self.entries@.len(),
                self.keys_unique(),
                entries@.len() == i,
                forall|j: int| 0 <= j < i ==> (#[trigger] entries@[j]).0 == self.entries@[j].0,
                forall|j: int| 0 <= j < i ==> cloned::<V>(self.entries@[j].1, #[trigger] entries@[j].1),
            decreases self.entries.len() - i,
        {
            let v = self.entries[i].1.clone();
            entries.push((self.entries[i].0, v));
            i = i + 1;
        }
        let r = ResourceMap { entries };
        proof {
            r.lemma_unique();
            self.lemma_unique();
            assert forall|k: ResourceKey| #[trigger] self@.contains_key(k) == r@.contains_key(k) by {
                if self@.contains_key(k) {
                    let j = self.index_of(k);
                    assert(r.entries@[j].0 == k);
                }
                if r@.contains_key(k) {
                    let j = r.index_of(k);
                    assert(self.entries@[j].0 == k);
                }
            }
            assert(self@.dom() =~= r@.dom());
            assert forall|k: ResourceKey| self@.contains_key(k) implies cloned::<V>(
                self@[k],
                #[trigger] r@[k],
            ) by {
                let j = self.index_of(k);
                assert(r.entries@[j].0 == k);
            }
        }
        r
    }
}

/// `b` holds the keys of `a`, each with a clone of its resource.
pub open spec fn cloned_map<V: Clone>(a: Map<ResourceKey, V>, b: Map<ResourceKey, V>) -> bool {
    &&& a.dom() == b.dom()
    &&& forall|k: ResourceKey| #[trigger] a.contains_key(k) ==> cloned::<V>(a[k], b[k])
}

/// The keys of the given kind among `entries`, in order.
pub open spec fn keys_of_kind_in<V>(entries: Seq<(ResourceKey, V)>, kind: ResourceKind) -> Seq<
    ResourceKey,
>
    decreases entries.len(),
{
    if entries.len() == 0 {
        Seq::empty()
    } else {
        let rest = keys_of_kind_in(entries.drop_last(), kind);
        if entries.last().0.kind == kind {
            rest.push(entries.last().0)
        } else {
            rest
        }
    }
}

proof fn lemma_keys_of_kind_in<V>(entries: Seq<(ResourceKey, V)>, kind: ResourceKind)
    requires
        forall|i: int, j: int|
            0 <= i < entries.len() && 0 <= j < entries.len() && i != j
                ==> (#[trigger] entries[i]).0 != (#[trigger] entries[j]).0,
    ensures
        keys_of_kind_in(entries, kind).no_duplicates(),
        forall|i: int|
            0 <= i < entries.len() && (#[trigger] entries[i]).0.kind == kind ==> keys_of_kind_in(
                entries,
                kind,
            ).contains(entries[i].0),
        forall|j: int|
            0 <= j < keys_of_kind_in(entries, kind).len() ==> exists|i: int|
                0 <= i < entries.len() && entries[i].0 == #[trigger] keys_of_kind_in(
                    entries,
                    kind,
                )[j],
    decreases entries.len(),
{
    if entries.len() > 0 {
        let init = entries.drop_last();
        lemma_keys_of_kind_in(init, kind);
        let rest = keys_of_kind_in(init, kind);
        if entries.last().0.kind == kind {
            assert forall|j: int| 0 <= j < rest.len() implies rest[j] != entries.last().0 by {
                let i = choose|i: int| 0 <= i < init.len() && init[i].0 == rest[j];
                assert(entries[i] == init[i]);
            }
            assert forall|i: int|
                0 <= i < entries.len() && (#[trigger] entries[i]).0.kind == kind implies keys_of_kind_in(
                entries,
                kind,
            ).contains(entries[i].0) by {
                if i < init.len() {
                    assert(init[i] == entries[i]);
                    let j = choose|j: int| 0 <= j < rest.len() && rest[j] == init[i].0;
                    assert(keys_of_kind_in(entries, kind)[j] == entries[i].0);
                } else {
                    assert(keys_of_kind_in(entries, kind)[rest.len() as int] == entries[i].0);
                }
            }
            assert forall|j: int| 0 <= j < keys_of_kind_in(entries, kind).len() implies exists|i: int|
                0 <= i < entries.len() && entries[i].0 == #[trigger] keys_of_kind_in(
                    entries,
                    kind,
                )[j] by {
                if j < rest.len() {
                    let i = choose|i: int| 0 <= i < init.len() && init[i].0 == rest[j];
                    assert(entries[i] == init[i]);
                } else {
                    assert(entries[entries.len() - 1].0 == keys_of_kind_in(entries, kind)[j]);
                }
            }
        } else {
            assert forall|i: int|
                0 <= i < entries.len() && (#[trigger] entries[i]).0.kind == kind implies keys_of_kind_in(
                entries,
                kind,
            ).contains(entries[i].0) by {
                assert(i < init.len());
                assert(init[i] == entries[i]);
            }
            assert forall|j: int| 0 <= j < keys_of_kind_in(entries, kind).len() implies exists|i: int|
                0 <= i < entries.len() && entries[i].0 == #[trigger] keys_of_kind_in(
                    entries,
                    kind,
                )[j] by {
                let i = choose|i: int| 0 <= i < init.len() && init[i].0 == rest[j];
                assert(entries[i] == init[i]);
            }
        }
    }
}

} // verus!
