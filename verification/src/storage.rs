//! The two storages of resources, and transactions on either of them.

use vstd::prelude::*;

use crate::resource_map::{cloned_map, ResourceKey, ResourceKind, ResourceMap};
use crate::resources::{
    persistent_insert_result, required_reference, PersistenceError, PersistentResourcesTransaction,
    RelayedSubscriptionEvents, SubscriptionEvent, VolatileResourcesTransaction,
};

verus! {

/// Resources kept in memory only.
pub struct VolatileResourcesStorage<V> {
    resources: ResourceMap<V>,
}

impl<V> VolatileResourcesStorage<V> {
    pub closed spec fn view(self) -> Map<ResourceKey, V> {
        self.resources@
    }

    /// The number of stored resources.
    pub fn len(&self) -> (n: usize)
        ensures
            n == self@.dom().len(),
    {
        self.resources.len()
    }

    /// An empty storage.
    pub fn new() -> (r: Self)
        ensures
            r@ == Map::<ResourceKey, V>::empty(),
    {
        VolatileResourcesStorage { resources: ResourceMap::new() }
    }

    /// A copy in which each resource is a clone of the one stored here.
    pub fn duplicate(&self) -> (r: Self)
        where
            V: Clone,
        ensures
            cloned_map(self@, r@),
    {
        VolatileResourcesStorage { resources: self.resources.duplicate() }
    }

    /// Stores `value` under `key`; memory refuses nothing.
    pub fn insert(&mut self, key: ResourceKey, value: V) -> (r: Result<(), PersistenceError>)
        ensures
            r == Ok::<(), PersistenceError>(()),
            final(self)@ == old(self)@.insert(key, value),
    {
        self.resources.insert(key, value);
        Ok(())
    }

    /// Removes the resource stored under `key`, and hands it out.
    pub fn remove(&mut self, key: ResourceKey) -> (r: Result<Option<V>, PersistenceError>)
        ensures
            final(self)@ == old(self)@.remove(key),
            r == Ok::<Option<V>, PersistenceError>(
                if old(self)@.contains_key(key) {
                    Some(old(self)@[key])
                } else {
                    None
                },
            ),
    {
        Ok(self.resources.remove(key))
    }

    /// The resource stored under `key`, if there is one.
    pub fn get(&self, key: ResourceKey) -> (r: Option<&V>)
        ensures
            match r {
                Some(v) => self@.contains_key(key) && *v == self@[key],
                None => !self@.contains_key(key),
            },
    {
        self.resources.get(key)
    }

    /// The keys of the given kind, in the order in which [`list`](Self::list)
    /// gives their resources.
    pub closed spec fn keys_of_kind(self, kind: ResourceKind) -> Seq<ResourceKey> {
        self.resources.keys_of_kind(kind)
    }

    /// Clones of the resources of the given kind: every one of them once, in the
    /// order of [`keys_of_kind`](Self::keys_of_kind).
    pub fn list(&self, kind: ResourceKind) -> (r: Vec<V>)
        where
            V: Clone,
        ensures
            r@.len() == self.keys_of_kind(kind).len(),
            self.keys_of_kind(kind).no_duplicates(),
            forall|i: int|
                0 <= i < r@.len() ==> {
                    let k = #[trigger] self.keys_of_kind(kind)[i];
                    &&& k.kind == kind
                    &&& self@.contains_key(k)
                    &&& cloned::<V>(self@[k], r@[i])
                },
            forall|k: ResourceKey|
                #![trigger self@.contains_key(k)]
                self@.contains_key(k) && k.kind == kind ==> self.keys_of_kind(kind).contains(k),
    {
        self.resources.list(kind)
    }
}

/// Resources kept in the database.
pub struct PersistentResourcesStorage<V> {
    storage: ResourceMap<V>,
}

impl<V> PersistentResourcesStorage<V> {
    pub closed spec fn view(self) -> Map<ResourceKey, V> {
        self.storage@
    }

    /// The number of stored resources.
    pub fn len(&self) -> (n: usize)
        ensures
            n == self@.dom().len(),
    {
        self.storage.len()
    }

    /// A database that holds no resources.
    pub fn new() -> (r: Self)
        ensures
            r@ == Map::<ResourceKey, V>::empty(),
    {
        PersistentResourcesStorage { storage: ResourceMap::new() }
    }

    /// A copy in which each resource is a clone of the one stored here.
    pub fn duplicate(&self) -> (r: Self)
        where
            V: Clone,
        ensures
            cloned_map(self@, r@),
    {
        PersistentResourcesStorage { storage: self.storage.duplicate() }
    }

    /// Stores `value` under `key`, unless the database refuses it (see
    /// [`persistent_insert_result`]).
    pub fn insert(&mut self, key: ResourceKey, value: V) -> (r: Result<(), PersistenceError>)
        ensures
            r == persistent_insert_result(old(self)@, key),
            final(self)@ == if r is Ok {
                old(self)@.insert(key, value)
            } else {
                old(self)@
            },
    {
        if let Some(referenced) = required_reference(key) {
            if self.storage.get(referenced).is_none() {
                return Err(PersistenceError::MissingReference { key, referenced });
            }
        }
        self.storage.insert(key, value);
        Ok(())
    }

    /// Removes the resource stored under `key`, and hands it out.
    pub fn remove(&mut self, key: ResourceKey) -> (r: Result<Option<V>, PersistenceError>)
        ensures
            final(self)@ == old(self)@.remove(key),
            r == Ok::<Option<V>, PersistenceError>(
                if old(self)@.contains_key(key) {
                    Some(old(self)@[key])
                } else {
                    None
                },
            ),
    {
        Ok(self.storage.remove(key))
    }

    /// The resource stored under `key`, if there is one.
    pub fn get(&self, key: ResourceKey) -> (r: Option<&V>)
        ensures
            match r {
                Some(v) => self@.contains_key(key) && *v == self@[key],
                None => !self@.contains_key(key),
            },
    {
        self.storage.get(key)
    }

    /// The keys of the given kind, in the order in which [`list`](Self::list)
    /// gives their resources.
    pub closed spec fn keys_of_kind(self, kind: ResourceKind) -> Seq<ResourceKey> {
        self.storage.keys_of_kind(kind)
    }

    /// Clones of the resources of the given kind: every one of them once, in the
    /// order of [`keys_of_kind`](Self::keys_of_kind).
    pub fn list(&self, kind: ResourceKind) -> (r: Vec<V>)
        where
            V: Clone,
        ensures
            r@.len() == self.keys_of_kind(kind).len(),
            self.keys_of_kind(kind).no_duplicates(),
            forall|i: int|
                0 <= i < r@.len() ==> {
                    let k = #[trigger] self.keys_of_kind(kind)[i];
                    &&& k.kind == kind
                    &&& self@.contains_key(k)
                    &&& cloned::<V>(self@[k], r@[i])
                },
            forall|k: ResourceKey|
                #![trigger self@.contains_key(k)]
                self@.contains_key(k) && k.kind == kind ==> self.keys_of_kind(kind).contains(k),
    {
        self.storage.list(kind)
    }
}

/// The storage in use: the database, or memory when persistence is disabled.
pub enum Resources<V> {
    Persistent(PersistentResourcesStorage<V>),
    Volatile(VolatileResourcesStorage<V>),
}

impl<V> Resources<V> {
    pub open spec fn view(self) -> Map<ResourceKey, V> {
        match self {
            Resources::Persistent(s) => s@,
            Resources::Volatile(s) => s@,
        }
    }

    /// The resource stored under `key`, if there is one.
    pub fn get(&self, key: ResourceKey) -> (r: Option<&V>)
        ensures
            match r {
                Some(v) => self@.contains_key(key) && *v == self@[key],
                None => !self@.contains_key(key),
            },
    {
        match self {
            Resources::Persistent(s) => s.get(key),
            Resources::Volatile(s) => s.get(key),
        }
    }

    /// The number of stored resources.
    pub fn len(&self) -> (n: usize)
        ensures
            n == self@.dom().len(),
    {
        match self {
            Resources::Persistent(s) => s.len(),
            Resources::Volatile(s) => s.len(),
        }
    }

    /// The keys of the given kind, in the order in which [`list`](Self::list)
    /// gives their resources.
    pub open spec fn keys_of_kind(self, kind: ResourceKind) -> Seq<ResourceKey> {
        match self {
            Resources::Persistent(s) => s.keys_of_kind(kind),
            Resources::Volatile(s) => s.keys_of_kind(kind),
        }
    }

    /// Clones of the resources of the given kind: every one of them once, in the
    /// order of [`keys_of_kind`](Self::keys_of_kind).
    pub fn list(&self, kind: ResourceKind) -> (r: Vec<V>)
        where
            V: Clone,
        ensures
            r@.len() == self.keys_of_kind(kind).len(),
            self.keys_of_kind(kind).no_duplicates(),
            forall|i: int|
                0 <= i < r@.len() ==> {
                    let k = #[trigger] self.keys_of_kind(kind)[i];
                    &&& k.kind == kind
                    &&& self@.contains_key(k)
                    &&& cloned::<V>(self@[k], r@[i])
                },
            forall|k: ResourceKey|
                #![trigger self@.contains_key(k)]
                self@.contains_key(k) && k.kind == kind ==> self.keys_of_kind(kind).contains(k),
    {
        match self {
            Resources::Persistent(s) => s.list(kind),
            Resources::Volatile(s) => s.list(kind),
        }
    }

    /// A copy of the same storage in which each resource is a clone of the one
    /// stored here.
    pub fn duplicate(&self) -> (r: Self)
        where
            V: Clone,
        ensures
            cloned_map(self@, r@),
            r is Persistent <==> self is Persistent,
    {
        match self {
            Resources::Persistent(s) => Resources::Persistent(s.duplicate()),
            Resources::Volatile(s) => Resources::Volatile(s.duplicate()),
        }
    }

    /// Begins a transaction on the storage, with no events queued.
    pub fn transaction_begin(self) -> (r: ResourcesTransaction<V>)
        ensures
            r@ == self@,
            r.snapshot() == self@,
            r.relayed() == Seq::<SubscriptionEvent<V>>::empty(),
            r is Persistent <==> self is Persistent,
    {
        match self {
            Resources::Persistent(s) => ResourcesTransaction::persistent(
                PersistentResourcesTransaction::begin(s.storage),
            ),
            Resources::Volatile(s) => ResourcesTransaction::volatile(
                VolatileResourcesTransaction::begin(s.resources),
            ),
        }
    }
}

/// A transaction on the database or on memory.
pub enum ResourcesTransaction<V> {
    Persistent(PersistentResourcesTransaction<V>),
    Volatile(VolatileResourcesTransaction<V>),
}

impl<V> ResourcesTransaction<V> {
    /// The resources as the transaction has changed them.
    pub open spec fn view(self) -> Map<ResourceKey, V> {
        match self {
            ResourcesTransaction::Persistent(t) => t@,
            ResourcesTransaction::Volatile(t) => t@,
        }
    }

    /// The resources as they were when the transaction began.
    pub open spec fn snapshot(self) -> Map<ResourceKey, V> {
        match self {
            ResourcesTransaction::Persistent(t) => t.snapshot(),
            ResourcesTransaction::Volatile(t) => t.snapshot(),
        }
    }

    /// The events that the transaction has queued.
    pub open spec fn relayed(self) -> Seq<SubscriptionEvent<V>> {
        match self {
            ResourcesTransaction::Persistent(t) => t.relayed(),
            ResourcesTransaction::Volatile(t) => t.relayed(),
        }
    }

    /// What storing a resource under `key` answers: the database may refuse it,
    /// memory does not.
    pub open spec fn insert_result(self, key: ResourceKey) -> Result<(), PersistenceError> {
        match self {
            ResourcesTransaction::Persistent(t) => persistent_insert_result(t@, key),
            ResourcesTransaction::Volatile(_) => Ok(()),
        }
    }

    /// A transaction on empty memory, which stands in while a transaction is
    /// being changed.
    fn placeholder() -> (r: Self)
        ensures
            r is Volatile,
            r@ == Map::<ResourceKey, V>::empty(),
            r.snapshot() == Map::<ResourceKey, V>::empty(),
            r.relayed() == Seq::<SubscriptionEvent<V>>::empty(),
    {
        ResourcesTransaction::Volatile(VolatileResourcesTransaction::begin(ResourceMap::new()))
    }

    /// A transaction on the database.
    pub fn persistent(transaction: PersistentResourcesTransaction<V>) -> (r: Self)
        ensures
            r == ResourcesTransaction::Persistent(transaction),
    {
        ResourcesTransaction::Persistent(transaction)
    }

    /// A transaction on memory.
    pub fn volatile(transaction: VolatileResourcesTransaction<V>) -> (r: Self)
        ensures
            r == ResourcesTransaction::Volatile(transaction),
    {
        ResourcesTransaction::Volatile(transaction)
    }

    /// Ends the transaction without committing it, handing out the events it
    /// queued.
    pub fn into_relayed_subscription_events(self) -> (r: RelayedSubscriptionEvents<V>)
        ensures
            r@ == self.relayed(),
    {
        match self {
            ResourcesTransaction::Persistent(t) => t.into_events(),
            ResourcesTransaction::Volatile(t) => t.into_events(),
        }
    }

    /// Stores `value` under `key`; when the storage accepts it, queues a
    /// notification with a clone of `value`.
    pub fn insert(&mut self, key: ResourceKey, value: V) -> (r: Result<(), PersistenceError>)
        where
            V: Clone,
        ensures
            r == old(self).insert_result(key),
            final(self)@ == if r is Ok {
                old(self)@.insert(key, value)
            } else {
                old(self)@
            },
            final(self).snapshot() == old(self).snapshot(),
            r is Ok ==> exists|c: V|
                #![trigger cloned::<V>(value, c)]
                cloned::<V>(value, c) && final(self).relayed() == old(self).relayed().push(
                    SubscriptionEvent::Inserted { key, value: c },
                ),
            r is Err ==> final(self).relayed() == old(self).relayed(),
            *final(self) is Persistent <==> *old(self) is Persistent,
    {
        let event_value = value.clone();
        let mut this = ResourcesTransaction::placeholder();
        std::mem::swap(self, &mut this);
        assert(this == *old(self));
        match this {
            ResourcesTransaction::Persistent(mut transaction) => {
                assert(old(self).insert_result(key) == persistent_insert_result(transaction@, key));
                let result = transaction.insert(key, value);
                if result.is_ok() {
                    assert(cloned::<V>(value, event_value));
                    transaction.notify(SubscriptionEvent::Inserted { key, value: event_value });
                }
                *self = ResourcesTransaction::Persistent(transaction);
                return result;
            },
            ResourcesTransaction::Volatile(mut transaction) => {
                assert(old(self).insert_result(key) == Ok::<(), PersistenceError>(()));
                let result = transaction.insert(key, value);
                if result.is_ok() {
                    assert(cloned::<V>(value, event_value));
                    transaction.notify(SubscriptionEvent::Inserted { key, value: event_value });
                }
                *self = ResourcesTransaction::Volatile(transaction);
                return result;
            },
        }
    }

    /// Removes the resource stored under `key`, and hands out a clone of it.
    pub fn remove(&mut self, key: ResourceKey) -> (r: Result<Option<V>, PersistenceError>)
        where
            V: Clone,
        ensures
            final(self)@ == old(self)@.remove(key),
            final(self).snapshot() == old(self).snapshot(),
            final(self).relayed() == old(self).relayed(),
            *final(self) is Persistent <==> *old(self) is Persistent,
            match r {
                Ok(Some(v)) => old(self)@.contains_key(key) && cloned::<V>(old(self)@[key], v),
                Ok(None) => !old(self)@.contains_key(key),
                Err(_) => false,
            },
    {
        let mut this = ResourcesTransaction::placeholder();
        std::mem::swap(self, &mut this);
        assert(this == *old(self));
        match this {
            ResourcesTransaction::Persistent(mut transaction) => {
                let r = transaction.remove(key);
                *self = ResourcesTransaction::Persistent(transaction);
                r
            },
            ResourcesTransaction::Volatile(mut transaction) => {
                let r = transaction.remove(key);
                *self = ResourcesTransaction::Volatile(transaction);
                r
            },
        }
    }

    /// The resource stored under `key`, if there is one.
    pub fn get(&self, key: ResourceKey) -> (r: Option<&V>)
        ensures
            match r {
                Some(v) => self@.contains_key(key) && *v == self@[key],
                None => !self@.contains_key(key),
            },
    {
        match self {
            ResourcesTransaction::Persistent(transaction) => transaction.get(key),
            ResourcesTransaction::Volatile(transaction) => transaction.get(key),
        }
    }

    /// The keys of the given kind, in the order in which [`list`](Self::list)
    /// gives their resources.
    pub open spec fn keys_of_kind(self, kind: ResourceKind) -> Seq<ResourceKey> {
        match self {
            ResourcesTransaction::Persistent(t) => t.keys_of_kind(kind),
            ResourcesTransaction::Volatile(t) => t.keys_of_kind(kind),
        }
    }

    /// Clones of the resources of the given kind: every one of them once, in the
    /// order of [`keys_of_kind`](Self::keys_of_kind).
    pub fn list(&self, kind: ResourceKind) -> (r: Vec<V>)
        where
            V: Clone,
        ensures
            r@.len() == self.keys_of_kind(kind).len(),
            forall|i: int|
                0 <= i < r@.len() ==> {
                    let k = #[trigger] self.keys_of_kind(kind)[i];
                    &&& k.kind == kind
                    &&& self@.contains_key(k)
                    &&& cloned::<V>(self@[k], r@[i])
                },
    {
        match self {
            ResourcesTransaction::Persistent(transaction) => transaction.list(kind),
            ResourcesTransaction::Volatile(transaction) => transaction.list(kind),
        }
    }

    /// Ends the transaction, keeping its changes; hands out the storage and the
    /// events to relay.
    pub fn commit(self) -> (r: (Resources<V>, RelayedSubscriptionEvents<V>))
        ensures
            r.0@ == self@,
            r.1@ == self.relayed(),
            r.0 is Persistent <==> self is Persistent,
    {
        match self {
            ResourcesTransaction::Persistent(t) => {
                let (storage, events) = t.commit();
                (Resources::Persistent(PersistentResourcesStorage { storage }), events)
            },
            ResourcesTransaction::Volatile(t) => {
                let (resources, events) = t.commit();
                (Resources::Volatile(VolatileResourcesStorage { resources }), events)
            },
        }
    }

    /// Ends the transaction, undoing its changes and dropping its events.
    pub fn rollback(self) -> (r: Resources<V>)
        ensures
            r@ == self.snapshot(),
            r is Persistent <==> self is Persistent,
    {
        match self {
            ResourcesTransaction::Persistent(t) => Resources::Persistent(
                PersistentResourcesStorage { storage: t.rollback() },
            ),
            ResourcesTransaction::Volatile(t) => Resources::Volatile(
                VolatileResourcesStorage { resources: t.rollback() },
            ),
        }
    }
}

} // verus!
