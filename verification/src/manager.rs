//! The resources manager: every change runs in a transaction of the storage, and
//! the notifications that a committed transaction queued are published to the
//! subscribers, channel by channel.

use vstd::prelude::*;

use crate::resource_map::{cloned_map, ResourceKey, ResourceKind};
use crate::resources::{
    event_kind, events_of_kind, persistent_insert_result, relay_order, PersistenceError,
    RelayedSubscriptionEvents, SubscriptionEvent,
};
use crate::storage::{Resources, ResourcesTransaction, VolatileResourcesStorage};

verus! {

/// The resources and what has been published to the subscribers.
pub struct ResourcesManager<V> {
    resources: Resources<V>,
    published: Vec<SubscriptionEvent<V>>,
}

impl<V> ResourcesManager<V> {
    /// The stored resources.
    pub closed spec fn view(self) -> Map<ResourceKey, V> {
        self.resources@
    }

    /// The events published so far and not yet drained, in order.
    pub closed spec fn published(self) -> Seq<SubscriptionEvent<V>> {
        self.published@
    }

    /// The storage that holds the resources.
    pub closed spec fn storage(self) -> Resources<V> {
        self.resources
    }

    /// The resources are kept in the database.
    pub closed spec fn is_persistent(self) -> bool {
        self.resources is Persistent
    }

    /// What storing a resource under `key` answers.
    pub open spec fn insert_result(self, key: ResourceKey) -> Result<(), PersistenceError> {
        if self.is_persistent() {
            persistent_insert_result(self@, key)
        } else {
            Ok(())
        }
    }

    /// A manager of `resources` that has published nothing.
    pub fn new(resources: Resources<V>) -> (r: Self)
        ensures
            r@ == resources@,
            r.published() == Seq::<SubscriptionEvent<V>>::empty(),
            r.is_persistent() == (resources is Persistent),
    {
        ResourcesManager { resources, published: Vec::new() }
    }

    /// Takes the resources out, leaving empty memory in their place.
    fn take_resources(&mut self) -> (r: Resources<V>)
        ensures
            r == old(self).resources,
            final(self).published == old(self).published,
    {
        let mut resources = Resources::Volatile(VolatileResourcesStorage::new());
        std::mem::swap(&mut resources, &mut self.resources);
        resources
    }

    /// Publishes queued events to the subscribers, in [`relay_order`].
    fn send_relayed_subscription_events(&mut self, relayed_subscription_events: RelayedSubscriptionEvents<V>)
        ensures
            final(self).resources == old(self).resources,
            final(self).published() == old(self).published() + relay_order(
                relayed_subscription_events@,
            ),
    {
        let mut ordered = relayed_subscription_events.into_relay_order();
        self.published.append(&mut ordered);
    }

    /// Stores `value` under `key` in a transaction of its own, and publishes the
    /// notification about it when the storage accepts it.
    pub fn insert(&mut self, key: ResourceKey, value: V) -> (r: Result<(), PersistenceError>)
        where
            V: Clone,
        ensures
            r == old(self).insert_result(key),
            final(self)@ == if r is Ok {
                old(self)@.insert(key, value)
            } else {
                old(self)@
            },
            final(self).is_persistent() == old(self).is_persistent(),
            r is Ok ==> exists|c: V|
                #![trigger cloned::<V>(value, c)]
                cloned::<V>(value, c) && final(self).published() == old(self).published().push(
                    SubscriptionEvent::Inserted { key, value: c },
                ),
            r is Err ==> final(self).published() == old(self).published(),
    {
        let resources = self.take_resources();
        let mut transaction = resources.transaction_begin();
        let result = transaction.insert(key, value);
        if result.is_ok() {
            let ghost relayed = transaction.relayed();
            let (resources, events) = transaction.commit();
            self.resources = resources;
            self.send_relayed_subscription_events(events);
            proof {
                let c = choose|c: V|
                    #![trigger cloned::<V>(value, c)]
                    cloned::<V>(value, c) && relayed == Seq::<SubscriptionEvent<V>>::empty().push(
                        SubscriptionEvent::Inserted { key, value: c },
                    );
                lemma_relay_single(SubscriptionEvent::Inserted { key, value: c });
                assert(relayed =~= seq![SubscriptionEvent::Inserted { key, value: c }]);
                assert(cloned::<V>(value, c));
            }
        } else {
            self.resources = transaction.rollback();
        }
        result
    }

    /// Removes the resource stored under `key` in a transaction of its own, and
    /// hands out a clone of it.
    pub fn remove(&mut self, key: ResourceKey) -> (r: Result<Option<V>, PersistenceError>)
        where
            V: Clone,
        ensures
            final(self)@ == old(self)@.remove(key),
            final(self).published() == old(self).published(),
            final(self).is_persistent() == old(self).is_persistent(),
            match r {
                Ok(Some(v)) => old(self)@.contains_key(key) && cloned::<V>(old(self)@[key], v),
                Ok(None) => !old(self)@.contains_key(key),
                Err(_) => false,
            },
    {
        let resources = self.take_resources();
        let mut transaction = resources.transaction_begin();
        let result = transaction.remove(key);
        let (resources, events) = transaction.commit();
        self.resources = resources;
        proof {
            lemma_relay_empty::<V>();
        }
        self.send_relayed_subscription_events(events);
        assert(self.published@ =~= old(self).published@);
        result
    }

    /// The resource stored under `key`, if there is one.
    pub fn get(&self, key: ResourceKey) -> (r: Option<&V>)
        ensures
            match r {
                Some(v) => self@.contains_key(key) && *v == self@[key],
                None => !self@.contains_key(key),
            },
    {
        self.resources.get(key)
    }

    /// Whether a resource is stored under `key`.
    pub fn contains(&self, key: ResourceKey) -> (r: bool)
        ensures
            r == self@.contains_key(key),
    {
        self.resources.get(key).is_some()
    }

    /// Whether no resource of any kind is stored.
    pub fn is_empty(&self) -> (r: bool)
        ensures
            r == (self@.dom().len() == 0),
    {
        self.resources.len() == 0
    }

    /// Runs `f` on the resources, which it can read but not change.
    pub fn resources<F, T>(&self, f: F) -> (r: T)
        where
            F: FnOnce(&Resources<V>) -> T,
        requires
            f.requires((&self.storage(),)),
        ensures
            f.ensures((&self.storage(),), r),
    {
        f(&self.resources)
    }

    /// The keys of the given kind, in the order in which [`list`](Self::list)
    /// gives their resources.
    pub closed spec fn keys_of_kind(self, kind: ResourceKind) -> Seq<ResourceKey> {
        self.resources.keys_of_kind(kind)
    }

    /// Clones of the resources of the given kind: every one of them once, in the
    /// order of [`keys_of_kind`](Self::keys_of_kind).
    pub fn list(&self, kind: ResourceKind) -> (r: Vec<V>)
        where
            V: Clone,
        ensures
            r@.len() == self.keys_of_kind(kind).len(),
            self.keys_of_kind(kind).no_duplicates(),
            forall|i: int|
                0 <= i < r@.len() ==> {
                    let k = #[trigger] self.keys_of_kind(kind)[i];
                    &&& k.kind == kind
                    &&& self@.contains_key(k)
                    &&& cloned::<V>(self@[k], r@[i])
                },
            forall|k: ResourceKey|
                #![trigger self@.contains_key(k)]
                self@.contains_key(k) && k.kind == kind ==> self.keys_of_kind(kind).contains(k),
    {
        self.resources.list(kind)
    }

    /// Runs `f` on a transaction of the storage. When `f` answers `Ok`, the
    /// transaction it hands back is committed and the events it queued are
    /// published; when `f` answers `Err`, the resources stay as they were when
    /// the transaction began, and nothing is published. The transaction works on
    /// clones of the stored resources, so nothing that `f` does reaches the
    /// storage unless it is committed.
    pub fn resources_mut<F, T, E>(&mut self, f: F) -> (r: Result<T, E>)
        where
            F: FnOnce(ResourcesTransaction<V>) -> (ResourcesTransaction<V>, Result<T, E>),
            V: Clone,
        requires
            forall|t: ResourcesTransaction<V>| f.requires((t,)),
        ensures
            exists|begun: ResourcesTransaction<V>, finished: ResourcesTransaction<V>|
                #![trigger f.ensures((begun,), (finished, r))]
                {
                    &&& cloned_map(old(self)@, begun@)
                    &&& begun.snapshot() == begun@
                    &&& begun.relayed() == Seq::<SubscriptionEvent<V>>::empty()
                    &&& f.ensures((begun,), (finished, r))
                    &&& r is Ok ==> final(self)@ == finished@ && final(self).published() == old(
                        self,
                    ).published() + relay_order(finished.relayed())
                },
            r is Err ==> final(self)@ == old(self)@ && final(self).published() == old(self).published(),
    {
        let copy = self.resources.duplicate();
        let transaction = copy.transaction_begin();
        let ghost begun = transaction;
        let (finished, result) = f(transaction);
        let ghost done = finished;
        if result.is_ok() {
            let (resources, events) = finished.commit();
            self.resources = resources;
            self.send_relayed_subscription_events(events);
        }
        assert(f.ensures((begun,), (done, result)));
        result
    }

    /// Hands out the events published since the last call, in order, and
    /// forgets them.
    pub fn drain_published(&mut self) -> (r: Vec<SubscriptionEvent<V>>)
        ensures
            r@ == old(self).published(),
            final(self).published() == Seq::<SubscriptionEvent<V>>::empty(),
            final(self)@ == old(self)@,
            final(self).is_persistent() == old(self).is_persistent(),
    {
        let mut r: Vec<SubscriptionEvent<V>> = Vec::new();
        std::mem::swap(&mut r, &mut self.published);
        r
    }
}

proof fn lemma_relay_empty<V>()
    ensures
        relay_order(Seq::<SubscriptionEvent<V>>::empty()) == Seq::<SubscriptionEvent<V>>::empty(),
{
    assert(relay_order(Seq::<SubscriptionEvent<V>>::empty()) =~= Seq::<SubscriptionEvent<V>>::empty());
}

proof fn lemma_relay_single<V>(event: SubscriptionEvent<V>)
    ensures
        relay_order(seq![event]) == seq![event],
{
    let s = seq![event];
    reveal_with_fuel(events_of_kind, 2);
    assert(s.drop_last() =~= Seq::<SubscriptionEvent<V>>::empty());
    assert(relay_order(s) =~= s);
}

/// Events of one kind filtered out of a concatenation are those of either part,
/// in order.
proof fn lemma_events_of_kind_add<V>(
    a: Seq<SubscriptionEvent<V>>,
    b: Seq<SubscriptionEvent<V>>,
    kind: ResourceKind,
)
    ensures
        events_of_kind(a + b, kind) == events_of_kind(a, kind) + events_of_kind(b, kind),
    decreases b.len(),
{
    if b.len() == 0 {
        assert(a + b =~= a);
        assert(events_of_kind(a, kind) + events_of_kind(b, kind) =~= events_of_kind(a, kind));
    } else {
        lemma_events_of_kind_add(a, b.drop_last(), kind);
        assert((a + b).drop_last() =~= a + b.drop_last());
        assert((a + b).last() == b.last());
        if event_kind(b.last()) == kind {
            assert(events_of_kind(a, kind) + events_of_kind(b, kind) =~= (events_of_kind(a, kind)
                + events_of_kind(b.drop_last(), kind)).push(b.last()));
        }
    }
}

/// Filtering twice by kinds keeps the events of both kinds.
proof fn lemma_events_of_kind_twice<V>(
    s: Seq<SubscriptionEvent<V>>,
    first: ResourceKind,
    second: ResourceKind,
)
    ensures
        events_of_kind(events_of_kind(s, first), second) == if first == second {
            events_of_kind(s, first)
        } else {
            Seq::<SubscriptionEvent<V>>::empty()
        },
    decreases s.len(),
{
    if s.len() > 0 {
        lemma_events_of_kind_twice(s.drop_last(), first, second);
        let inner = events_of_kind(s, first);
        if event_kind(s.last()) == first {
            assert(inner.drop_last() =~= events_of_kind(s.drop_last(), first));
        }
    } else {
        assert(events_of_kind(events_of_kind(s, first), second) =~= Seq::<SubscriptionEvent<V>>::empty());
    }
}

/// The events of the six kinds together are as many as the events.
proof fn lemma_events_of_kind_count<V>(s: Seq<SubscriptionEvent<V>>)
    ensures
        events_of_kind(s, ResourceKind::ClusterConfiguration).len() + events_of_kind(
            s,
            ResourceKind::ClusterDeployment,
        ).len() + events_of_kind(s, ResourceKind::OldPeerConfiguration).len() + events_of_kind(
            s,
            ResourceKind::PeerConfiguration,
        ).len() + events_of_kind(s, ResourceKind::PeerDescriptor).len() + events_of_kind(
            s,
            ResourceKind::PeerState,
        ).len() == s.len(),
    decreases s.len(),
{
    if s.len() > 0 {
        lemma_events_of_kind_count(s.drop_last());
    }
}

/// What a read gives back of a write: after a resource is stored under a key, the
/// key reads as that resource; after the key is removed, it reads as absent; every
/// other key reads as before.
pub proof fn law_read_after_write<V>(
    stored: Map<ResourceKey, V>,
    key: ResourceKey,
    value: V,
    other: ResourceKey,
)
    requires
        other != key,
    ensures
        stored.insert(key, value).contains_key(key),
        stored.insert(key, value)[key] == value,
        !stored.remove(key).contains_key(key),
        stored.insert(key, value).contains_key(other) == stored.contains_key(other),
        stored.remove(key).contains_key(other) == stored.contains_key(other),
        stored.contains_key(other) ==> stored.insert(key, value)[other] == stored[other]
            && stored.remove(key)[other] == stored[other],
{
}

/// Relaying loses no event and invents none, and keeps the order of the events
/// within each channel: the relayed events are as many as the queued ones, and
/// those of each kind come in the order in which they were queued.
pub proof fn law_relay_keeps_channel_order<V>(events: Seq<SubscriptionEvent<V>>, kind: ResourceKind)
    ensures
        relay_order(events).len() == events.len(),
        events_of_kind(relay_order(events), kind) == events_of_kind(events, kind),
{
    lemma_events_of_kind_count(events);
    let cc = events_of_kind(events, ResourceKind::ClusterConfiguration);
    let cd = events_of_kind(events, ResourceKind::ClusterDeployment);
    let op = events_of_kind(events, ResourceKind::OldPeerConfiguration);
    let pc = events_of_kind(events, ResourceKind::PeerConfiguration);
    let pd = events_of_kind(events, ResourceKind::PeerDescriptor);
    let ps = events_of_kind(events, ResourceKind::PeerState);
    lemma_events_of_kind_add(cc, cd, kind);
    lemma_events_of_kind_add(cc + cd, op, kind);
    lemma_events_of_kind_add(cc + cd + op, pc, kind);
    lemma_events_of_kind_add(cc + cd + op + pc, pd, kind);
    lemma_events_of_kind_add(cc + cd + op + pc + pd, ps, kind);
    lemma_events_of_kind_twice(events, ResourceKind::ClusterConfiguration, kind);
    lemma_events_of_kind_twice(events, ResourceKind::ClusterDeployment, kind);
    lemma_events_of_kind_twice(events, ResourceKind::OldPeerConfiguration, kind);
    lemma_events_of_kind_twice(events, ResourceKind::PeerConfiguration, kind);
    lemma_events_of_kind_twice(events, ResourceKind::PeerDescriptor, kind);
    lemma_events_of_kind_twice(events, ResourceKind::PeerState, kind);
    let e = Seq::<SubscriptionEvent<V>>::empty();
    assert(e + e =~= e);
    assert(forall|x: Seq<SubscriptionEvent<V>>| #![auto] x + e =~= x && e + x =~= x);
}

} // verus!
