//! Storage of the management service's resources, in memory (volatile) or in a
//! database (persistent), with transactions that are committed as a whole or
//! rolled back, and notifications about inserted resources that a transaction
//! queues and that are relayed to the subscribers once it is committed.

use vstd::prelude::*;

use crate::resource_map::{ResourceKey, ResourceKind, ResourceMap};

verus! {

/// Why a storage refused a change.
#[derive(Clone, Copy, Debug, PartialEq, Eq, Structural)]
pub enum PersistenceError {
    /// The resource refers to a resource that is not stored.
    MissingReference { key: ResourceKey, referenced: ResourceKey },
}

/// A notification about a change of the resources.
#[derive(Debug)]
pub enum SubscriptionEvent<V> {
    Inserted { key: ResourceKey, value: V },
}

/// The kind of resource that an event is about.
pub open spec fn event_kind<V>(event: SubscriptionEvent<V>) -> ResourceKind {
    match event {
        SubscriptionEvent::Inserted { key, .. } => key.kind,
    }
}

/// The resource that the database requires to be stored before `key` can be: a
/// cluster deployment refers to the cluster configuration with the same id.
pub open spec fn spec_required_reference(key: ResourceKey) -> Option<ResourceKey> {
    match key.kind {
        ResourceKind::ClusterDeployment => Some(
            ResourceKey { kind: ResourceKind::ClusterConfiguration, id: key.id },
        ),
        _ => None,
    }
}

/// See [`spec_required_reference`].
pub fn required_reference(key: ResourceKey) -> (r: Option<ResourceKey>)
    ensures
        r == spec_required_reference(key),
{
    match key.kind {
        ResourceKind::ClusterDeployment => Some(
            ResourceKey { kind: ResourceKind::ClusterConfiguration, id: key.id },
        ),
        _ => None,
    }
}

/// The outcome of storing a resource under `key` in a database that holds
/// `stored`: refused when the resource that `key` requires is missing.
pub open spec fn persistent_insert_result<V>(stored: Map<ResourceKey, V>, key: ResourceKey) -> Result<
    (),
    PersistenceError,
> {
    match spec_required_reference(key) {
        Some(referenced) => if stored.contains_key(referenced) {
            Ok(())
        } else {
            Err(PersistenceError::MissingReference { key, referenced })
        },
        None => Ok(()),
    }
}

/// Undoes one change: puts back the resource that `entry` recorded for its key,
/// or removes the key when there was none.
pub open spec fn restore<V>(m: Map<ResourceKey, V>, entry: (ResourceKey, Option<V>)) -> Map<
    ResourceKey,
    V,
> {
    match entry.1 {
        Some(v) => m.insert(entry.0, v),
        None => m.remove(entry.0),
    }
}

/// Undoes the changes recorded in `undo`, the latest first.
pub open spec fn rolled_back<V>(m: Map<ResourceKey, V>, undo: Seq<(ResourceKey, Option<V>)>) -> Map<
    ResourceKey,
    V,
>
    decreases undo.len(),
{
    if undo.len() == 0 {
        m
    } else {
        rolled_back(restore(m, undo.last()), undo.drop_last())
    }
}

/// What a key held before a change: its resource, if it had one.
pub open spec fn previous<V>(m: Map<ResourceKey, V>, key: ResourceKey) -> Option<V> {
    if m.contains_key(key) {
        Some(m[key])
    } else {
        None
    }
}

/// Undoing a change of `key` in `m` gives `m` back.
proof fn lemma_restore_undoes<V>(m: Map<ResourceKey, V>, changed: Map<ResourceKey, V>, key: ResourceKey)
    requires
        forall|k: ResourceKey| k != key ==> (#[trigger] changed.contains_key(k)) == m.contains_key(k),
        forall|k: ResourceKey| k != key && m.contains_key(k) ==> #[trigger] changed[k] == m[k],
    ensures
        restore(changed, (key, previous(m, key))) == m,
{
    assert(restore(changed, (key, previous(m, key))) =~= m);
}

/// The events of the given kind, in order.
pub open spec fn events_of_kind<V>(events: Seq<SubscriptionEvent<V>>, kind: ResourceKind) -> Seq<
    SubscriptionEvent<V>,
>
    decreases events.len(),
{
    if events.len() == 0 {
        Seq::empty()
    } else {
        let rest = events_of_kind(events.drop_last(), kind);
        if event_kind(events.last()) == kind {
            rest.push(events.last())
        } else {
            rest
        }
    }
}

/// The order in which queued events reach the subscribers: channel by channel, in
/// the order of [`ResourceKind`], and in the order of queueing within a channel.
pub open spec fn relay_order<V>(events: Seq<SubscriptionEvent<V>>) -> Seq<SubscriptionEvent<V>> {
    events_of_kind(events, ResourceKind::ClusterConfiguration) + events_of_kind(
        events,
        ResourceKind::ClusterDeployment,
    ) + events_of_kind(events, ResourceKind::OldPeerConfiguration) + events_of_kind(
        events,
        ResourceKind::PeerConfiguration,
    ) + events_of_kind(events, ResourceKind::PeerDescriptor) + events_of_kind(
        events,
        ResourceKind::PeerState,
    )
}

/// Notifications queued during a transaction.
pub struct RelayedSubscriptionEvents<V> {
    events: Vec<SubscriptionEvent<V>>,
}

impl<V> RelayedSubscriptionEvents<V> {
    /// The queued events, in the order of queueing.
    pub closed spec fn view(self) -> Seq<SubscriptionEvent<V>> {
        self.events@
    }

    /// No events.
    pub fn new() -> (r: Self)
        ensures
            r@ == Seq::<SubscriptionEvent<V>>::empty(),
    {
        RelayedSubscriptionEvents { events: Vec::new() }
    }

    /// Queues `event`.
    pub fn notify(&mut self, event: SubscriptionEvent<V>)
        ensures
            final(self)@ == old(self)@.push(event),
    {
        self.events.push(event);
    }

    /// The queued events, in the order in which they reach the subscribers (see
    /// [`relay_order`]).
    pub fn into_relay_order(self) -> (r: Vec<SubscriptionEvent<V>>)
        ensures
            r@ == relay_order(self@),
    {
        let ghost all = self.events@;
        let mut events = self.events;
        let mut cluster_configuration: Vec<SubscriptionEvent<V>> = Vec::new();
        let mut cluster_deployment: Vec<SubscriptionEvent<V>> = Vec::new();
        let mut old_peer_configuration: Vec<SubscriptionEvent<V>> = Vec::new();
        let mut peer_configuration: Vec<SubscriptionEvent<V>> = Vec::new();
        let mut peer_descriptor: Vec<SubscriptionEvent<V>> = Vec::new();
        let mut peer_state: Vec<SubscriptionEvent<V>> = Vec::new();
        let ghost mut done: int = 0;
        while events.len() > 0
            invariant
                0 <= done <= all.len(),
                events@ == all.subrange(done, all.len() as int),
                cluster_configuration@ == events_of_kind(
                    all.take(done),
                    ResourceKind::ClusterConfiguration,
                ),
                cluster_deployment@ == events_of_kind(all.take(done), ResourceKind::ClusterDeployment),
                old_peer_configuration@ == events_of_kind(
                    all.take(done),
                    ResourceKind::OldPeerConfiguration,
                ),
                peer_configuration@ == events_of_kind(all.take(done), ResourceKind::PeerConfiguration),
                peer_descriptor@ == events_of_kind(all.take(done), ResourceKind::PeerDescriptor),
                peer_state@ == events_of_kind(all.take(done), ResourceKind::PeerState),
            decreases events.len(),
        {
            let event = events.remove(0);
            proof {
                assert(all.take(done + 1).drop_last() =~= all.take(done));
                assert(all.take(done + 1).last() == event);
                done = done + 1;
                assert(events@ =~= all.subrange(done, all.len() as int));
            }
            let kind = match &event {
                SubscriptionEvent::Inserted { key, .. } => key.kind,
            };
            match kind {
                ResourceKind::ClusterConfiguration => cluster_configuration.push(event),
                ResourceKind::ClusterDeployment => cluster_deployment.push(event),
                ResourceKind::OldPeerConfiguration => old_peer_configuration.push(event),
                ResourceKind::PeerConfiguration => peer_configuration.push(event),
                ResourceKind::PeerDescriptor => peer_descriptor.push(event),
                ResourceKind::PeerState => peer_state.push(event),
            }
        }
        assert(all.take(done) =~= all);
        let mut r = cluster_configuration;
        r.append(&mut cluster_deployment);
        r.append(&mut old_peer_configuration);
        r.append(&mut peer_configuration);
        r.append(&mut peer_descriptor);
        r.append(&mut peer_state);
        r
    }
}

/// The state of a transaction: the resources as changed so far, the record of
/// what each change replaced, and the resources as they were when it began.
struct TransactionState<V> {
    resources: ResourceMap<V>,
    undo: Vec<(ResourceKey, Option<V>)>,
    snapshot: Ghost<Map<ResourceKey, V>>,
}

impl<V> TransactionState<V> {
    /// Undoing the recorded changes gives the resources as they were at the start.
    spec fn consistent(self) -> bool {
        rolled_back(self.resources@, self.undo@) == self.snapshot@
    }

    fn begin(resources: ResourceMap<V>) -> (r: Self)
        ensures
            r.consistent(),
            r.resources@ == resources@,
            r.snapshot@ == resources@,
    {
        TransactionState { resources, undo: Vec::new(), snapshot: Ghost(resources@) }
    }

    fn empty() -> (r: Self)
        ensures
            r.consistent(),
    {
        let resources = ResourceMap::new();
        TransactionState { resources, undo: Vec::new(), snapshot: Ghost(resources@) }
    }

    fn insert(&mut self, key: ResourceKey, value: V)
        requires
            old(self).consistent(),
        ensures
            final(self).consistent(),
            final(self).resources@ == old(self).resources@.insert(key, value),
            final(self).snapshot == old(self).snapshot,
    {
        let ghost before = self.resources@;
        let replaced = self.resources.insert(key, value);
        self.undo.push((key, replaced));
        proof {
            lemma_restore_undoes(before, self.resources@, key);
            assert(self.undo@.drop_last() == old(self).undo@);
        }
    }

    fn remove(&mut self, key: ResourceKey) -> (r: Option<V>)
        where
            V: Clone,
        requires
            old(self).consistent(),
        ensures
            final(self).consistent(),
            final(self).resources@ == old(self).resources@.remove(key),
            final(self).snapshot == old(self).snapshot,
            match r {
                Some(v) => old(self).resources@.contains_key(key) && cloned::<V>(
                    old(self).resources@[key],
                    v,
                ),
                None => !old(self).resources@.contains_key(key),
            },
    {
        let ghost before = self.resources@;
        let removed = self.resources.remove(key);
        let r = match &removed {
            Some(v) => Some(v.clone()),
            None => None,
        };
        self.undo.push((key, removed));
        proof {
            lemma_restore_undoes(before, self.resources@, key);
            assert(self.undo@.drop_last() == old(self).undo@);
        }
        r
    }

    fn rollback(self) -> (r: ResourceMap<V>)
        requires
            self.consistent(),
        ensures
            r@ == self.snapshot@,
    {
        let mut resources = self.resources;
        let mut undo = self.undo;
        while undo.len() > 0
            invariant
                rolled_back(resources@, undo@) == self.snapshot@,
            decreases undo.len(),
        {
            let ghost before = undo@;
            let entry = undo.pop();
            match entry {
                Some((key, Some(v))) => {
                    resources.insert(key, v);
                },
                Some((key, None)) => {
                    resources.remove(key);
                },
                None => {},
            }
            assert(undo@ == before.drop_last());
        }
        resources
    }
}

/// A transaction on the database.
pub struct PersistentResourcesTransaction<V> {
    state: TransactionState<V>,
    relayed_subscription_events: RelayedSubscriptionEvents<V>,
}

/// A transaction on the in-memory storage.
pub struct VolatileResourcesTransaction<V> {
    state: TransactionState<V>,
    relayed_subscription_events: RelayedSubscriptionEvents<V>,
}

impl<V> PersistentResourcesTransaction<V> {
    #[verifier::type_invariant]
    spec fn consistent(self) -> bool {
        self.state.consistent()
    }

    /// A transaction on `resources`, with no events queued.
    pub(crate) fn begin(resources: ResourceMap<V>) -> (r: Self)
        ensures
            r@ == resources@,
            r.snapshot() == resources@,
            r.relayed() == Seq::<SubscriptionEvent<V>>::empty(),
    {
        PersistentResourcesTransaction { state: TransactionState::begin(resources), relayed_subscription_events: RelayedSubscriptionEvents::new() }
    }

    /// Ends the transaction, keeping its changes; hands out the resources and the
    /// queued events.
    pub(crate) fn commit(self) -> (r: (ResourceMap<V>, RelayedSubscriptionEvents<V>))
        ensures
            r.0@ == self@,
            r.1@ == self.relayed(),
    {
        let PersistentResourcesTransaction { state, relayed_subscription_events } = self;
        (state.resources, relayed_subscription_events)
    }

    /// Ends the transaction, undoing its changes; its events are dropped.
    pub(crate) fn rollback(self) -> (r: ResourceMap<V>)
        ensures
            r@ == self.snapshot(),
    {
        proof {
            use_type_invariant(&self);
        }
        let PersistentResourcesTransaction { state, relayed_subscription_events } = self;
        state.rollback()
    }

    /// Ends the transaction, handing out the events it queued; its changes are
    /// dropped with it.
    pub(crate) fn into_events(self) -> (r: RelayedSubscriptionEvents<V>)
        ensures
            r@ == self.relayed(),
    {
        let PersistentResourcesTransaction { state, relayed_subscription_events } = self;
        relayed_subscription_events
    }

    /// The resources as the transaction has changed them.
    pub closed spec fn view(self) -> Map<ResourceKey, V> {
        self.state.resources@
    }

    /// The resources as they were when the transaction began.
    pub closed spec fn snapshot(self) -> Map<ResourceKey, V> {
        self.state.snapshot@
    }

    /// The events that the transaction has queued.
    pub closed spec fn relayed(self) -> Seq<SubscriptionEvent<V>> {
        self.relayed_subscription_events@
    }

    /// The keys of the given kind, in the order in which [`list`](Self::list)
    /// gives their resources.
    pub closed spec fn keys_of_kind(self, kind: ResourceKind) -> Seq<ResourceKey> {
        self.state.resources.keys_of_kind(kind)
    }

    /// Stores `value` under `key`, unless the database refuses it (see
    /// [`persistent_insert_result`]).
    pub fn insert(&mut self, key: ResourceKey, value: V) -> (r: Result<(), PersistenceError>)
        ensures
            r == persistent_insert_result(old(self)@, key),
            final(self)@ == if r is Ok {
                old(self)@.insert(key, value)
            } else {
                old(self)@
            },
            final(self).snapshot() == old(self).snapshot(),
            final(self).relayed() == old(self).relayed(),
    {
        proof {
            use_type_invariant(&*self);
        }
        if let Some(referenced) = required_reference(key) {
            if self.state.resources.get(referenced).is_none() {
                return Err(PersistenceError::MissingReference { key, referenced });
            }
        }
        let mut state = TransactionState::empty();
        std::mem::swap(&mut state, &mut self.state);
        state.insert(key, value);
        self.state = state;
        Ok(())
    }

    /// Removes the resource stored under `key`, and hands out a clone of it.
    pub fn remove(&mut self, key: ResourceKey) -> (r: Result<Option<V>, PersistenceError>)
        where
            V: Clone,
        ensures
            final(self)@ == old(self)@.remove(key),
            final(self).snapshot() == old(self).snapshot(),
            final(self).relayed() == old(self).relayed(),
            match r {
                Ok(Some(v)) => old(self)@.contains_key(key) && cloned::<V>(old(self)@[key], v),
                Ok(None) => !old(self)@.contains_key(key),
                Err(_) => false,
            },
    {
        proof {
            use_type_invariant(&*self);
        }
        let mut state = TransactionState::empty();
        std::mem::swap(&mut state, &mut self.state);
        let r = state.remove(key);
        self.state = state;
        Ok(r)
    }

    /// The resource stored under `key`, if there is one.
    pub fn get(&self, key: ResourceKey) -> (r: Option<&V>)
        ensures
            match r {
                Some(v) => self@.contains_key(key) && *v == self@[key],
                None => !self@.contains_key(key),
            },
    {
        self.state.resources.get(key)
    }

    /// Clones of the resources of the given kind, as [`ResourceMap::list`] gives them.
    pub fn list(&self, kind: ResourceKind) -> (r: Vec<V>)
        where
            V: Clone,
        ensures
            r@.len() == self.keys_of_kind(kind).len(),
            forall|i: int|
                0 <= i < r@.len() ==> {
                    let k = #[trigger] self.keys_of_kind(kind)[i];
                    &&& k.kind == kind
                    &&& self@.contains_key(k)
                    &&& cloned::<V>(self@[k], r@[i])
                },
    {
        self.state.resources.list(kind)
    }

    /// Queues an event.
    pub(crate) fn notify(&mut self, event: SubscriptionEvent<V>)
        ensures
            final(self)@ == old(self)@,
            final(self).snapshot() == old(self).snapshot(),
            final(self).relayed() == old(self).relayed().push(event),
    {
        proof {
            use_type_invariant(&*self);
        }
        let mut events = RelayedSubscriptionEvents::new();
        std::mem::swap(&mut events, &mut self.relayed_subscription_events);
        events.notify(event);
        self.relayed_subscription_events = events;
    }
}

impl<V> VolatileResourcesTransaction<V> {
    #[verifier::type_invariant]
    spec fn consistent(self) -> bool {
        self.state.consistent()
    }

    /// A transaction on `resources`, with no events queued.
    pub(crate) fn begin(resources: ResourceMap<V>) -> (r: Self)
        ensures
            r@ == resources@,
            r.snapshot() == resources@,
            r.relayed() == Seq::<SubscriptionEvent<V>>::empty(),
    {
        VolatileResourcesTransaction { state: TransactionState::begin(resources), relayed_subscription_events: RelayedSubscriptionEvents::new() }
    }

    /// Ends the transaction, keeping its changes; hands out the resources and the
    /// queued events.
    pub(crate) fn commit(self) -> (r: (ResourceMap<V>, RelayedSubscriptionEvents<V>))
        ensures
            r.0@ == self@,
            r.1@ == self.relayed(),
    {
        let VolatileResourcesTransaction { state, relayed_subscription_events } = self;
        (state.resources, relayed_subscription_events)
    }

    /// Ends the transaction, undoing its changes; its events are dropped.
    pub(crate) fn rollback(self) -> (r: ResourceMap<V>)
        ensures
            r@ == self.snapshot(),
    {
        proof {
            use_type_invariant(&self);
        }
        let VolatileResourcesTransaction { state, relayed_subscription_events } = self;
        state.rollback()
    }

    /// Ends the transaction, handing out the events it queued; its changes are
    /// dropped with it.
    pub(crate) fn into_events(self) -> (r: RelayedSubscriptionEvents<V>)
        ensures
            r@ == self.relayed(),
    {
        let VolatileResourcesTransaction { state, relayed_subscription_events } = self;
        relayed_subscription_events
    }

    /// The resources as the transaction has changed them.
    pub closed spec fn view(self) -> Map<ResourceKey, V> {
        self.state.resources@
    }

    /// The resources as they were when the transaction began.
    pub closed spec fn snapshot(self) -> Map<ResourceKey, V> {
        self.state.snapshot@
    }

    /// The events that the transaction has queued.
    pub closed spec fn relayed(self) -> Seq<SubscriptionEvent<V>> {
        self.relayed_subscription_events@
    }

    /// The keys of the given kind, in the order in which [`list`](Self::list)
    /// gives their resources.
    pub closed spec fn keys_of_kind(self, kind: ResourceKind) -> Seq<ResourceKey> {
        self.state.resources.keys_of_kind(kind)
    }

    /// Stores `value` under `key`; memory refuses nothing.
    pub fn insert(&mut self, key: ResourceKey, value: V) -> (r: Result<(), PersistenceError>)
        ensures
            r == Ok::<(), PersistenceError>(()),
            final(self)@ == old(self)@.insert(key, value),
            final(self).snapshot() == old(self).snapshot(),
            final(self).relayed() == old(self).relayed(),
    {
        proof {
            use_type_invariant(&*self);
        }
        let mut state = TransactionState::empty();
        std::mem::swap(&mut state, &mut self.state);
        state.insert(key, value);
        self.state = state;
        Ok(())
    }

    /// Removes the resource stored under `key`, and hands out a clone of it.
    pub fn remove(&mut self, key: ResourceKey) -> (r: Result<Option<V>, PersistenceError>)
        where
            V: Clone,
        ensures
            final(self)@ == old(self)@.remove(key),
            final(self).snapshot() == old(self).snapshot(),
            final(self).relayed() == old(self).relayed(),
            match r {
                Ok(Some(v)) => old(self)@.contains_key(key) && cloned::<V>(old(self)@[key], v),
                Ok(None) => !old(self)@.contains_key(key),
                Err(_) => false,
            },
    {
        proof {
            use_type_invariant(&*self);
        }
        let mut state = TransactionState::empty();
        std::mem::swap(&mut state, &mut self.state);
        let r = state.remove(key);
        self.state = state;
        Ok(r)
    }

    /// The resource stored under `key`, if there is one.
    pub fn get(&self, key: ResourceKey) -> (r: Option<&V>)
        ensures
            match r {
                Some(v) => self@.contains_key(key) && *v == self@[key],
                None => !self@.contains_key(key),
            },
    {
        self.state.resources.get(key)
    }

    /// Clones of the resources of the given kind, as [`ResourceMap::list`] gives them.
    pub fn list(&self, kind: ResourceKind) -> (r: Vec<V>)
        where
            V: Clone,
        ensures
            r@.len() == self.keys_of_kind(kind).len(),
            forall|i: int|
                0 <= i < r@.len() ==> {
                    let k = #[trigger] self.keys_of_kind(kind)[i];
                    &&& k.kind == kind
                    &&& self@.contains_key(k)
                    &&& cloned::<V>(self@[k], r@[i])
                },
    {
        self.state.resources.list(kind)
    }

    /// Queues an event.
    pub(crate) fn notify(&mut self, event: SubscriptionEvent<V>)
        ensures
            final(self)@ == old(self)@,
            final(self).snapshot() == old(self).snapshot(),
            final(self).relayed() == old(self).relayed().push(event),
    {
        proof {
            use_type_invariant(&*self);
        }
        let mut events = RelayedSubscriptionEvents::new();
        std::mem::swap(&mut events, &mut self.relayed_subscription_events);
        events.notify(event);
        self.relayed_subscription_events = events;
    }
}

} // verus!
