use opendut::manager::ResourcesManager;
use opendut::resource_map::{ResourceKey, ResourceKind, ResourceMap};
use opendut::resources::{PersistenceError, RelayedSubscriptionEvents, SubscriptionEvent};
use opendut::storage::{
    PersistentResourcesStorage, Resources, ResourcesTransaction, VolatileResourcesStorage,
};

fn key(kind: ResourceKind, id: u128) -> ResourceKey {
    ResourceKey { kind, id }
}

fn in_memory() -> ResourcesManager<String> {
    ResourcesManager::new(Resources::Volatile(VolatileResourcesStorage::new()))
}

fn with_database() -> ResourcesManager<String> {
    ResourcesManager::new(Resources::Persistent(PersistentResourcesStorage::new()))
}

fn inserted(event: &SubscriptionEvent<String>) -> (ResourceKey, String) {
    match event {
        SubscriptionEvent::Inserted { key, value } => (*key, value.clone()),
    }
}

#[test]
fn test() {
    let mut testee = in_memory();

    let peer_resource_id = key(ResourceKind::PeerDescriptor, 0x1111);
    let peer = String::from("TestPeer in Ulm on eth0");
    let cluster_resource_id = key(ResourceKind::ClusterConfiguration, 0x2222);
    let cluster_configuration = String::from("ClusterX032 led by TestPeer");

    assert!(testee.list(ResourceKind::PeerDescriptor).is_empty());

    testee.insert(peer_resource_id, peer.clone()).unwrap();

    assert!(!testee.list(ResourceKind::PeerDescriptor).is_empty());

    testee.insert(cluster_resource_id, cluster_configuration.clone()).unwrap();

    assert_eq!(testee.get(peer_resource_id), Some(&peer));
    assert_eq!(testee.get(cluster_resource_id), Some(&cluster_configuration));

    assert_eq!(testee.get(key(ResourceKind::PeerDescriptor, 0x3333)), None);

    assert_eq!(testee.remove(peer_resource_id), Ok(Some(peer.clone())));

    testee.insert(peer_resource_id, peer.clone()).unwrap();

    assert_eq!(testee.get(peer_resource_id), Some(&peer));

    for cluster in testee.list(ResourceKind::ClusterConfiguration) {
        assert_eq!(cluster, cluster_configuration);
    }
}

#[test]
fn should_rollback_from_an_error_during_a_transaction() {
    let mut resources_manager = with_database();

    let peer_id = key(ResourceKind::PeerDescriptor, 7);
    let peer = String::from("peer");

    assert!(resources_manager.get(peer_id).is_none());

    let non_existent_cluster_id = 99;
    let result = resources_manager.resources_mut(|mut resources: ResourcesTransaction<String>| {
        let outcome = (|| {
            resources.insert(peer_id, peer.clone())?; // will be rolled back
            assert!(resources.get(peer_id).is_some());
            // fails because no cluster with that id was created
            resources.insert(
                key(ResourceKind::ClusterDeployment, non_existent_cluster_id),
                String::from("deployment"),
            )?;
            Ok::<_, PersistenceError>(())
        })();
        (resources, outcome)
    });

    assert_eq!(
        result,
        Err(PersistenceError::MissingReference {
            key: key(ResourceKind::ClusterDeployment, non_existent_cluster_id),
            referenced: key(ResourceKind::ClusterConfiguration, non_existent_cluster_id),
        })
    );

    assert!(resources_manager.get(peer_id).is_none()); // database rolled back due to error
    assert!(resources_manager.drain_published().is_empty());
}

#[test]
fn committed_transaction_publishes_events_channel_by_channel() {
    let mut manager = with_database();
    let peer = key(ResourceKind::PeerDescriptor, 1);
    let cluster = key(ResourceKind::ClusterConfiguration, 2);
    let deployment = key(ResourceKind::ClusterDeployment, 2);
    let result = manager.resources_mut(|mut resources: ResourcesTransaction<String>| {
        let outcome = (|| {
            resources.insert(peer, String::from("p"))?;
            resources.insert(cluster, String::from("c"))?;
            resources.insert(deployment, String::from("d"))?;
            Ok::<u32, PersistenceError>(3)
        })();
        (resources, outcome)
    });
    assert_eq!(result, Ok(3));
    assert_eq!(manager.get(deployment), Some(&String::from("d")));
    let published: Vec<(ResourceKey, String)> =
        manager.drain_published().iter().map(inserted).collect();
    assert_eq!(
        published,
        vec![
            (cluster, String::from("c")),
            (deployment, String::from("d")),
            (peer, String::from("p")),
        ]
    );
    assert!(manager.drain_published().is_empty());
}

#[test]
fn database_refuses_a_deployment_without_its_cluster() {
    let mut manager = with_database();
    let deployment = key(ResourceKind::ClusterDeployment, 5);
    let r = manager.insert(deployment, String::from("d"));
    assert_eq!(
        r,
        Err(PersistenceError::MissingReference {
            key: deployment,
            referenced: key(ResourceKind::ClusterConfiguration, 5),
        })
    );
    assert!(manager.get(deployment).is_none());
    assert!(manager.drain_published().is_empty());
    manager.insert(key(ResourceKind::ClusterConfiguration, 5), String::from("c")).unwrap();
    manager.insert(deployment, String::from("d")).unwrap();
    assert_eq!(manager.drain_published().len(), 2);
}

#[test]
fn memory_accepts_a_deployment_without_its_cluster() {
    let mut manager = in_memory();
    let deployment = key(ResourceKind::ClusterDeployment, 5);
    assert_eq!(manager.insert(deployment, String::from("d")), Ok(()));
    let published: Vec<(ResourceKey, String)> =
        manager.drain_published().iter().map(inserted).collect();
    assert_eq!(published, vec![(deployment, String::from("d"))]);
}

#[test]
fn removal_publishes_nothing() {
    let mut manager = in_memory();
    let peer = key(ResourceKind::PeerState, 3);
    manager.insert(peer, String::from("up")).unwrap();
    manager.drain_published();
    assert_eq!(manager.remove(peer), Ok(Some(String::from("up"))));
    assert_eq!(manager.remove(peer), Ok(None));
    assert!(manager.drain_published().is_empty());
}

#[test]
fn rollback_restores_inserted_replaced_and_removed_resources() {
    let mut storage = VolatileResourcesStorage::new();
    storage.insert(key(ResourceKind::PeerState, 1), String::from("one")).unwrap();
    storage.insert(key(ResourceKind::PeerState, 2), String::from("two")).unwrap();
    let mut transaction = Resources::Volatile(storage).transaction_begin();
    transaction.insert(key(ResourceKind::PeerState, 1), String::from("uno")).unwrap();
    assert_eq!(transaction.remove(key(ResourceKind::PeerState, 2)), Ok(Some(String::from("two"))));
    transaction.insert(key(ResourceKind::PeerState, 3), String::from("three")).unwrap();
    transaction.insert(key(ResourceKind::PeerState, 3), String::from("tres")).unwrap();
    assert_eq!(transaction.list(ResourceKind::PeerState).len(), 2);
    let restored = transaction.rollback();
    assert_eq!(restored.get(key(ResourceKind::PeerState, 1)), Some(&String::from("one")));
    assert_eq!(restored.get(key(ResourceKind::PeerState, 2)), Some(&String::from("two")));
    assert_eq!(restored.get(key(ResourceKind::PeerState, 3)), None);
}

#[test]
fn commit_keeps_changes_and_hands_out_events() {
    let transaction_storage = Resources::Persistent(PersistentResourcesStorage::new());
    let mut transaction = transaction_storage.transaction_begin();
    transaction.insert(key(ResourceKind::PeerDescriptor, 1), String::from("p")).unwrap();
    let (resources, events) = transaction.commit();
    assert_eq!(resources.get(key(ResourceKind::PeerDescriptor, 1)), Some(&String::from("p")));
    let relayed: Vec<(ResourceKey, String)> = events.into_relay_order().iter().map(inserted).collect();
    assert_eq!(relayed, vec![(key(ResourceKind::PeerDescriptor, 1), String::from("p"))]);
}

#[test]
fn transaction_constructors_and_events() {
    let persistent = Resources::Persistent(PersistentResourcesStorage::<String>::new()).transaction_begin();
    let events = persistent.into_relayed_subscription_events();
    assert!(events.into_relay_order().is_empty());
    let mut volatile = Resources::Volatile(VolatileResourcesStorage::new()).transaction_begin();
    assert!(matches!(volatile, ResourcesTransaction::Volatile(_)));
    volatile.insert(key(ResourceKind::PeerState, 1), String::from("x")).unwrap();
    let events = volatile.into_relayed_subscription_events();
    assert_eq!(events.into_relay_order().len(), 1);
}

#[test]
fn relay_order_groups_by_channel_and_keeps_order_within() {
    let mut events = RelayedSubscriptionEvents::new();
    let e = |kind, id: u128, v: &str| SubscriptionEvent::Inserted { key: key(kind, id), value: String::from(v) };
    events.notify(e(ResourceKind::PeerState, 1, "s1"));
    events.notify(e(ResourceKind::ClusterConfiguration, 2, "c1"));
    events.notify(e(ResourceKind::PeerState, 3, "s2"));
    events.notify(e(ResourceKind::OldPeerConfiguration, 4, "o1"));
    events.notify(e(ResourceKind::ClusterConfiguration, 5, "c2"));
    let order: Vec<String> = events.into_relay_order().iter().map(|ev| inserted(ev).1).collect();
    assert_eq!(order, vec!["c1", "c2", "o1", "s1", "s2"]);
}

#[test]
fn resource_map_counts_replaces_and_lists_by_kind() {
    let mut m: ResourceMap<u32> = ResourceMap::new();
    assert_eq!(m.insert(key(ResourceKind::PeerState, 1), 10), None);
    assert_eq!(m.insert(key(ResourceKind::PeerDescriptor, 1), 20), None);
    assert_eq!(m.insert(key(ResourceKind::PeerState, 1), 11), Some(10));
    assert_eq!(m.len(), 2);
    assert_eq!(m.list(ResourceKind::PeerState), vec![11]);
    assert_eq!(m.remove(key(ResourceKind::PeerDescriptor, 1)), Some(20));
    assert_eq!(m.len(), 1);
    assert_eq!(m.get(key(ResourceKind::PeerDescriptor, 1)), None);
}

#[test]
fn failed_transaction_keeps_the_stored_resources_whatever_it_hands_back() {
    let mut manager = in_memory();
    let peer = key(ResourceKind::PeerDescriptor, 3);
    assert_eq!(manager.insert(peer, String::from("kept")), Ok(()));
    manager.drain_published();
    let result = manager.resources_mut(|mut resources: ResourcesTransaction<String>| {
        assert_eq!(resources.remove(peer), Ok(Some(String::from("kept"))));
        let fresh = Resources::Volatile(VolatileResourcesStorage::new()).transaction_begin();
        (fresh, Err::<(), &str>("refused"))
    });
    assert_eq!(result, Err("refused"));
    assert_eq!(manager.get(peer), Some(&String::from("kept")));
    assert!(manager.drain_published().is_empty());
}
