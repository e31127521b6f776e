use std::collections::HashMap;

use opendut::arxml_structs::{CanCluster, CanClusters};
use opendut::string_map::StringMap;

#[test]
fn string_map_keeps_one_entry_per_key_in_insertion_order() {
    let mut m: StringMap<u32> = StringMap::new();
    m.insert(String::from("b"), 1);
    m.insert(String::from("a"), 2);
    m.insert(String::from("b"), 3);
    assert_eq!(m.len(), 2);
    assert_eq!(m.get(&String::from("b")), Some(&3));
    assert_eq!(m.get(&String::from("a")), Some(&2));
    assert_eq!(m.get(&String::from("c")), None);
    assert_eq!(m.remove(&String::from("a")), Some(2));
    assert_eq!(m.remove(&String::from("a")), None);
    assert_eq!(m.get(&String::from("a")), None);
    m.insert(String::from("c"), 4);
    let entries = m.into_entries();
    assert_eq!(entries, vec![(String::from("b"), 3), (String::from("c"), 4)]);
}

fn cluster(name: &str, baudrate: u64) -> CanCluster {
    CanCluster {
        name: String::from(name),
        baudrate,
        canfd_baudrate: 0,
        can_frame_triggerings: HashMap::new(),
    }
}

#[test]
fn clusters_are_keyed_by_name() {
    let mut clusters = CanClusters::new();
    clusters.insert(cluster("Cluster0", 500000));
    clusters.insert(cluster("Cluster1", 250000));
    clusters.insert(cluster("Cluster0", 125000));
    assert_eq!(clusters.len(), 2);
    assert_eq!(clusters.get(&String::from("Cluster0")).unwrap().baudrate, 125000);
    assert_eq!(clusters.get(&String::from("Cluster1")).unwrap().baudrate, 250000);
    assert!(clusters.get(&String::from("Cluster2")).is_none());
    assert_eq!(clusters.clusters()[0].name, "Cluster0");
}
