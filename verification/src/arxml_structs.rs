//! Data extracted from an ARXML description that a restbus simulation needs.

use std::collections::HashMap;

use vstd::prelude::*;

verus! {

/// The initial value(s) that an ISignal carries.
#[derive(Debug)]
pub enum InitValues {
    /// One numerical value.
    Single(u64),
    /// One value per byte of the signal.
    Array(Vec<u64>),
    /// The signal defines no initial value.
    NotExist(bool),
}

/// An ISignal placed in a PDU.
#[derive(Debug)]
pub struct ISignal {
    pub name: String,
    /// `true` for big endian (most significant byte first).
    pub byte_order: bool,
    /// Position of the signal's first bit in the PDU.
    pub start_pos: u64,
    /// Length of the signal in bits.
    pub length: u64,
    pub init_values: InitValues,
}

/// End-to-end protection properties of a signal group.
#[derive(Debug)]
pub struct E2EDataTransformationProps {
    pub transformer_name: String,
    pub data_id: u64,
    pub data_length: u64,
}

/// A group of ISignals that are transmitted together.
#[derive(Debug)]
pub struct ISignalGroup {
    pub name: String,
    pub isignals: Vec<ISignal>,
    pub data_transformations: Vec<String>,
    pub transformation_props: Vec<E2EDataTransformationProps>,
}

/// The tolerance of a time range. Floating-point numbers are held as their
/// IEEE-754 bit patterns.
#[derive(Clone, Copy, Debug, PartialEq, Eq, Structural)]
pub enum TimeRangeTolerance {
    Absolute(u64),
    Relative(u64),
}

/// A time value in seconds with its tolerance. `value` is the IEEE-754 bit
/// pattern of the number of seconds.
#[derive(Clone, Copy, Debug, PartialEq, Eq, Structural)]
pub struct TimeRange {
    pub tolerance: Option<TimeRangeTolerance>,
    pub value: u64,
}

/// An ISignalIPdu with its timing. The `*_value` fields hold the IEEE-754 bit
/// patterns of times in seconds.
#[derive(Debug)]
pub struct ISignalIPdu {
    pub cyclic_timing_period_value: u64,
    pub cyclic_timing_period_tolerance: Option<TimeRangeTolerance>,
    pub cyclic_timing_offset_value: u64,
    pub cyclic_timing_offset_tolerance: Option<TimeRangeTolerance>,
    pub number_of_repetitions: u64,
    pub repetition_period_value: u64,
    pub repetition_period_tolerance: Option<TimeRangeTolerance>,
    pub unused_bit_pattern: bool,
    pub ungrouped_signals: Vec<ISignal>,
    pub grouped_signals: Vec<ISignalGroup>,
}

/// A network management PDU.
#[derive(Debug)]
pub struct NmPdu {
    pub unused_bit_pattern: bool,
    pub ungrouped_signals: Vec<ISignal>,
    pub grouped_signals: Vec<ISignalGroup>,
}

#[derive(Debug)]
pub enum Pdu {
    ISignalIPdu(ISignalIPdu),
    NmPdu(NmPdu),
}

/// A PDU as it is mapped into a frame.
#[derive(Debug)]
pub struct PduMapping {
    pub name: String,
    /// `true` for big endian.
    pub byte_order: bool,
    /// Length of the PDU in bytes.
    pub length: u64,
    pub dynamic_length: String,
    pub category: String,
    pub contained_header_id_short: String,
    pub contained_header_id_long: String,
    pub pdu: Pdu,
}

/// A CAN frame as it is triggered on a physical channel.
#[derive(Debug)]
pub struct CanFrameTriggering {
    pub frame_triggering_name: String,
    pub frame_name: String,
    pub can_id: u64,
    pub can_29_bit_addressing: bool,
    pub frame_rx_behavior: bool,
    pub frame_tx_behavior: bool,
    pub rx_range_lower: u64,
    pub rx_range_upper: u64,
    pub receiver_ecus: Vec<String>,
    pub sender_ecus: Vec<String>,
    pub frame_length: u64,
    pub pdu_mappings: Vec<PduMapping>,
}

/// A CAN cluster with its frame triggerings, keyed by CAN id.
#[derive(Debug)]
pub struct CanCluster {
    pub name: String,
    pub baudrate: u64,
    pub canfd_baudrate: u64,
    pub can_frame_triggerings: HashMap<u64, CanFrameTriggering>,
}

/// The interval between two transmissions of a frame.
#[derive(Clone, Copy, Debug, PartialEq, Eq, Structural)]
pub enum FrameInterval {
    /// A period in seconds, as the IEEE-754 bit pattern of the number of seconds.
    Seconds(u64),
    /// A period in whole seconds and microseconds.
    Exact { tv_sec: u64, tv_usec: u64 },
}

/// A CAN frame that the restbus simulation sends periodically: `count` times
/// every `ival1`, then every `ival2`.
#[derive(Debug)]
pub struct TimedCanFrame {
    pub count: u32,
    pub ival1: FrameInterval,
    pub ival2: FrameInterval,
    pub can_id: u32,
    pub len: u8,
    pub can_29_bit_addressing: bool,
    pub frame_tx_behavior: bool,
    pub data: Vec<u8>,
}

/// CAN clusters keyed by their names: no two clusters have the same name.
pub struct CanClusters {
    clusters: Vec<CanCluster>,
}

impl CanClusters {
    #[verifier::type_invariant]
    spec fn names_unique(self) -> bool {
        forall|i: int, j: int|
            0 <= i < j < self.clusters@.len() ==> self.clusters@[i].name@ != self.clusters@[j].name@
    }

    /// The clusters in the order in which they were first inserted.
    pub closed spec fn entries(self) -> Seq<CanCluster> {
        self.clusters@
    }

    pub open spec fn has_name(self, name: Seq<char>) -> bool {
        exists|i: int| 0 <= i < self.entries().len() && (#[trigger] self.entries()[i]).name@ == name
    }

    /// The cluster named `name`, if there is one.
    pub open spec fn lookup(self, name: Seq<char>) -> Option<CanCluster> {
        if self.has_name(name) {
            Some(
                self.entries()[choose|i: int|
                    0 <= i < self.entries().len() && (#[trigger] self.entries()[i]).name@ == name],
            )
        } else {
            None
        }
    }

    proof fn lemma_names_unique(&self)
        requires
            self.names_unique(),
        ensures
            forall|i: int, j: int|
                0 <= i < self.entries().len() && 0 <= j < self.entries().len() && i != j
                    ==> (#[trigger] self.entries()[i]).name@ != (#[trigger] self.entries()[j]).name@,
    {
        assert forall|i: int, j: int|
            0 <= i < self.entries().len() && 0 <= j < self.entries().len() && i != j
            implies (#[trigger] self.entries()[i]).name@ != (#[trigger] self.entries()[j]).name@ by {
            if i > j {
                assert(self.clusters@[j].name@ != self.clusters@[i].name@);
            }
        }
    }

    /// No cluster.
    pub fn new() -> (r: Self)
        ensures
            r.entries() == Seq::<CanCluster>::empty(),
    {
        CanClusters { clusters: Vec::new() }
    }

    /// The number of clusters.
    pub fn len(&self) -> (n: usize)
        ensures
            n == self.entries().len(),
    {
        self.clusters.len()
    }

    /// The clusters, in the order in which they were first inserted.
    pub fn clusters(&self) -> (r: &Vec<CanCluster>)
        ensures
            r@ == self.entries(),
    {
        &self.clusters
    }

    /// Position of the cluster named `name`, if there is one.
    fn position(&self, name: &String) -> (r: Option<usize>)
        ensures
            match r {
                Some(i) => i < self.entries().len() && self.entries()[i as int].name@ == name@,
                None => !self.has_name(name@),
            },
    {
        let mut i: usize = 0;
        while i < self.clusters.len()
            invariant
                i <= self.clusters@.len(),
                forall|j: int| 0 <= j < i ==> self.clusters@[j].name@ != name@,
            decreases self.clusters.len() - i,
        {
            if self.clusters[i].name == *name {
                return Some(i);
            }
            i = i + 1;
        }
        None
    }

    /// The cluster named `name`, if there is one.
    pub fn get(&self, name: &String) -> (r: Option<&CanCluster>)
        ensures
            match r {
                Some(c) => self.lookup(name@) == Some(*c),
                None => self.lookup(name@) is None,
            },
    {
        proof {
            use_type_invariant(self);
            self.lemma_names_unique();
        }
        match self.position(name) {
            Some(i) => {
                assert(self.has_name(name@));
                Some(&self.clusters[i])
            },
            None => None,
        }
    }

    /// Inserts `cluster`, replacing the cluster of the same name if there is one.
    pub fn insert(&mut self, cluster: CanCluster)
        ensures
            forall|n: Seq<char>| #[trigger]
                final(self).lookup(n) == if n == cluster.name@ {
                    Some(cluster)
                } else {
                    old(self).lookup(n)
                },
            old(self).has_name(cluster.name@) ==> final(self).entries().len() == old(self).entries().len(),
            !old(self).has_name(cluster.name@) ==> final(self).entries() == old(self).entries().push(cluster),
            forall|i: int|
                0 <= i < final(self).entries().len() ==> #[trigger] final(self).entries()[i] == cluster
                    || old(self).entries().contains(final(self).entries()[i]),
    {
        proof {
            use_type_invariant(&*self);
            self.lemma_names_unique();
        }
        let ghost old_entries = self.clusters@;
        let name = cluster.name.clone();
        let position = self.position(&name);
        let mut clusters: Vec<CanCluster> = Vec::new();
        std::mem::swap(&mut clusters, &mut self.clusters);
        match position {
            Some(i) => {
                clusters.set(i, cluster);
            },
            None => {
                clusters.push(cluster);
            },
        }
        self.clusters = clusters;
        proof {
            use_type_invariant(&*self);
            self.lemma_names_unique();
        }
        assert forall|i: int| 0 <= i < self.entries().len() implies #[trigger] self.entries()[i]
            == cluster || old_entries.contains(self.entries()[i]) by {
            if self.entries()[i] != cluster {
                assert(old_entries[i] == self.entries()[i]);
            }
        }
        assert forall|n: Seq<char>| #[trigger]
            self.lookup(n) == if n == cluster.name@ {
                Some(cluster)
            } else {
                old(self).lookup(n)
            } by {
            if n == cluster.name@ {
                let i = choose|i: int|
                    0 <= i < self.entries().len() && (#[trigger] self.entries()[i]).name@ == n;
                assert(self.has_name(n)) by {
                    let k = if old(self).has_name(n) {
                        choose|k: int| 0 <= k < old_entries.len() && (#[trigger] old_entries[k]).name@ == n
                    } else {
                        old_entries.len() as int
                    };
                    assert(self.entries()[k].name@ == n);
                }
            } else {
                if old(self).has_name(n) {
                    let k = choose|k: int|
                        0 <= k < old_entries.len() && (#[trigger] old_entries[k]).name@ == n;
                    assert(self.entries()[k] == old_entries[k]);
                    assert(self.has_name(n));
                } else {
                    if self.has_name(n) {
                        let k = choose|k: int|
                            0 <= k < self.entries().len() && (#[trigger] self.entries()[k]).name@ == n;
                        assert(old_entries[k] == self.entries()[k]);
                    }
                }
            }
        }
    }
}

} // verus!
