//! The frames that a restbus simulation sends, derived from the CAN frame
//! triggerings of a cluster.

use vstd::prelude::*;
use vstd::std_specs::iter::IteratorSpec;

use crate::arxml_structs::{
    CanClusters, CanFrameTriggering, FrameInterval, ISignal, ISignalGroup, Pdu, PduMapping,
    TimedCanFrame,
};
use crate::init_values::{
    extract_init_values, is_first_failure, pdu_init_bytes, pdu_signals, signal_error,
    signals_fit, some_signal_fails, written_signals_fit, InitValueError,
};

verus! {

pub open spec fn mapping_unused_bit_pattern(m: PduMapping) -> bool {
    match m.pdu {
        Pdu::ISignalIPdu(p) => p.unused_bit_pattern,
        Pdu::NmPdu(p) => p.unused_bit_pattern,
    }
}

pub open spec fn mapping_ungrouped(m: PduMapping) -> Seq<ISignal> {
    match m.pdu {
        Pdu::ISignalIPdu(p) => p.ungrouped_signals@,
        Pdu::NmPdu(p) => p.ungrouped_signals@,
    }
}

pub open spec fn mapping_grouped(m: PduMapping) -> Seq<ISignalGroup> {
    match m.pdu {
        Pdu::ISignalIPdu(p) => p.grouped_signals@,
        Pdu::NmPdu(p) => p.grouped_signals@,
    }
}

/// The signals of the mapped PDU in the order in which their init values are written.
pub open spec fn mapping_signals(m: PduMapping) -> Seq<ISignal> {
    pdu_signals(mapping_ungrouped(m), mapping_grouped(m))
}

/// Computing the init values of the mapped PDU cannot run out of the PDU's bits.
pub open spec fn mapping_well_placed(m: PduMapping) -> bool {
    &&& (m.length <= usize::MAX ==> m.length * 8 <= usize::MAX)
    &&& written_signals_fit(mapping_signals(m), m.length as nat * 8)
}

/// Computing the init values of the mapped PDU fails.
pub open spec fn mapping_fails(m: PduMapping) -> bool {
    m.length > usize::MAX || some_signal_fails(mapping_signals(m))
}

/// The error that computing the init values of a failing mapped PDU reports.
pub open spec fn mapping_error(m: PduMapping) -> InitValueError {
    if m.length > usize::MAX {
        InitValueError::ValueTooLarge
    } else {
        let sigs = mapping_signals(m);
        signal_error(sigs[choose|i: int| is_first_failure(sigs, i)])
    }
}

pub open spec fn mapping_init_bytes(m: PduMapping) -> Seq<u8> {
    pdu_init_bytes(
        mapping_unused_bit_pattern(m),
        mapping_ungrouped(m),
        mapping_grouped(m),
        m.length as nat,
        m.byte_order,
    )
}

/// Number of repetitions of the mapped PDU.
pub open spec fn mapping_count(m: PduMapping) -> u32 {
    match m.pdu {
        Pdu::ISignalIPdu(p) => p.number_of_repetitions as u32,
        Pdu::NmPdu(_) => 0,
    }
}

/// The interval between repetitions of the mapped PDU.
pub open spec fn mapping_ival1(m: PduMapping) -> FrameInterval {
    match m.pdu {
        Pdu::ISignalIPdu(p) => FrameInterval::Seconds(p.repetition_period_value),
        Pdu::NmPdu(_) => FrameInterval::Exact { tv_sec: 0, tv_usec: 0 },
    }
}

/// The cycle time of the mapped PDU: a network management PDU is sent every 100 ms.
pub open spec fn mapping_ival2(m: PduMapping) -> FrameInterval {
    match m.pdu {
        Pdu::ISignalIPdu(p) => FrameInterval::Seconds(p.cyclic_timing_period_value),
        Pdu::NmPdu(_) => FrameInterval::Exact { tv_sec: 0, tv_usec: 100000 },
    }
}

/// `f` is the frame that the triggering `t` sends for its mapped PDU `m`.
pub open spec fn is_frame_of(f: TimedCanFrame, t: CanFrameTriggering, m: PduMapping) -> bool {
    &&& f.count == mapping_count(m)
    &&& f.ival1 == mapping_ival1(m)
    &&& f.ival2 == mapping_ival2(m)
    &&& f.can_id == t.can_id as u32
    &&& f.len == t.frame_length as u8
    &&& f.can_29_bit_addressing == t.can_29_bit_addressing
    &&& f.frame_tx_behavior == t.frame_tx_behavior
    &&& f.data@ == mapping_init_bytes(m)
}

/// `frames` are the frames of the first `n` mapped PDUs of `t`.
pub open spec fn frames_of_first(frames: Seq<TimedCanFrame>, t: CanFrameTriggering, n: int) -> bool {
    &&& frames.len() == n
    &&& forall|k: int| 0 <= k < n ==> is_frame_of(#[trigger] frames[k], t, t.pdu_mappings@[k])
}

/// `frames` are the frames of all mapped PDUs of `t`.
pub open spec fn frames_of(frames: Seq<TimedCanFrame>, t: CanFrameTriggering) -> bool {
    frames_of_first(frames, t, t.pdu_mappings@.len() as int)
}

pub open spec fn triggering_well_placed(t: CanFrameTriggering) -> bool {
    forall|k: int| 0 <= k < t.pdu_mappings@.len() ==> mapping_well_placed(#[trigger] t.pdu_mappings@[k])
}

pub open spec fn triggering_fails(t: CanFrameTriggering) -> bool {
    exists|k: int| 0 <= k < t.pdu_mappings@.len() && mapping_fails(#[trigger] t.pdu_mappings@[k])
}

/// Mapping `k` is the first whose init values cannot be computed, and `e` is the error.
pub open spec fn first_failing_mapping(t: CanFrameTriggering, k: int, e: InitValueError) -> bool {
    &&& 0 <= k < t.pdu_mappings@.len()
    &&& mapping_fails(t.pdu_mappings@[k])
    &&& forall|j: int| 0 <= j < k ==> !mapping_fails(#[trigger] t.pdu_mappings@[j])
    &&& e == mapping_error(t.pdu_mappings@[k])
}

proof fn lemma_first_failure_unique(sigs: Seq<ISignal>, i: int)
    requires
        is_first_failure(sigs, i),
    ensures
        (choose|j: int| is_first_failure(sigs, j)) == i,
{
    let j = choose|j: int| is_first_failure(sigs, j);
    if j < i {
        assert(is_first_failure(sigs, j));
    } else if j > i {
        assert(is_first_failure(sigs, j));
    }
}

/// Appends to `timed_can_frames` one frame for each PDU mapped into the frame of
/// `can_frame_triggering`, in the order of the mappings.
pub fn get_timed_can_frame(
    can_frame_triggering: &CanFrameTriggering,
    timed_can_frames: &mut Vec<TimedCanFrame>,
) -> (result: Result<(), InitValueError>)
    requires
        triggering_well_placed(*can_frame_triggering),
    ensures
        final(timed_can_frames)@.len() >= old(timed_can_frames)@.len(),
        final(timed_can_frames)@.subrange(0, old(timed_can_frames)@.len() as int) == old(
            timed_can_frames,
        )@,
        match result {
            Ok(()) => {
                &&& !triggering_fails(*can_frame_triggering)
                &&& frames_of(
                    final(timed_can_frames)@.skip(old(timed_can_frames)@.len() as int),
                    *can_frame_triggering,
                )
            },
            Err(e) => exists|k: int|
                #![trigger first_failing_mapping(*can_frame_triggering, k, e)]
                first_failing_mapping(*can_frame_triggering, k, e) && frames_of_first(
                    final(timed_can_frames)@.skip(old(timed_can_frames)@.len() as int),
                    *can_frame_triggering,
                    k,
                ),
        },
{
    let t = can_frame_triggering;
    let can_id: u32 = #[verifier::truncate] (t.can_id as u32);
    let len: u8 = #[verifier::truncate] (t.frame_length as u8);
    let addressing_mode: bool = t.can_29_bit_addressing;
    let frame_tx_behavior: bool = t.frame_tx_behavior;
    let ghost start = timed_can_frames@;
    let mut k: usize = 0;
    while k < t.pdu_mappings.len()
        invariant
            k <= t.pdu_mappings.len(),
            triggering_well_placed(*t),
            *t == *can_frame_triggering,
            can_id == t.can_id as u32,
            len == t.frame_length as u8,
            addressing_mode == t.can_29_bit_addressing,
            frame_tx_behavior == t.frame_tx_behavior,
            start == old(timed_can_frames)@,
            timed_can_frames@.len() >= start.len(),
            timed_can_frames@.subrange(0, start.len() as int) == start,
            frames_of_first(timed_can_frames@.skip(start.len() as int), *t, k as int),
            forall|j: int| 0 <= j < k ==> !mapping_fails(#[trigger] t.pdu_mappings@[j]),
        decreases t.pdu_mappings.len() - k,
    {
        let pdu_mapping = &t.pdu_mappings[k];
        assert(mapping_well_placed(t.pdu_mappings@[k as int]));
        let mut count: u32 = 0;
        let ival1: FrameInterval;
        let ival2: FrameInterval;
        let extracted = match &pdu_mapping.pdu {
            Pdu::ISignalIPdu(pdu) => {
                count = #[verifier::truncate] (pdu.number_of_repetitions as u32);
                ival1 = FrameInterval::Seconds(pdu.repetition_period_value);
                ival2 = FrameInterval::Seconds(pdu.cyclic_timing_period_value);
                extract_init_values(
                    pdu.unused_bit_pattern,
                    &pdu.ungrouped_signals,
                    &pdu.grouped_signals,
                    pdu_mapping.length,
                    &pdu_mapping.byte_order,
                )
            },
            Pdu::NmPdu(pdu) => {
                ival1 = FrameInterval::Exact { tv_sec: 0, tv_usec: 0 };
                ival2 = FrameInterval::Exact { tv_sec: 0, tv_usec: 100000 };
                extract_init_values(
                    pdu.unused_bit_pattern,
                    &pdu.ungrouped_signals,
                    &pdu.grouped_signals,
                    pdu_mapping.length,
                    &pdu_mapping.byte_order,
                )
            },
        };
        let init_values = match extracted {
            Ok(v) => v,
            Err(e) => {
                proof {
                    let m = t.pdu_mappings@[k as int];
                    let sigs = mapping_signals(m);
                    if m.length <= usize::MAX {
                        let i = choose|i: int| is_first_failure(sigs, i) && e == signal_error(sigs[i]);
                        lemma_first_failure_unique(sigs, i);
                        assert(some_signal_fails(sigs));
                    }
                    assert(first_failing_mapping(*t, k as int, e));
                    assert(first_failing_mapping(*t, k as int, e) && frames_of_first(
                        timed_can_frames@.skip(start.len() as int),
                        *t,
                        k as int,
                    ));
                }
                return Err(e);
            },
        };
        let frame = TimedCanFrame {
            count,
            ival1,
            ival2,
            can_id,
            len,
            can_29_bit_addressing: addressing_mode,
            frame_tx_behavior,
            data: init_values,
        };
        let ghost before = timed_can_frames@;
        timed_can_frames.push(frame);
        assert(is_frame_of(frame, *t, t.pdu_mappings@[k as int]));
        k = k + 1;
        assert(timed_can_frames@.subrange(0, start.len() as int) =~= before.subrange(
            0,
            start.len() as int,
        ));
        assert(timed_can_frames@.skip(start.len() as int) =~= before.skip(start.len() as int).push(
            frame,
        ));
    }
    Ok(())
}

/// The frames of the triggering with CAN id `can_id` in the cluster named `bus_name`;
/// no frames when there is no such cluster or triggering.
pub fn get_timed_can_frame_from_id(can_clusters: &CanClusters, bus_name: String, can_id: u64) -> (result:
    Result<Vec<TimedCanFrame>, InitValueError>)
    requires
        match can_clusters.lookup(bus_name@) {
            Some(c) => c.can_frame_triggerings@.contains_key(can_id) ==> triggering_well_placed(
                c.can_frame_triggerings@[can_id],
            ),
            None => true,
        },
    ensures
        match can_clusters.lookup(bus_name@) {
            Some(c) if c.can_frame_triggerings@.contains_key(can_id) => {
                let t = c.can_frame_triggerings@[can_id];
                match result {
                    Ok(frames) => !triggering_fails(t) && frames_of(frames@, t),
                    Err(e) => exists|k: int| first_failing_mapping(t, k, e),
                }
            },
            _ => result matches Ok(frames) && frames@.len() == 0,
        },
{
    broadcast use vstd::std_specs::hash::group_hash_axioms;

    let mut timed_can_frames: Vec<TimedCanFrame> = Vec::new();
    if let Some(can_cluster) = can_clusters.get(&bus_name) {
        if let Some(can_frame_triggering) = can_cluster.can_frame_triggerings.get(&can_id) {
            let r = get_timed_can_frame(can_frame_triggering, &mut timed_can_frames);
            assert(timed_can_frames@.skip(0) =~= timed_can_frames@);
            if let Err(e) = r {
                return Err(e);
            }
        }
    }
    Ok(timed_can_frames)
}

/// `frames` are the frames of the triggerings `ts`, one triggering after the other.
pub open spec fn frames_of_sequence(frames: Seq<TimedCanFrame>, ts: Seq<CanFrameTriggering>) -> bool
    decreases ts.len(),
{
    if ts.len() == 0 {
        frames.len() == 0
    } else {
        let n = ts.last().pdu_mappings@.len();
        &&& frames.len() >= n
        &&& frames_of_sequence(frames.take(frames.len() - n), ts.drop_last())
        &&& frames_of(frames.skip(frames.len() - n), ts.last())
    }
}

/// Some triggering of `m` has a first failing mapping whose error is `e`.
pub open spec fn some_triggering_fails_with(m: Map<u64, CanFrameTriggering>, e: InitValueError) -> bool {
    exists|k: u64, j: int|
        #![trigger first_failing_mapping(m[k], j, e)]
        m.contains_key(k) && first_failing_mapping(m[k], j, e)
}

/// `order` lists every key of `m` exactly once.
pub open spec fn enumerates(order: Seq<u64>, m: Map<u64, CanFrameTriggering>) -> bool {
    &&& order.no_duplicates()
    &&& order.len() == m.dom().len()
    &&& forall|i: int| 0 <= i < order.len() ==> m.contains_key(#[trigger] order[i])
}

pub open spec fn triggerings_in_order(order: Seq<u64>, m: Map<u64, CanFrameTriggering>) -> Seq<
    CanFrameTriggering,
> {
    order.map_values(|k: u64| m[k])
}

/// The frames of all triggerings of the cluster named `bus_name`, triggering after
/// triggering in the order in which the cluster's map of triggerings is walked;
/// no frames when there is no such cluster.
pub fn get_timed_can_frames_from_bus(can_clusters: &CanClusters, bus_name: String) -> (result:
    Result<Vec<TimedCanFrame>, InitValueError>)
    requires
        match can_clusters.lookup(bus_name@) {
            Some(c) => forall|k: u64| #[trigger]
                c.can_frame_triggerings@.contains_key(k) ==> triggering_well_placed(
                    c.can_frame_triggerings@[k],
                ),
            None => true,
        },
    ensures
        match can_clusters.lookup(bus_name@) {
            Some(c) => {
                let m = c.can_frame_triggerings@;
                match result {
                    Ok(frames) => {
                        &&& forall|k: u64| #[trigger] m.contains_key(k) ==> !triggering_fails(m[k])
                        &&& exists|order: Seq<u64>|
                            #![trigger enumerates(order, m)]
                            enumerates(order, m) && frames_of_sequence(
                                frames@,
                                triggerings_in_order(order, m),
                            )
                    },
                    Err(e) => some_triggering_fails_with(m, e),
                }
            },
            None => result matches Ok(frames) && frames@.len() == 0,
        },
{
    broadcast use vstd::std_specs::hash::group_hash_axioms;

    let mut timed_can_frames: Vec<TimedCanFrame> = Vec::new();
    if let Some(can_cluster) = can_clusters.get(&bus_name) {
        let ghost m = can_cluster.can_frame_triggerings@;
        let ghost mut order: Seq<u64> = Seq::empty();
        let ghost v = vstd::std_specs::hash::spec_hash_map_iter(&can_cluster.can_frame_triggerings).remaining();
        assert(can_clusters.lookup(bus_name@) == Some(*can_cluster));
        let ghost c = can_clusters.lookup(bus_name@)->0;
        assert(c == *can_cluster);
        assert(forall|k: u64| #[trigger]
            c.can_frame_triggerings@.contains_key(k) ==> triggering_well_placed(
                c.can_frame_triggerings@[k],
            ));
        for (key, can_frame_triggering) in it: can_cluster.can_frame_triggerings.iter()
            invariant
                m == can_cluster.can_frame_triggerings@,
                can_clusters.lookup(bus_name@) == Some(*can_cluster),
                v == vstd::std_specs::hash::spec_hash_map_iter(&can_cluster.can_frame_triggerings).remaining(),
                it.seq() == v,
                forall|k: u64| #[trigger]
                    m.contains_key(k) ==> triggering_well_placed(m[k]),
                order.len() == it.index(),
                forall|i: int| 0 <= i < order.len() ==> #[trigger] order[i] == *v[i].0,
                forall|i: int| 0 <= i < order.len() ==> !triggering_fails(m[#[trigger] order[i]]),
                frames_of_sequence(timed_can_frames@, triggerings_in_order(order, m)),
        {
            assert(v[order.len() as int] == (key, can_frame_triggering));
            assert(m.contains_key(*key) && m[*key] == *can_frame_triggering);
            let ghost before = timed_can_frames@;
            let r = get_timed_can_frame(can_frame_triggering, &mut timed_can_frames);
            if let Err(e) = r {
                assert(m.contains_key(*key));
                let ghost j = choose|j: int| first_failing_mapping(*can_frame_triggering, j, e)
                    && frames_of_first(
                    timed_can_frames@.skip(before.len() as int),
                    *can_frame_triggering,
                    j,
                );
                assert(first_failing_mapping(m[*key], j, e));
                assert(some_triggering_fails_with(m, e));
                return Err(e);
            }
            proof {
                let n = can_frame_triggering.pdu_mappings@.len();
                let new_order = order.push(*key);
                assert(triggerings_in_order(new_order, m).drop_last() =~= triggerings_in_order(
                    order,
                    m,
                ));
                assert(timed_can_frames@.take(timed_can_frames@.len() - n) =~= before);
                order = new_order;
            }
        }
        assert(order.len() == v.len());
        proof {
            assert forall|k: u64| #[trigger] m.contains_key(k) implies !triggering_fails(m[k]) by {
                assert(v.contains((&k, &m[k])));
                let i = choose|i: int| 0 <= i < v.len() && v[i] == (&k, &m[k]);
                assert(order[i] == k);
            }
            assert(order.no_duplicates()) by {
                assert forall|i: int, j: int| 0 <= i < order.len() && 0 <= j < order.len() && i != j
                    implies order[i] != order[j] by {
                    if order[i] == order[j] {
                        assert(v[i] == v[j]);
                    }
                }
            }
            assert(enumerates(order, m));
            assert(enumerates(order, m) && frames_of_sequence(
                timed_can_frames@,
                triggerings_in_order(order, m),
            ));
        }
    }
    Ok(timed_can_frames)
}


/// Whether computing the init values of the mapped PDU stays inside the PDU's
/// bits, as [`mapping_well_placed`] says.
pub fn mapping_is_well_placed(m: &PduMapping) -> (r: bool)
    ensures
        r == mapping_well_placed(*m),
{
    let length_fits = m.length > usize::MAX as u64 || m.length <= (usize::MAX / 8) as u64;
    let nbits: u128 = (m.length as u128) * 8;
    let signals_placed = match &m.pdu {
        Pdu::ISignalIPdu(p) => signals_fit(&p.ungrouped_signals, &p.grouped_signals, nbits),
        Pdu::NmPdu(p) => signals_fit(&p.ungrouped_signals, &p.grouped_signals, nbits),
    };
    length_fits && signals_placed
}

/// Whether the init values of every PDU mapped into the frame stay inside the
/// PDU's bits, as [`triggering_well_placed`] says.
pub fn triggering_is_well_placed(t: &CanFrameTriggering) -> (r: bool)
    ensures
        r == triggering_well_placed(*t),
{
    let mut k: usize = 0;
    while k < t.pdu_mappings.len()
        invariant
            k <= t.pdu_mappings@.len(),
            forall|j: int| 0 <= j < k ==> mapping_well_placed(#[trigger] t.pdu_mappings@[j]),
        decreases t.pdu_mappings.len() - k,
    {
        if !mapping_is_well_placed(&t.pdu_mappings[k]) {
            return false;
        }
        k = k + 1;
    }
    true
}

/// Whether every frame triggering of the cluster named `bus_name` is well
/// placed, which [`get_timed_can_frames_from_bus`] requires; true when there is
/// no such cluster.
pub fn bus_is_well_placed(can_clusters: &CanClusters, bus_name: &String) -> (r: bool)
    ensures
        r == match can_clusters.lookup(bus_name@) {
            Some(c) => forall|k: u64| #[trigger]
                c.can_frame_triggerings@.contains_key(k) ==> triggering_well_placed(
                    c.can_frame_triggerings@[k],
                ),
            None => true,
        },
{
    broadcast use vstd::std_specs::hash::group_hash_axioms;

    match can_clusters.get(bus_name) {
        Some(can_cluster) => {
            let ghost m = can_cluster.can_frame_triggerings@;
            let ghost v = vstd::std_specs::hash::spec_hash_map_iter(&can_cluster.can_frame_triggerings).remaining();
            for (key, can_frame_triggering) in it: can_cluster.can_frame_triggerings.iter()
                invariant
                    m == can_cluster.can_frame_triggerings@,
                    can_clusters.lookup(bus_name@) == Some(*can_cluster),
                    v == vstd::std_specs::hash::spec_hash_map_iter(&can_cluster.can_frame_triggerings).remaining(),
                    it.seq() == v,
                    forall|i: int| 0 <= i < it.index() ==> triggering_well_placed(m[*#[trigger] v[i].0]),
            {
                assert(v[it.index() as int] == (key, can_frame_triggering));
                assert(m.contains_key(*key) && m[*key] == *can_frame_triggering);
                if !triggering_is_well_placed(can_frame_triggering) {
                    proof {
                        let c = can_clusters.lookup(bus_name@)->0;
                        assert(c.can_frame_triggerings@.contains_key(*key));
                        assert(!triggering_well_placed(c.can_frame_triggerings@[*key]));
                    }
                    return false;
                }
            }
            assert forall|k: u64| #[trigger] m.contains_key(k) implies triggering_well_placed(m[k]) by {
                assert(v.contains((&k, &m[k])));
                let i = choose|i: int| 0 <= i < v.len() && v[i] == (&k, &m[k]);
                assert(*v[i].0 == k);
            }
            true
        },
        None => true,
    }
}

/// Whether the frame triggering with CAN id `can_id` in the cluster named
/// `bus_name` is well placed, which [`get_timed_can_frame_from_id`] requires;
/// true when there is no such triggering.
pub fn frame_is_well_placed(can_clusters: &CanClusters, bus_name: &String, can_id: u64) -> (r: bool)
    ensures
        r == match can_clusters.lookup(bus_name@) {
            Some(c) => c.can_frame_triggerings@.contains_key(can_id) ==> triggering_well_placed(
                c.can_frame_triggerings@[can_id],
            ),
            None => true,
        },
{
    broadcast use vstd::std_specs::hash::group_hash_axioms;

    match can_clusters.get(bus_name) {
        Some(can_cluster) => match can_cluster.can_frame_triggerings.get(&can_id) {
            Some(t) => triggering_is_well_placed(t),
            None => true,
        },
        None => true,
    }
}

/// Two frames agree in every field, their data byte for byte.
pub open spec fn same_frame(a: TimedCanFrame, b: TimedCanFrame) -> bool {
    &&& a.count == b.count
    &&& a.ival1 == b.ival1
    &&& a.ival2 == b.ival2
    &&& a.can_id == b.can_id
    &&& a.len == b.len
    &&& a.can_29_bit_addressing == b.can_29_bit_addressing
    &&& a.frame_tx_behavior == b.frame_tx_behavior
    &&& a.data@ == b.data@
}

/// The frames that [`get_timed_can_frame_from_id`] gives for a CAN id of a bus
/// are the frames that [`get_timed_can_frame`] appends for the triggering stored
/// under that id: the same frames, in the same order.
pub proof fn law_frames_by_id_are_those_of_the_triggering(
    can_clusters: CanClusters,
    bus_name: Seq<char>,
    can_id: u64,
    by_id: Seq<TimedCanFrame>,
    appended: Seq<TimedCanFrame>,
)
    requires
        can_clusters.lookup(bus_name) matches Some(c) && c.can_frame_triggerings@.contains_key(can_id)
            && frames_of(by_id, c.can_frame_triggerings@[can_id]) && frames_of(
            appended,
            c.can_frame_triggerings@[can_id],
        ),
    ensures
        by_id.len() == appended.len(),
        forall|k: int| 0 <= k < by_id.len() ==> same_frame(#[trigger] by_id[k], appended[k]),
{
    let c = can_clusters.lookup(bus_name)->Some_0;
    let t = c.can_frame_triggerings@[can_id];
    assert forall|k: int| 0 <= k < by_id.len() implies same_frame(#[trigger] by_id[k], appended[k]) by {
        assert(is_frame_of(by_id[k], t, t.pdu_mappings@[k]));
        assert(is_frame_of(appended[k], t, t.pdu_mappings@[k]));
    }
}

/// The number of frames of the triggerings `ts`: one per mapped PDU.
pub open spec fn frame_count(ts: Seq<CanFrameTriggering>) -> nat
    decreases ts.len(),
{
    if ts.len() == 0 {
        0
    } else {
        frame_count(ts.drop_last()) + ts.last().pdu_mappings@.len()
    }
}

/// The frames of a bus, as [`get_timed_can_frames_from_bus`] gives them, are the
/// concatenation of the frames of its triggerings: those of triggering `i` stand
/// at positions `frame_count(ts.take(i))` up to `frame_count(ts.take(i + 1))`.
pub proof fn law_bus_frames_concatenate_triggering_frames(
    frames: Seq<TimedCanFrame>,
    ts: Seq<CanFrameTriggering>,
)
    requires
        frames_of_sequence(frames, ts),
    ensures
        frames.len() == frame_count(ts),
        forall|i: int|
            0 <= i < ts.len() ==> frames_of(
                frames.subrange(frame_count(ts.take(i)) as int, frame_count(ts.take(i + 1)) as int),
                #[trigger] ts[i],
            ),
    decreases ts.len(),
{
    if ts.len() > 0 {
        let n = ts.last().pdu_mappings@.len();
        let front = frames.take(frames.len() - n);
        let rest = ts.drop_last();
        law_bus_frames_concatenate_triggering_frames(front, rest);
        assert forall|i: int| 0 <= i < ts.len() implies frames_of(
            frames.subrange(frame_count(ts.take(i)) as int, frame_count(ts.take(i + 1)) as int),
            #[trigger] ts[i],
        ) by {
            assert(ts.take(i + 1).drop_last() =~= ts.take(i));
            if i < ts.len() - 1 {
                assert(ts.take(i) =~= rest.take(i));
                assert(ts.take(i + 1) =~= rest.take(i + 1));
                assert(rest[i] == ts[i]);
                assert(frame_count(rest.take(i + 1)) <= frame_count(rest)) by {
                    lemma_frame_count_prefix(rest, i + 1);
                }
                assert(frames.subrange(frame_count(ts.take(i)) as int, frame_count(ts.take(i + 1)) as int)
                    =~= front.subrange(frame_count(rest.take(i)) as int, frame_count(rest.take(i + 1)) as int));
            } else {
                assert(ts.take(i) =~= rest);
                assert(ts.take(i + 1) =~= ts);
                assert(frames.subrange(frame_count(ts.take(i)) as int, frame_count(ts.take(i + 1)) as int)
                    =~= frames.skip(frames.len() - n));
            }
        }
    }
}

proof fn lemma_frame_count_prefix(ts: Seq<CanFrameTriggering>, i: int)
    requires
        0 <= i <= ts.len(),
    ensures
        frame_count(ts.take(i)) <= frame_count(ts),
    decreases ts.len(),
{
    if i < ts.len() {
        assert(ts.drop_last().take(i) =~= ts.take(i));
        lemma_frame_count_prefix(ts.drop_last(), i);
    } else {
        assert(ts.take(i) =~= ts);
    }
}

/// Every frame that a triggering sends carries that triggering's CAN id, frame
/// length, addressing mode and transmit behavior, one frame per mapped PDU in
/// order; the frame of an ISignalIPdu is repeated that PDU's number of
/// repetitions at its repetition period, then sent at its cyclic period, and
/// its data is the PDU's initial payload in the mapping's byte order.
pub proof fn law_frames_carry_their_triggering(frames: Seq<TimedCanFrame>, t: CanFrameTriggering)
    requires
        frames_of(frames, t),
    ensures
        frames.len() == t.pdu_mappings@.len(),
        forall|k: int|
            0 <= k < frames.len() ==> {
                let f = #[trigger] frames[k];
                let m = t.pdu_mappings@[k];
                &&& f.can_29_bit_addressing == t.can_29_bit_addressing
                &&& f.frame_tx_behavior == t.frame_tx_behavior
                &&& f.can_id == t.can_id as u32
                &&& f.len == t.frame_length as u8
                &&& (m.pdu matches Pdu::ISignalIPdu(p) ==> {
                    &&& f.count == p.number_of_repetitions as u32
                    &&& f.ival1 == FrameInterval::Seconds(p.repetition_period_value)
                    &&& f.ival2 == FrameInterval::Seconds(p.cyclic_timing_period_value)
                    &&& f.data@ == pdu_init_bytes(
                        p.unused_bit_pattern,
                        p.ungrouped_signals@,
                        p.grouped_signals@,
                        m.length as nat,
                        m.byte_order,
                    )
                })
                &&& (m.pdu matches Pdu::NmPdu(p) ==> {
                    &&& f.count == 0
                    &&& f.data@ == pdu_init_bytes(
                        p.unused_bit_pattern,
                        p.ungrouped_signals@,
                        p.grouped_signals@,
                        m.length as nat,
                        m.byte_order,
                    )
                })
            },
{
    assert forall|k: int| 0 <= k < frames.len() implies {
        let f = #[trigger] frames[k];
        let m = t.pdu_mappings@[k];
        &&& f.can_29_bit_addressing == t.can_29_bit_addressing
        &&& f.frame_tx_behavior == t.frame_tx_behavior
        &&& f.can_id == t.can_id as u32
        &&& f.len == t.frame_length as u8
        &&& (m.pdu matches Pdu::ISignalIPdu(p) ==> {
            &&& f.count == p.number_of_repetitions as u32
            &&& f.ival1 == FrameInterval::Seconds(p.repetition_period_value)
            &&& f.ival2 == FrameInterval::Seconds(p.cyclic_timing_period_value)
            &&& f.data@ == pdu_init_bytes(
                p.unused_bit_pattern,
                p.ungrouped_signals@,
                p.grouped_signals@,
                m.length as nat,
                m.byte_order,
            )
        })
        &&& (m.pdu matches Pdu::NmPdu(p) ==> {
            &&& f.count == 0
            &&& f.data@ == pdu_init_bytes(
                p.unused_bit_pattern,
                p.ungrouped_signals@,
                p.grouped_signals@,
                m.length as nat,
                m.byte_order,
            )
        })
    } by {
        assert(is_frame_of(frames[k], t, t.pdu_mappings@[k]));
    }
}

} // verus!
