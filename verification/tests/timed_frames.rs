use std::collections::HashMap;

use opendut::arxml_structs::{
    CanCluster, CanClusters, CanFrameTriggering, FrameInterval, ISignal, ISignalIPdu, InitValues,
    NmPdu, Pdu, PduMapping, TimedCanFrame,
};
use opendut::init_values::InitValueError;
use opendut::timed_frames::{
    get_timed_can_frame, get_timed_can_frame_from_id, get_timed_can_frames_from_bus,
    mapping_is_well_placed, triggering_is_well_placed,
};

fn signal(start_pos: u64, length: u64, init_values: InitValues) -> ISignal {
    ISignal { name: String::from("s"), byte_order: false, start_pos, length, init_values }
}

fn mapping(name: &str, length: u64, pdu: Pdu) -> PduMapping {
    PduMapping {
        name: String::from(name),
        byte_order: true,
        length,
        dynamic_length: String::new(),
        category: String::new(),
        contained_header_id_short: String::new(),
        contained_header_id_long: String::new(),
        pdu,
    }
}

fn ipdu(signals: Vec<ISignal>) -> Pdu {
    Pdu::ISignalIPdu(ISignalIPdu {
        cyclic_timing_period_value: 0.5f64.to_bits(),
        cyclic_timing_period_tolerance: None,
        cyclic_timing_offset_value: 0,
        cyclic_timing_offset_tolerance: None,
        number_of_repetitions: 3,
        repetition_period_value: 0.01f64.to_bits(),
        repetition_period_tolerance: None,
        unused_bit_pattern: false,
        ungrouped_signals: signals,
        grouped_signals: vec![],
    })
}

fn triggering(pdu_mappings: Vec<PduMapping>) -> CanFrameTriggering {
    CanFrameTriggering {
        frame_triggering_name: String::from("FT"),
        frame_name: String::from("F"),
        can_id: 0x1_0000_0123,
        can_29_bit_addressing: true,
        frame_rx_behavior: false,
        frame_tx_behavior: true,
        rx_range_lower: 0,
        rx_range_upper: 0,
        receiver_ecus: vec![],
        sender_ecus: vec![],
        frame_length: 0x108,
        pdu_mappings,
    }
}

#[test]
fn one_frame_per_mapped_pdu_in_order() {
    let t = triggering(vec![
        mapping("a", 1, ipdu(vec![signal(0, 8, InitValues::Single(0x81))])),
        mapping("b", 2, Pdu::NmPdu(NmPdu { unused_bit_pattern: true, ungrouped_signals: vec![], grouped_signals: vec![] })),
    ]);
    let mut frames = Vec::new();
    assert_eq!(get_timed_can_frame(&t, &mut frames), Ok(()));
    assert_eq!(frames.len(), 2);

    let a = &frames[0];
    assert_eq!(a.count, 3);
    assert_eq!(a.ival1, FrameInterval::Seconds(0.01f64.to_bits()));
    assert_eq!(a.ival2, FrameInterval::Seconds(0.5f64.to_bits()));
    assert_eq!(a.can_id, 0x123);
    assert_eq!(a.len, 8);
    assert!(a.can_29_bit_addressing);
    assert!(a.frame_tx_behavior);
    assert_eq!(a.data, vec![0x81]);

    let b = &frames[1];
    assert_eq!(b.count, 0);
    assert_eq!(b.ival1, FrameInterval::Exact { tv_sec: 0, tv_usec: 0 });
    assert_eq!(b.ival2, FrameInterval::Exact { tv_sec: 0, tv_usec: 100000 });
    assert_eq!(b.data, vec![0xFF, 0xFF]);
}

#[test]
fn a_failing_pdu_stops_after_the_frames_before_it() {
    let t = triggering(vec![
        mapping("a", 1, ipdu(vec![signal(0, 8, InitValues::Single(1))])),
        mapping("b", 1, ipdu(vec![signal(0, 4, InitValues::Array(vec![1]))])),
        mapping("c", 1, ipdu(vec![])),
    ]);
    let mut frames = Vec::new();
    assert_eq!(
        get_timed_can_frame(&t, &mut frames),
        Err(InitValueError::ArrayLengthNotByteMultiple { length: 4 })
    );
    assert_eq!(frames.len(), 1);
    assert_eq!(frames[0].data, vec![0x80]);
}

#[test]
fn placement_of_signals_is_checked_up_to_the_first_failing_one() {
    let inside = mapping("a", 8, ipdu(vec![signal(56, 8, InitValues::Single(1))]));
    assert!(mapping_is_well_placed(&inside));
    let outside = mapping("b", 8, ipdu(vec![signal(60, 8, InitValues::Single(1))]));
    assert!(!mapping_is_well_placed(&outside));
    let after_failure = mapping(
        "c",
        8,
        ipdu(vec![signal(0, 4, InitValues::Array(vec![1])), signal(60, 8, InitValues::Single(1))]),
    );
    assert!(mapping_is_well_placed(&after_failure));
    let without_value = mapping("d", 1, ipdu(vec![signal(60, 8, InitValues::NotExist(true))]));
    assert!(mapping_is_well_placed(&without_value));
    assert!(triggering_is_well_placed(&triggering(vec![inside, after_failure])));
    assert!(!triggering_is_well_placed(&triggering(vec![without_value, outside])));
}

fn same_frame(a: &TimedCanFrame, b: &TimedCanFrame) -> bool {
    a.count == b.count
        && a.ival1 == b.ival1
        && a.ival2 == b.ival2
        && a.can_id == b.can_id
        && a.len == b.len
        && a.can_29_bit_addressing == b.can_29_bit_addressing
        && a.frame_tx_behavior == b.frame_tx_behavior
        && a.data == b.data
}

fn two_mapping_triggering(can_id: u64) -> CanFrameTriggering {
    let mut t = triggering(vec![
        mapping("a", 1, ipdu(vec![signal(0, 8, InitValues::Single(0x42))])),
        mapping("b", 2, ipdu(vec![signal(4, 8, InitValues::Single(0xF0))])),
    ]);
    t.can_id = can_id;
    t
}

fn bus(triggerings: Vec<CanFrameTriggering>) -> CanClusters {
    let mut map = HashMap::new();
    for t in triggerings {
        map.insert(t.can_id, t);
    }
    let mut clusters = CanClusters::new();
    clusters.insert(CanCluster {
        name: String::from("bus"),
        baudrate: 500000,
        canfd_baudrate: 0,
        can_frame_triggerings: map,
    });
    clusters
}

#[test]
fn frames_by_id_are_those_of_the_triggering() {
    let clusters = bus(vec![two_mapping_triggering(0x10), triggering(vec![])]);
    let by_id = get_timed_can_frame_from_id(&clusters, String::from("bus"), 0x10).unwrap();
    let mut appended = Vec::new();
    assert_eq!(get_timed_can_frame(&two_mapping_triggering(0x10), &mut appended), Ok(()));
    assert_eq!(by_id.len(), 2);
    assert_eq!(by_id.len(), appended.len());
    for (a, b) in by_id.iter().zip(appended.iter()) {
        assert!(same_frame(a, b));
    }
    assert!(get_timed_can_frame_from_id(&clusters, String::from("bus"), 0x11).unwrap().is_empty());
    assert!(get_timed_can_frame_from_id(&clusters, String::from("other"), 0x10).unwrap().is_empty());
}

#[test]
fn bus_frames_concatenate_the_frames_of_each_triggering() {
    let mut one = triggering(vec![mapping("c", 1, ipdu(vec![]))]);
    one.can_id = 0x20;
    let clusters = bus(vec![two_mapping_triggering(0x10), one]);
    let frames = get_timed_can_frames_from_bus(&clusters, String::from("bus")).unwrap();
    assert_eq!(frames.len(), 3);
    let ids: Vec<u32> = frames.iter().map(|f| f.can_id).collect();
    assert!(ids == vec![0x10, 0x10, 0x20] || ids == vec![0x20, 0x10, 0x10]);
    let first = ids.iter().position(|id| *id == 0x10).unwrap();
    assert_eq!(frames[first].data, vec![0x42]);
    assert_eq!(frames[first + 1].data, vec![0x00, 0xF0]);
}
