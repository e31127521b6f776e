//! Extraction of the CAN clusters of an ARXML description, with their frame
//! triggerings, PDUs and signals, for a restbus simulation.

use std::collections::HashMap;

use vstd::prelude::*;

use crate::arxml_document::{
    child_named, children, enum_text, first_child, float_bits, grandchild_named, idx_view, sub_content, sub_text, with_retries,
    target_of, text_or_empty, ArxmlDocument, ArxmlNode,
};
use crate::arxml_structs::{
    CanCluster, CanClusters, CanFrameTriggering, E2EDataTransformationProps, ISignal, ISignalGroup, ISignalIPdu, InitValues,
    NmPdu, Pdu, PduMapping, TimeRange, TimeRangeTolerance,
};
use crate::arxml_utils::{
    direction_of, ecu_of, ecus_in, frame_ports, gather, law_ecus_follow_the_port_directions, get_byte_order, get_optional_int_value, get_optional_string,
    get_required_int_value, get_required_reference, get_required_sub_subelement,
    get_sub_element_and_time_range, get_subelement_optional_string, get_subelement_string_value,
    get_unused_bit_pattern, group_error, group_props, group_transformations, init_value_outcome,
    init_values_match, int_or_zero, lemma_gather_all, lemma_gather_err, lemma_gather_step,
    port_entry_fn, process_frame_ports, process_init_value, process_signal_group,
    init_value_spec, required_reference, sort_by_start_pos, sorted_by_start_pos, sub_int, sub_sub_text,
    time_range_under, unused_bit_pattern, ArxmlError, Error, SignalInfo, at_start, group_pick,
    has_key, key_index, signal_of,
};
use crate::autosar::{arxml_elements, arxml_loads, arxml_retry_targets, error_text, load_document, retry_targets};
use crate::integer_text::{ascii_lower_eq, lower_equals, text_chars};
use crate::string_map::StringMap;

verus! {

/// What `str::to_uppercase` makes of a text: its Unicode uppercase mapping.
pub uninterp spec fn uppercase(text: Seq<char>) -> Seq<char>;

/// `str::to_uppercase`; the result is named by [`uppercase`].
#[verifier::external_body]
fn to_uppercase(text: &str) -> (r: String)
    ensures
        r@ == uppercase(text@),
{
    text.to_uppercase()
}

/// The frame uses 29-bit identifiers: its addressing mode reads `EXTENDED` in any
/// ASCII case.
pub fn is_extended_addressing(addressing_mode: &String) -> (r: bool)
    ensures
        r == ascii_lower_eq(addressing_mode@, "extended"@),
{
    lower_equals(&text_chars(addressing_mode.as_str()), &text_chars("extended"))
}

/// The rule for a frame behavior, given the behavior's text already in upper
/// case: the frame is a CAN FD frame when the text reads `CAN-FD`, or when no
/// behavior is given and the cluster has an FD baudrate.
pub fn fd_behavior_from_uppercase(
    uppercased: &String,
    behavior_missing: bool,
    has_fd_baudrate: bool,
) -> (r: bool)
    ensures
        r == (uppercased@ == "CAN-FD"@ || (behavior_missing && has_fd_baudrate)),
{
    *uppercased == String::from_str("CAN-FD") || (behavior_missing && has_fd_baudrate)
}

/// Whether a frame with the behavior text `behavior` (empty when none is given)
/// is sent or received as a CAN FD frame.
pub open spec fn fd_behavior(behavior: Seq<char>, has_fd_baudrate: bool) -> bool {
    uppercase(behavior) == "CAN-FD"@ || (behavior.len() == 0 && has_fd_baudrate)
}

/// Whether a frame with the behavior text `behavior` (empty when none is given)
/// is sent or received as a CAN FD frame.
pub fn frame_fd_behavior(behavior: &String, has_fd_baudrate: bool) -> (r: bool)
    ensures
        r == fd_behavior(behavior@, has_fd_baudrate),
{
    let upper = to_uppercase(behavior.as_str());
    fd_behavior_from_uppercase(&upper, behavior.as_str().unicode_len() == 0, has_fd_baudrate)
}

/// The ISignal that the signal mapping `m` refers to.
pub open spec fn signal_target(n: Seq<ArxmlNode>, m: int) -> Option<int> {
    match child_named(n, m, "I-SIGNAL-REF"@) {
        Some(r) => target_of(n, r),
        None => None,
    }
}

/// The ISignalGroup that the signal mapping `m` refers to.
pub open spec fn group_target(n: Seq<ArxmlNode>, m: int) -> Option<int> {
    match child_named(n, m, "I-SIGNAL-GROUP-REF"@) {
        Some(r) => target_of(n, r),
        None => None,
    }
}

/// Why the signal mapping `m` cannot be read, if it cannot.
pub open spec fn mapping_error(n: Seq<ArxmlNode>, m: int) -> Option<ArxmlError> {
    match signal_target(n, m) {
        None => None,
        Some(s) => if sub_text(n, m, "I-SIGNAL-REF"@) is None {
            Some(ArxmlError::MissingStringValue { subelement: "I-SIGNAL-REF" })
        } else if n[s].item_name is None {
            Some(ArxmlError::Item(Error::GetItemName { item: "ISignalRef" }))
        } else if sub_text(n, m, "PACKING-BYTE-ORDER"@) is None {
            Some(ArxmlError::MissingStringValue { subelement: "PACKING-BYTE-ORDER" })
        } else if sub_int(n, m, "START-POSITION"@) is None {
            Some(ArxmlError::MissingIntValue { subelement: "START-POSITION" })
        } else if sub_int(n, s, "LENGTH"@) is None {
            Some(ArxmlError::MissingIntValue { subelement: "LENGTH" })
        } else {
            match (child_named(n, s, "INIT-VALUE"@), n[s].item_name) {
                (Some(iv), Some(name)) => match init_value_outcome(n, iv, name) {
                    Err(e) => Some(e),
                    Ok(_) => None,
                },
                _ => None,
            }
        },
    }
}

/// `info` is what the signal mapping `m` says of its signal: the signal's name,
/// the mapping's byte order and start position, the signal's length and its
/// init value.
pub open spec fn info_matches(n: Seq<ArxmlNode>, m: int, info: SignalInfo) -> bool {
    match signal_target(n, m) {
        None => false,
        Some(s) => {
            &&& n[s].item_name == Some(info.name)
            &&& sub_text(n, m, "PACKING-BYTE-ORDER"@) == Some(info.byte_order@)
            &&& sub_int(n, m, "START-POSITION"@) == Some(info.start_pos)
            &&& sub_int(n, s, "LENGTH"@) == Some(info.length)
            &&& match child_named(n, s, "INIT-VALUE"@) {
                None => info.init_values == InitValues::NotExist(true),
                Some(iv) => init_value_outcome(n, iv, info.name) matches Ok((single, vs))
                    && init_values_match(info.init_values, single, vs),
            }
        },
    }
}

/// A child of `I-SIGNAL-TO-PDU-MAPPINGS`: its error, or the signal group that it
/// maps, if it maps one.
pub open spec fn mapping_fn(n: Seq<ArxmlNode>) -> spec_fn(int) -> Result<Option<int>, ArxmlError> {
    |m: int|
        match mapping_error(n, m) {
            Some(e) => Err(e),
            None => Ok(
                if signal_target(n, m) is None {
                    group_target(n, m)
                } else {
                    None
                },
            ),
        }
}

/// The signal groups that the signal mappings of `pdu` map, in order, or the
/// first error among the mappings.
pub open spec fn isignal_groups(n: Seq<ArxmlNode>, pdu: int) -> Result<Seq<int>, ArxmlError> {
    match child_named(n, pdu, "I-SIGNAL-TO-PDU-MAPPINGS"@) {
        Some(ms) => gather(children(n, ms), mapping_fn(n)),
        None => Ok(Seq::empty()),
    }
}

/// A signal group: its error, if it cannot be read.
pub open spec fn group_check_fn(n: Seq<ArxmlNode>) -> spec_fn(int) -> Result<Option<int>, ArxmlError> {
    |g: int|
        match group_error(n, g) {
            Some(e) => Err(e),
            None => Ok(Some(g)),
        }
}

/// Why the signals of `pdu` cannot be read, if they cannot.
pub open spec fn isignals_error(n: Seq<ArxmlNode>, pdu: int) -> Option<ArxmlError> {
    match isignal_groups(n, pdu) {
        Err(e) => Some(e),
        Ok(gs) => match gather(gs, group_check_fn(n)) {
            Err(e) => Some(e),
            Ok(_) => None,
        },
    }
}

/// `grp` is read from the signal group `g`: its name, data transformations and
/// end-to-end protection properties, with its signals ordered by start position.
pub open spec fn group_header(n: Seq<ArxmlNode>, g: int, grp: ISignalGroup) -> bool {
    &&& n[g].item_name == Some(grp.name)
    &&& group_transformations(n, g) == Ok::<Seq<String>, ArxmlError>(grp.data_transformations@)
    &&& group_props(n, g) == Ok::<Seq<E2EDataTransformationProps>, ArxmlError>(grp.transformation_props@)
    &&& sorted_by_start_pos(grp.isignals@)
}

/// The signal mappings `es` with `value` recorded under `key`: in place of the
/// mapping under the same key, or else at the end.
pub open spec fn seq_insert(es: Seq<(String, SignalInfo)>, key: String, value: SignalInfo) -> Seq<
    (String, SignalInfo),
> {
    if has_key(es, key@) {
        es.update(key_index(es, key@), (key, value))
    } else {
        es.push((key, value))
    }
}

/// `es` are the signal mappings recorded from the ISignalToIPduMappings `cs`, in
/// order, each under the path of its signal reference.
pub open spec fn mapped_entries(n: Seq<ArxmlNode>, cs: Seq<int>, es: Seq<(String, SignalInfo)>) -> bool
    decreases cs.len(),
{
    if cs.len() == 0 {
        es.len() == 0
    } else if signal_target(n, cs.last()) is Some {
        exists|prev: Seq<(String, SignalInfo)>, key: String, value: SignalInfo|
            #![trigger seq_insert(prev, key, value)]
            mapped_entries(n, cs.drop_last(), prev) && sub_text(n, cs.last(), "I-SIGNAL-REF"@) == Some(
                key@,
            ) && info_matches(n, cs.last(), value) && es == seq_insert(prev, key, value)
    } else {
        mapped_entries(n, cs.drop_last(), es)
    }
}

/// The ISignalToIPduMappings of `pdu`.
pub open spec fn pdu_signal_mappings(n: Seq<ArxmlNode>, pdu: int) -> Seq<int> {
    match child_named(n, pdu, "I-SIGNAL-TO-PDU-MAPPINGS"@) {
        Some(ms) => children(n, ms),
        None => Seq::empty(),
    }
}

/// The signals that the signal mappings `es` describe, in order.
pub open spec fn entry_signals(es: Seq<(String, SignalInfo)>) -> Seq<ISignal> {
    es.map_values(|e: (String, SignalInfo)| signal_of(e.1))
}

/// `a` and `b` hold the same signals at each start position, in the same order.
pub open spec fn same_at_start(a: Seq<ISignal>, b: Seq<ISignal>) -> bool {
    forall|pos: u64| #[trigger] at_start(a, pos) == at_start(b, pos)
}

/// `states` are the signal mappings of `pdu` before each of its signal groups
/// `gs` takes its signals out of them, and after the last: each group holds the
/// signals it took, and `ungrouped` holds `prior` and the signals left over.
pub open spec fn signal_states(
    n: Seq<ArxmlNode>,
    pdu: int,
    gs: Seq<int>,
    states: Seq<Seq<(String, SignalInfo)>>,
    prior: Seq<ISignal>,
    ungrouped: Seq<ISignal>,
    grouped: Seq<ISignalGroup>,
) -> bool {
    &&& states.len() == gs.len() + 1
    &&& mapped_entries(n, pdu_signal_mappings(n, pdu), states[0])
    &&& forall|k: int|
        0 <= k < gs.len() ==> states[k + 1] == group_pick(n, gs[k], #[trigger] states[k]).0
            && same_at_start(grouped[k].isignals@, group_pick(n, gs[k], states[k]).1)
    &&& same_at_start(ungrouped, prior + entry_signals(states[gs.len() as int]))
}

/// The grouped signals are one group per signal group that the mappings of
/// `pdu` map, in order, each with the signals it refers to; the ungrouped
/// signals are `prior` and the mapped signals that no group took, ordered by
/// start position.
pub open spec fn isignals_read(
    n: Seq<ArxmlNode>,
    pdu: int,
    prior: Seq<ISignal>,
    ungrouped: Seq<ISignal>,
    grouped: Seq<ISignalGroup>,
) -> bool {
    &&& sorted_by_start_pos(ungrouped)
    &&& isignal_groups(n, pdu) matches Ok(gs)
    &&& grouped.len() == gs.len()
    &&& forall|k: int| 0 <= k < gs.len() ==> group_header(n, gs[k], #[trigger] grouped[k])
    &&& exists|states: Seq<Seq<(String, SignalInfo)>>|
        signal_states(n, pdu, gs, states, prior, ungrouped, grouped)
}

/// The signals of `pdu`, read into empty lists, as [`isignals_read`] says.
pub open spec fn isignals_match(
    n: Seq<ArxmlNode>,
    pdu: int,
    ungrouped: Seq<ISignal>,
    grouped: Seq<ISignalGroup>,
) -> bool {
    isignals_read(n, pdu, Seq::empty(), ungrouped, grouped)
}

/// The transmission mode true timing of the ISignalIPdu `pdu`.
pub open spec fn true_timing(n: Seq<ArxmlNode>, pdu: int) -> Option<int> {
    match child_named(n, pdu, "I-PDU-TIMING-SPECIFICATIONS"@) {
        Some(a) => match child_named(n, a, "I-PDU-TIMING"@) {
            Some(b) => match grandchild_named(
                n,
                b,
                "TRANSMISSION-MODE-DECLARATION"@,
                "TRANSMISSION-MODE-TRUE-TIMING"@,
            ) {
                Some(t) => Some(t),
                None => None,
            },
            None => None,
        },
        None => None,
    }
}

/// The time range `b` of the timing `a` of the true timing of `pdu`.
pub open spec fn pdu_timing(n: Seq<ArxmlNode>, pdu: int, a: Seq<char>, b: Seq<char>) -> Option<
    TimeRange,
> {
    match true_timing(n, pdu) {
        Some(t) => match child_named(n, t, a) {
            Some(c) => time_range_under(n, c, b),
            None => None,
        },
        None => None,
    }
}

/// The value of a time range, or 0.
pub open spec fn range_value(r: Option<TimeRange>) -> u64 {
    match r {
        Some(r) => r.value,
        None => 0,
    }
}

/// The tolerance of a time range, or none.
pub open spec fn range_tolerance(r: Option<TimeRange>) -> Option<TimeRangeTolerance> {
    match r {
        Some(r) => r.tolerance,
        None => None,
    }
}

/// The number of repetitions of the event-controlled timing of `pdu`, or 0.
pub open spec fn repetitions(n: Seq<ArxmlNode>, pdu: int) -> u64 {
    match true_timing(n, pdu) {
        Some(t) => match child_named(n, t, "EVENT-CONTROLLED-TIMING"@) {
            Some(e) => int_or_zero(sub_int(n, e, "NUMBER-OF-REPETITIONS"@)),
            None => 0,
        },
        None => 0,
    }
}

/// `p` is the ISignalIPdu `pdu`: its timings (zero and no tolerance where not
/// given), its repetitions, its unused bit pattern and its signals.
pub open spec fn isignal_ipdu_matches(n: Seq<ArxmlNode>, pdu: int, p: ISignalIPdu) -> bool {
    let period = pdu_timing(n, pdu, "CYCLIC-TIMING"@, "TIME-PERIOD"@);
    let offset = pdu_timing(n, pdu, "CYCLIC-TIMING"@, "TIME-OFFSET"@);
    let repetition = pdu_timing(n, pdu, "EVENT-CONTROLLED-TIMING"@, "REPETITION-PERIOD"@);
    &&& p.cyclic_timing_period_value == range_value(period)
    &&& p.cyclic_timing_period_tolerance == range_tolerance(period)
    &&& p.cyclic_timing_offset_value == range_value(offset)
    &&& p.cyclic_timing_offset_tolerance == range_tolerance(offset)
    &&& p.number_of_repetitions == repetitions(n, pdu)
    &&& p.repetition_period_value == range_value(repetition)
    &&& p.repetition_period_tolerance == range_tolerance(repetition)
    &&& p.unused_bit_pattern == unused_bit_pattern(n, pdu)
    &&& isignals_match(n, pdu, p.ungrouped_signals@, p.grouped_signals@)
}

/// The PDU that the PduToFrameMapping `m` refers to.
pub open spec fn mapped_pdu(n: Seq<ArxmlNode>, m: int) -> Option<int> {
    required_reference(n, m, "PDU-REF"@)
}

/// Why the PduToFrameMapping `m` cannot be read, if it cannot.
pub open spec fn pdu_mapping_error(n: Seq<ArxmlNode>, m: int) -> Option<ArxmlError> {
    match mapped_pdu(n, m) {
        None => Some(ArxmlError::MissingReference { subelement: "PDU-REF" }),
        Some(p) => if n[p].item_name is None {
            Some(ArxmlError::Item(Error::GetItemName { item: "Pdu" }))
        } else if sub_int(n, p, "LENGTH"@) is None {
            Some(ArxmlError::MissingIntValue { subelement: "LENGTH" })
        } else if n[p].name@ == "I-SIGNAL-I-PDU"@ || n[p].name@ == "NM-PDU"@ {
            isignals_error(n, p)
        } else {
            Some(ArxmlError::UnsupportedPdu { element: n[p].name })
        },
    }
}

/// `pm` is read from the PduToFrameMapping `m`: the PDU's name, the mapping's
/// byte order, the PDU's length, dynamic length, category and header ids, and
/// the PDU itself by its kind.
pub open spec fn pdu_mapping_matches(n: Seq<ArxmlNode>, m: int, pm: PduMapping) -> bool {
    match mapped_pdu(n, m) {
        None => false,
        Some(p) => {
            &&& n[p].item_name == Some(pm.name)
            &&& pm.byte_order == (text_or_empty(sub_text(n, m, "PACKING-BYTE-ORDER"@))
                != "MOST-SIGNIFICANT-BYTE-LAST"@)
            &&& sub_int(n, p, "LENGTH"@) == Some(pm.length)
            &&& pm.dynamic_length@ == text_or_empty(sub_text(n, p, "HAS-DYNAMIC-LENGTH"@))
            &&& pm.category@ == text_or_empty(sub_text(n, p, "CATEGORY"@))
            &&& pm.contained_header_id_short@ == text_or_empty(
                sub_sub_text(n, p, "CONTAINED-I-PDU-PROPS"@, "HEADER-ID-SHORT-HEADER"@),
            )
            &&& pm.contained_header_id_long@ == text_or_empty(
                sub_sub_text(n, p, "CONTAINED-I-PDU-PROPS"@, "HEADER-ID-LONG-HEADER"@),
            )
            &&& if n[p].name@ == "I-SIGNAL-I-PDU"@ {
                pm.pdu matches Pdu::ISignalIPdu(ip) && isignal_ipdu_matches(n, p, ip)
            } else {
                pm.pdu matches Pdu::NmPdu(np) && np.unused_bit_pattern == unused_bit_pattern(n, p)
                    && isignals_match(n, p, np.ungrouped_signals@, np.grouped_signals@)
            }
        },
    }
}

/// A child of `PDU-TO-FRAME-MAPPINGS`: its error, if it cannot be read.
pub open spec fn pdu_mapping_fn(n: Seq<ArxmlNode>) -> spec_fn(int) -> Result<Option<int>, ArxmlError> {
    |m: int|
        match pdu_mapping_error(n, m) {
            Some(e) => Err(e),
            None => Ok(Some(m)),
        }
}

/// The frame that the CanFrameTriggering `t` triggers.
pub open spec fn triggered_frame(n: Seq<ArxmlNode>, t: int) -> Option<int> {
    required_reference(n, t, "FRAME-REF"@)
}

/// The PduToFrameMappings of frame `f`.
pub open spec fn frame_pdu_mappings(n: Seq<ArxmlNode>, f: int) -> Seq<int> {
    match child_named(n, f, "PDU-TO-FRAME-MAPPINGS"@) {
        Some(ms) => children(n, ms),
        None => Seq::empty(),
    }
}

/// Why the CanFrameTriggering `t` cannot be read, if it cannot, leaving its
/// PDU mappings aside.
pub open spec fn triggering_head_error(n: Seq<ArxmlNode>, t: int) -> Option<ArxmlError> {
    match n[t].item_name {
        None => Some(ArxmlError::Item(Error::GetItemName { item: "CanFrameTriggering" })),
        Some(name) => if sub_int(n, t, "IDENTIFIER"@) is None {
            Some(ArxmlError::MissingIntValue { subelement: "IDENTIFIER" })
        } else {
            match triggered_frame(n, t) {
                None => Some(ArxmlError::MissingReference { subelement: "FRAME-REF" }),
                Some(f) => if n[f].item_name is None {
                    Some(ArxmlError::Item(Error::GetItemName { item: "Frame" }))
                } else if child_named(n, t, "RX-IDENTIFIER-RANGE"@) matches Some(r) && sub_int(
                    n,
                    r,
                    "LOWER-CAN-ID"@,
                ) is None {
                    Some(ArxmlError::MissingIntValue { subelement: "LOWER-CAN-ID" })
                } else if child_named(n, t, "RX-IDENTIFIER-RANGE"@) matches Some(r) && sub_int(
                    n,
                    r,
                    "UPPER-CAN-ID"@,
                ) is None {
                    Some(ArxmlError::MissingIntValue { subelement: "UPPER-CAN-ID" })
                } else {
                    match gather(frame_ports(n, t), port_entry_fn(n, name)) {
                        Err(e) => Some(e),
                        Ok(_) => None,
                    }
                },
            }
        },
    }
}

/// Why the CanFrameTriggering `t` cannot be read, if it cannot.
pub open spec fn triggering_error(n: Seq<ArxmlNode>, t: int) -> Option<ArxmlError> {
    match triggering_head_error(n, t) {
        Some(e) => Some(e),
        None => match triggered_frame(n, t) {
            Some(f) => match gather(frame_pdu_mappings(n, f), pdu_mapping_fn(n)) {
                Err(e) => Some(e),
                Ok(_) => None,
            },
            None => None,
        },
    }
}

/// The addressing mode of the CanFrameTriggering `t`: the enumeration item of
/// its `CAN-ADDRESSING-MODE`, or `STANDARD`.
pub open spec fn addressing_mode(n: Seq<ArxmlNode>, t: int) -> Seq<char> {
    match enum_text(sub_content(n, t, "CAN-ADDRESSING-MODE"@)) {
        Some(item) => item@,
        None => "STANDARD"@,
    }
}

/// The value of the bound `name` of the RX identifier range of `t`, or 0.
pub open spec fn rx_bound(n: Seq<ArxmlNode>, t: int, name: Seq<char>) -> u64 {
    match child_named(n, t, "RX-IDENTIFIER-RANGE"@) {
        Some(r) => int_or_zero(sub_int(n, r, name)),
        None => 0,
    }
}

/// `c` is read from the CanFrameTriggering `t` of a cluster that has an FD
/// baudrate when `has_fd`.
pub open spec fn triggering_matches(n: Seq<ArxmlNode>, t: int, has_fd: bool, c: CanFrameTriggering) -> bool {
    match triggered_frame(n, t) {
        None => false,
        Some(f) => {
            &&& n[t].item_name == Some(c.frame_triggering_name)
            &&& n[f].item_name == Some(c.frame_name)
            &&& sub_int(n, t, "IDENTIFIER"@) == Some(c.can_id)
            &&& c.can_29_bit_addressing == ascii_lower_eq(addressing_mode(n, t), "extended"@)
            &&& c.frame_rx_behavior == fd_behavior(
                text_or_empty(sub_text(n, t, "CAN-FRAME-RX-BEHAVIOR"@)),
                has_fd,
            )
            &&& c.frame_tx_behavior == fd_behavior(
                text_or_empty(sub_text(n, t, "CAN-FRAME-TX-BEHAVIOR"@)),
                has_fd,
            )
            &&& c.rx_range_lower == rx_bound(n, t, "LOWER-CAN-ID"@)
            &&& c.rx_range_upper == rx_bound(n, t, "UPPER-CAN-ID"@)
            &&& gather(frame_ports(n, t), port_entry_fn(n, c.frame_triggering_name)) matches Ok(es)
                && c.receiver_ecus@ == ecus_in(es, true) && c.sender_ecus@ == ecus_in(es, false)
            &&& c.frame_length == int_or_zero(sub_int(n, f, "FRAME-LENGTH"@))
            &&& c.pdu_mappings@.len() == frame_pdu_mappings(n, f).len()
            &&& forall|k: int|
                0 <= k < c.pdu_mappings@.len() ==> pdu_mapping_matches(
                    n,
                    frame_pdu_mappings(n, f)[k],
                    #[trigger] c.pdu_mappings@[k],
                )
        },
    }
}

/// The frame triggerings of the CAN physical channels `chs`, in order.
pub open spec fn channel_triggerings(n: Seq<ArxmlNode>, chs: Seq<int>) -> Seq<int>
    decreases chs.len(),
{
    if chs.len() == 0 {
        Seq::empty()
    } else {
        let c = chs.last();
        channel_triggerings(n, chs.drop_last()) + if n[c].name@ == "CAN-PHYSICAL-CHANNEL"@ {
            match child_named(n, c, "FRAME-TRIGGERINGS"@) {
                Some(f) => children(n, f),
                None => Seq::empty(),
            }
        } else {
            Seq::empty()
        }
    }
}

/// The conditional of the CanCluster `c`.
pub open spec fn cluster_conditional(n: Seq<ArxmlNode>, c: int) -> Option<int> {
    grandchild_named(n, c, "CAN-CLUSTER-VARIANTS"@, "CAN-CLUSTER-CONDITIONAL"@)
}

/// Why the CanCluster `c` cannot be read, if it cannot.
pub open spec fn cluster_error(n: Seq<ArxmlNode>, c: int) -> Option<ArxmlError> {
    match n[c].item_name {
        None => Some(ArxmlError::Item(Error::GetItemName { item: "CanCluster" })),
        Some(name) => match cluster_conditional(n, c) {
            None => Some(
                ArxmlError::MissingSubSubElement {
                    subelement: "CAN-CLUSTER-VARIANTS",
                    sub_subelement: "CAN-CLUSTER-CONDITIONAL",
                },
            ),
            Some(cond) => if int_or_zero(sub_int(n, cond, "BAUDRATE"@)) == 0 && int_or_zero(
                sub_int(n, cond, "CAN-FD-BAUDRATE"@),
            ) == 0 {
                Some(ArxmlError::NoBaudrate { cluster: name })
            } else if child_named(n, cond, "PHYSICAL-CHANNELS"@) is None {
                Some(ArxmlError::NoPhysicalChannels { cluster: name })
            } else {
                None
            },
        },
    }
}

/// The frame triggerings of the CanCluster `c`, in order.
pub open spec fn cluster_triggerings(n: Seq<ArxmlNode>, c: int) -> Seq<int> {
    match cluster_conditional(n, c) {
        Some(cond) => match child_named(n, cond, "PHYSICAL-CHANNELS"@) {
            Some(chs) => channel_triggerings(n, children(n, chs)),
            None => Seq::empty(),
        },
        None => Seq::empty(),
    }
}

/// The CAN id of the frame triggering `t`.
pub open spec fn triggering_id(n: Seq<ArxmlNode>, t: int) -> u64 {
    int_or_zero(sub_int(n, t, "IDENTIFIER"@))
}

/// The last of the first `k` frame triggerings `ts` that can be read and has the
/// CAN id `id`.
pub open spec fn last_with_id(n: Seq<ArxmlNode>, ts: Seq<int>, id: u64, k: int) -> Option<int>
    decreases k,
{
    if k <= 0 || k > ts.len() {
        None
    } else if triggering_error(n, ts[k - 1]) is None && triggering_id(n, ts[k - 1]) == id {
        Some(ts[k - 1])
    } else {
        last_with_id(n, ts, id, k - 1)
    }
}

/// One more frame triggering at the end of `ts`.
pub proof fn lemma_last_with_id_push(n: Seq<ArxmlNode>, ts: Seq<int>, x: int)
    ensures
        forall|id: u64| #[trigger]
            last_with_id(n, ts.push(x), id, ts.len() + 1int) == if triggering_error(n, x) is None
                && triggering_id(n, x) == id {
                Some(x)
            } else {
                last_with_id(n, ts, id, ts.len() as int)
            },
{
    assert forall|id: u64| #[trigger]
        last_with_id(n, ts.push(x), id, ts.len() + 1int) == if triggering_error(n, x) is None
            && triggering_id(n, x) == id {
            Some(x)
        } else {
            last_with_id(n, ts, id, ts.len() as int)
        } by {
        lemma_last_with_id_prefix(n, ts, x, id, ts.len() as int);
        assert(ts.push(x)[ts.len() as int] == x);
    }
}

proof fn lemma_last_with_id_prefix(n: Seq<ArxmlNode>, ts: Seq<int>, x: int, id: u64, k: int)
    requires
        0 <= k <= ts.len(),
    ensures
        last_with_id(n, ts.push(x), id, k) == last_with_id(n, ts, id, k),
    decreases k,
{
    if k > 0 {
        assert(ts.push(x)[k - 1] == ts[k - 1]);
        lemma_last_with_id_prefix(n, ts, x, id, k - 1);
    }
}

/// `m` holds, for each CAN id, the frame triggering read from the last of `ts`
/// with that id that can be read.
pub open spec fn triggerings_match(
    n: Seq<ArxmlNode>,
    ts: Seq<int>,
    has_fd: bool,
    m: Map<u64, CanFrameTriggering>,
) -> bool {
    &&& forall|id: u64| #[trigger]
        m.contains_key(id) == (last_with_id(n, ts, id, ts.len() as int) is Some)
    &&& forall|id: u64| #[trigger]
        m.contains_key(id) ==> (last_with_id(n, ts, id, ts.len() as int) matches Some(t)
            && triggering_matches(n, t, has_fd, m[id]))
}

/// `c` is read from the CanCluster `e`: its name, baudrates, and for each CAN id
/// the last frame triggering with that id that can be read.
pub open spec fn cluster_matches(n: Seq<ArxmlNode>, e: int, c: CanCluster) -> bool {
    match cluster_conditional(n, e) {
        None => false,
        Some(cond) => {
            let baudrate = int_or_zero(sub_int(n, cond, "BAUDRATE"@));
            &&& n[e].item_name == Some(c.name)
            &&& c.baudrate == baudrate
            &&& c.canfd_baudrate == int_or_zero(sub_int(n, cond, "CAN-FD-BAUDRATE"@))
            &&& triggerings_match(n, cluster_triggerings(n, e), baudrate > 0, c.can_frame_triggerings@)
        },
    }
}

/// The last of the first `k` elements of `n` that is a CanCluster named `name`
/// that can be read.
pub open spec fn last_cluster(n: Seq<ArxmlNode>, name: Seq<char>, k: int) -> Option<int>
    decreases k,
{
    if k <= 0 || k > n.len() {
        None
    } else if n[k - 1].name@ == "CAN-CLUSTER"@ && cluster_error(n, k - 1) is None && (n[k - 1].item_name matches Some(s) && s@ == name) {
        Some(k - 1)
    } else {
        last_cluster(n, name, k - 1)
    }
}

/// `r` holds, for each name, the cluster read from the last CanCluster among the
/// first `k` elements of `n` with that name that can be read.
pub open spec fn clusters_upto(n: Seq<ArxmlNode>, r: CanClusters, k: int) -> bool {
    &&& forall|name: Seq<char>| #[trigger]
        r.lookup(name) is None <==> last_cluster(n, name, k) is None
    &&& forall|name: Seq<char>| #[trigger]
        r.lookup(name) matches Some(c) ==> (last_cluster(n, name, k) matches Some(e) && cluster_matches(n, e, c))
}

/// `r` holds, for each name, the cluster read from the last CanCluster of the
/// document with that name that can be read.
pub open spec fn clusters_match(n: Seq<ArxmlNode>, r: CanClusters) -> bool {
    clusters_upto(n, r, n.len() as int)
}

/// The timings of a parsed ISignalIPdu come from the transmission mode true
/// timing of the PDU: the cyclic period and offset from the `VALUE`s under the
/// `TIME-PERIOD` and `TIME-OFFSET` of its `CYCLIC-TIMING`, the number of
/// repetitions and the repetition period from the `NUMBER-OF-REPETITIONS` and
/// the `VALUE` under the `REPETITION-PERIOD` of its `EVENT-CONTROLLED-TIMING`;
/// each is 0 where its element is missing.
pub proof fn law_pdu_timings_come_from_the_true_timing(
    n: Seq<ArxmlNode>,
    pdu: int,
    p: ISignalIPdu,
    specs: int,
    timing: int,
    declaration: int,
    true_timing: int,
)
    requires
        isignal_ipdu_matches(n, pdu, p),
        child_named(n, pdu, "I-PDU-TIMING-SPECIFICATIONS"@) == Some(specs),
        child_named(n, specs, "I-PDU-TIMING"@) == Some(timing),
        child_named(n, timing, "TRANSMISSION-MODE-DECLARATION"@) == Some(declaration),
        child_named(n, declaration, "TRANSMISSION-MODE-TRUE-TIMING"@) == Some(true_timing),
    ensures
        p.number_of_repetitions == match child_named(n, true_timing, "EVENT-CONTROLLED-TIMING"@) {
            Some(event) => match sub_int(n, event, "NUMBER-OF-REPETITIONS"@) {
                Some(v) => v,
                None => 0,
            },
            None => 0,
        },
        p.repetition_period_value == match child_named(n, true_timing, "EVENT-CONTROLLED-TIMING"@) {
            Some(event) => match child_named(n, event, "REPETITION-PERIOD"@) {
                Some(r) => match float_bits(sub_content(n, r, "VALUE"@)) {
                    Some(v) => v,
                    None => 0,
                },
                None => 0,
            },
            None => 0,
        },
        p.cyclic_timing_period_value == match child_named(n, true_timing, "CYCLIC-TIMING"@) {
            Some(cyclic) => match child_named(n, cyclic, "TIME-PERIOD"@) {
                Some(r) => match float_bits(sub_content(n, r, "VALUE"@)) {
                    Some(v) => v,
                    None => 0,
                },
                None => 0,
            },
            None => 0,
        },
        p.cyclic_timing_offset_value == match child_named(n, true_timing, "CYCLIC-TIMING"@) {
            Some(cyclic) => match child_named(n, cyclic, "TIME-OFFSET"@) {
                Some(r) => match float_bits(sub_content(n, r, "VALUE"@)) {
                    Some(v) => v,
                    None => 0,
                },
                None => 0,
            },
            None => 0,
        },
{
}

/// A parsed frame triggering reads each of its fields from its own element: the
/// CAN id from `IDENTIFIER`; the receive behavior from `CAN-FRAME-RX-BEHAVIOR`
/// and the transmit behavior from `CAN-FRAME-TX-BEHAVIOR`, each CAN FD when its
/// text reads `CAN-FD` in upper case, or when it is empty or missing and the
/// cluster has an FD baudrate; 29-bit addressing when `CAN-ADDRESSING-MODE`
/// reads `EXTENDED` in any ASCII case; the RX range from the bounds under
/// `RX-IDENTIFIER-RANGE`, 0 without one; the frame length from the frame's
/// `FRAME-LENGTH`.
pub proof fn law_triggering_fields_come_from_their_elements(
    n: Seq<ArxmlNode>,
    t: int,
    has_fd: bool,
    c: CanFrameTriggering,
)
    requires
        triggering_matches(n, t, has_fd, c),
    ensures
        sub_int(n, t, "IDENTIFIER"@) == Some(c.can_id),
        c.frame_rx_behavior == match sub_text(n, t, "CAN-FRAME-RX-BEHAVIOR"@) {
            Some(x) => uppercase(x) == "CAN-FD"@ || (x.len() == 0 && has_fd),
            None => uppercase(Seq::empty()) == "CAN-FD"@ || has_fd,
        },
        c.frame_tx_behavior == match sub_text(n, t, "CAN-FRAME-TX-BEHAVIOR"@) {
            Some(x) => uppercase(x) == "CAN-FD"@ || (x.len() == 0 && has_fd),
            None => uppercase(Seq::empty()) == "CAN-FD"@ || has_fd,
        },
        enum_text(sub_content(n, t, "CAN-ADDRESSING-MODE"@)) matches Some(mode) ==> c.can_29_bit_addressing
            == ascii_lower_eq(mode@, "extended"@),
        match child_named(n, t, "RX-IDENTIFIER-RANGE"@) {
            Some(r) => c.rx_range_lower == int_or_zero(sub_int(n, r, "LOWER-CAN-ID"@))
                && c.rx_range_upper == int_or_zero(sub_int(n, r, "UPPER-CAN-ID"@)),
            None => c.rx_range_lower == 0 && c.rx_range_upper == 0,
        },
        required_reference(n, t, "FRAME-REF"@) matches Some(f) && c.frame_length == int_or_zero(
            sub_int(n, f, "FRAME-LENGTH"@),
        ) && n[f].item_name == Some(c.frame_name),
{
}

/// A signal mapping records what its signal and the mapping say: the name and
/// the length of the signal that `I-SIGNAL-REF` refers to, the mapping's own
/// packing byte order and start position, and, where the signal has an
/// `INIT-VALUE` holding a numerical value specification with a `VALUE`, that
/// value; a signal without an `INIT-VALUE` has none.
pub proof fn law_signal_mappings_read_signal_and_mapping(n: Seq<ArxmlNode>, m: int, info: SignalInfo)
    requires
        info_matches(n, m, info),
    ensures
        child_named(n, m, "I-SIGNAL-REF"@) matches Some(r) && target_of(n, r) matches Some(s) && {
            &&& n[s].item_name == Some(info.name)
            &&& sub_int(n, s, "LENGTH"@) == Some(info.length)
            &&& match child_named(n, s, "INIT-VALUE"@) {
                None => info.init_values == InitValues::NotExist(true),
                Some(iv) => match first_child(n, iv) {
                    Some(spec) => n[spec].name@ == "NUMERICAL-VALUE-SPECIFICATION"@ ==> match sub_int(
                        n,
                        spec,
                        "VALUE"@,
                    ) {
                        Some(v) => info.init_values == InitValues::Single(v),
                        None => true,
                    },
                    None => true,
                },
            }
        },
        sub_text(n, m, "PACKING-BYTE-ORDER"@) == Some(info.byte_order@),
        sub_int(n, m, "START-POSITION"@) == Some(info.start_pos),
{
    if let Some(s) = signal_target(n, m) {
        if let Some(iv) = child_named(n, s, "INIT-VALUE"@) {
            if let Some(spec) = first_child(n, iv) {
                if n[spec].name@ == "NUMERICAL-VALUE-SPECIFICATION"@ {
                    lemma_first_child_named(n, iv, spec);
                    reveal_strlit("NUMERICAL-VALUE-SPECIFICATION");
                    reveal_strlit("CONSTANT-REFERENCE");
                    assert("NUMERICAL-VALUE-SPECIFICATION"@[0] != "CONSTANT-REFERENCE"@[0]);
                    assert(init_value_spec(n, iv) == Ok::<(int, int), ArxmlError>((iv, spec)));
                }
            }
        }
    }
}

proof fn lemma_first_child_named(n: Seq<ArxmlNode>, i: int, c: int)
    requires
        first_child(n, i) == Some(c),
    ensures
        child_named(n, i, n[c].name@) == Some(c),
{
    let cs = children(n, i);
    assert(cs.len() > 0 && cs[0] == c);
}

/// A PDU mapping reads the PDU it refers to: the PDU's name, length, dynamic
/// length and category from the PDU, the byte order from the mapping's own
/// `PACKING-BYTE-ORDER` (big endian unless it reads
/// `MOST-SIGNIFICANT-BYTE-LAST`), and the PDU's kind from its element name.
pub proof fn law_pdu_mappings_read_their_pdu(n: Seq<ArxmlNode>, m: int, pm: PduMapping)
    requires
        pdu_mapping_matches(n, m, pm),
    ensures
        required_reference(n, m, "PDU-REF"@) matches Some(p) && {
            &&& n[p].item_name == Some(pm.name)
            &&& sub_int(n, p, "LENGTH"@) == Some(pm.length)
            &&& pm.dynamic_length@ == match sub_text(n, p, "HAS-DYNAMIC-LENGTH"@) {
                Some(x) => x,
                None => Seq::empty(),
            }
            &&& pm.category@ == match sub_text(n, p, "CATEGORY"@) {
                Some(x) => x,
                None => Seq::empty(),
            }
            &&& (pm.pdu is ISignalIPdu <==> n[p].name@ == "I-SIGNAL-I-PDU"@)
            &&& (pm.pdu matches Pdu::ISignalIPdu(ip) ==> ip.unused_bit_pattern == ((match sub_int(
                n,
                p,
                "UNUSED-BIT-PATTERN"@,
            ) {
                Some(v) => v,
                None => 0,
            }) % 2 == 1))
        },
        pm.byte_order == (sub_text(n, m, "PACKING-BYTE-ORDER"@) != Some("MOST-SIGNIFICANT-BYTE-LAST"@)),
{
    reveal_strlit("MOST-SIGNIFICANT-BYTE-LAST");
    if sub_text(n, m, "PACKING-BYTE-ORDER"@) is None {
        assert(Seq::<char>::empty().len() != "MOST-SIGNIFICANT-BYTE-LAST"@.len());
    }
}

/// A parsed frame triggering is named by its own short name, and holds one PDU
/// mapping per `PDU-TO-FRAME-MAPPINGS` child of its frame, in order.
pub proof fn law_triggerings_hold_one_mapping_per_child(n: Seq<ArxmlNode>, t: int, has_fd: bool, c: CanFrameTriggering)
    requires
        triggering_matches(n, t, has_fd, c),
    ensures
        n[t].item_name == Some(c.frame_triggering_name),
        required_reference(n, t, "FRAME-REF"@) matches Some(f) && c.pdu_mappings@.len() == match child_named(
            n,
            f,
            "PDU-TO-FRAME-MAPPINGS"@,
        ) {
            Some(ms) => children(n, ms).len(),
            None => 0,
        },
{
}

/// A parsed cluster is named by its short name and takes its baudrates from its
/// conditional; each frame triggering is stored under its own CAN id, and is
/// read with an FD baudrate exactly when the cluster's `BAUDRATE` is above 0.
pub proof fn law_clusters_read_their_conditional(n: Seq<ArxmlNode>, e: int, c: CanCluster)
    requires
        cluster_matches(n, e, c),
    ensures
        n[e].item_name == Some(c.name),
        child_named(n, e, "CAN-CLUSTER-VARIANTS"@) matches Some(v) && child_named(
            n,
            v,
            "CAN-CLUSTER-CONDITIONAL"@,
        ) matches Some(cond) && c.baudrate == (match sub_int(n, cond, "BAUDRATE"@) {
            Some(b) => b,
            None => 0,
        }) && c.canfd_baudrate == (match sub_int(n, cond, "CAN-FD-BAUDRATE"@) {
            Some(b) => b,
            None => 0,
        }),
        forall|id: u64| #[trigger]
            c.can_frame_triggerings@.contains_key(id) ==> c.can_frame_triggerings@[id].can_id == id && exists|t: int, fd: bool|
                fd == (c.baudrate > 0) && #[trigger] triggering_matches(n, t, fd, c.can_frame_triggerings@[id]),
{
    let ts = cluster_triggerings(n, e);
    assert forall|id: u64| #[trigger] c.can_frame_triggerings@.contains_key(id) implies c.can_frame_triggerings@[id].can_id
        == id && exists|t: int, fd: bool| fd == (c.baudrate > 0) && #[trigger] triggering_matches(n, t, fd, c.can_frame_triggerings@[id]) by {
        let t = last_with_id(n, ts, id, ts.len() as int)->Some_0;
        lemma_last_with_id_has_id(n, ts, id, ts.len() as int);
        assert(triggering_matches(n, t, c.baudrate > 0, c.can_frame_triggerings@[id]));
    }
}

proof fn lemma_last_with_id_has_id(n: Seq<ArxmlNode>, ts: Seq<int>, id: u64, k: int)
    ensures
        last_with_id(n, ts, id, k) matches Some(t) ==> triggering_id(n, t) == id,
    decreases k,
{
    if k > 0 && k <= ts.len() {
        lemma_last_with_id_has_id(n, ts, id, k - 1);
    }
}

/// The receiving and sending ECUs of a parsed frame triggering are the ECUs of
/// its frame ports, one per port: each receiving ECU owns a port whose
/// communication direction is `IN`, each sending ECU one whose direction is
/// `OUT`.
pub proof fn law_triggering_ecus_follow_the_port_directions(
    n: Seq<ArxmlNode>,
    t: int,
    has_fd: bool,
    c: CanFrameTriggering,
)
    requires
        triggering_matches(n, t, has_fd, c),
    ensures
        c.receiver_ecus@.len() + c.sender_ecus@.len() == frame_ports(n, t).len(),
        forall|i: int|
            0 <= i < c.receiver_ecus@.len() ==> exists|k: int|
                0 <= k < frame_ports(n, t).len() && ecu_of(n, frame_ports(n, t)[k]) == Some(
                    #[trigger] c.receiver_ecus@[i],
                ) && (direction_of(n, frame_ports(n, t)[k]) matches Some(d) && d@ == "IN"@),
        forall|i: int|
            0 <= i < c.sender_ecus@.len() ==> exists|k: int|
                0 <= k < frame_ports(n, t).len() && ecu_of(n, frame_ports(n, t)[k]) == Some(
                    #[trigger] c.sender_ecus@[i],
                ) && (direction_of(n, frame_ports(n, t)[k]) matches Some(d) && d@ == "OUT"@),
{
    let es = gather(frame_ports(n, t), port_entry_fn(n, c.frame_triggering_name))->Ok_0;
    law_ecus_follow_the_port_directions(n, t, c.frame_triggering_name, es);
}

proof fn lemma_last_cluster(n: Seq<ArxmlNode>, name: Seq<char>, k: int)
    ensures
        last_cluster(n, name, k) matches Some(e) ==> {
            &&& 0 <= e < k
            &&& n[e].name@ == "CAN-CLUSTER"@
            &&& cluster_error(n, e) is None
            &&& n[e].item_name matches Some(s) && s@ == name
            &&& forall|f: int|
                e < f < k ==> !(n[f].name@ == "CAN-CLUSTER"@ && cluster_error(n, f) is None && (
                #[trigger] n[f].item_name matches Some(s) && s@ == name))
        },
        last_cluster(n, name, k) is None && 0 <= k <= n.len() ==> forall|f: int|
            0 <= f < k ==> !(n[f].name@ == "CAN-CLUSTER"@ && cluster_error(n, f) is None && (
            #[trigger] n[f].item_name matches Some(s) && s@ == name)),
    decreases k,
{
    if k > 0 && k <= n.len() {
        lemma_last_cluster(n, name, k - 1);
    }
}

/// The clusters that [`ArxmlParser::parse_file`] and
/// [`ArxmlParser::can_clusters`] give are the `CAN-CLUSTER` elements of the
/// document that can be read, each under its short name: a cluster under a
/// name is read from the last such element with that name, and every such
/// element's name has a cluster.
pub proof fn law_clusters_are_the_last_can_clusters_by_name(n: Seq<ArxmlNode>, r: CanClusters, name: Seq<char>)
    requires
        clusters_match(n, r),
    ensures
        r.lookup(name) matches Some(c) ==> exists|e: int|
            0 <= e < n.len() && n[e].name@ == "CAN-CLUSTER"@ && #[trigger] cluster_matches(n, e, c) && c.name@ == name
                && forall|f: int|
                e < f < n.len() ==> !(n[f].name@ == "CAN-CLUSTER"@ && cluster_error(n, f) is None && (
                #[trigger] n[f].item_name matches Some(s) && s@ == name)),
        (exists|e: int|
            0 <= e < n.len() && n[e].name@ == "CAN-CLUSTER"@ && cluster_error(n, e) is None && (
            #[trigger] n[e].item_name matches Some(s) && s@ == name)) ==> r.lookup(name) is Some,
{
    lemma_last_cluster(n, name, n.len() as int);
    if let Some(c) = r.lookup(name) {
        let e = last_cluster(n, name, n.len() as int)->Some_0;
        assert(cluster_matches(n, e, c));
    }
}

/// The parser of ARXML descriptions.
pub struct ArxmlParser {}

impl ArxmlParser {
    /// Reads an ISignalToIPduMapping: a mapping of an ISignal is recorded in
    /// `signals` under the path of the signal reference; a mapping of an
    /// ISignalGroup adds the group to `signal_groups`.
    fn handle_isignal_to_pdu_mappings(
        &self,
        doc: &ArxmlDocument,
        mapping: usize,
        signals: &mut StringMap<SignalInfo>,
        signal_groups: &mut Vec<usize>,
    ) -> (r: Result<(), ArxmlError>)
        requires
            mapping < doc@.len(),
            forall|k: int| 0 <= k < old(signal_groups)@.len() ==> #[trigger] old(signal_groups)@[k] < doc@.len(),
        ensures
            forall|k: int| 0 <= k < final(signal_groups)@.len() ==> #[trigger] final(signal_groups)@[k] < doc@.len(),
            match mapping_error(doc@, mapping as int) {
                Some(e) => r matches Err(x) && x == e && final(signals).entries() == old(signals).entries()
                    && final(signal_groups)@ == old(signal_groups)@,
                None => r is Ok && match signal_target(doc@, mapping as int) {
                    Some(_) => final(signal_groups)@ == old(signal_groups)@ && exists|k: String, v: SignalInfo|
                        sub_text(doc@, mapping as int, "I-SIGNAL-REF"@) == Some(k@) && info_matches(
                            doc@,
                            mapping as int,
                            v,
                        ) && final(signals).entries() == old(signals).entries_after_insert(k, v),
                    None => final(signals).entries() == old(signals).entries() && match group_target(
                        doc@,
                        mapping as int,
                    ) {
                        Some(g) => idx_view(final(signal_groups)@) == idx_view(old(signal_groups)@).push(g),
                        None => final(signal_groups)@ == old(signal_groups)@,
                    },
                },
            },
    {
        let ghost n = doc@;
        let signal = match doc.sub_element(mapping, "I-SIGNAL-REF") {
            Some(e) => doc.target(e),
            None => None,
        };
        if let Some(signal) = signal {
            let refpath = match get_subelement_string_value(doc, mapping, "I-SIGNAL-REF") {
                Some(path) => path,
                None => {
                    return Err(ArxmlError::MissingStringValue { subelement: "I-SIGNAL-REF" });
                },
            };
            let name = match doc.item_name(signal) {
                Some(name) => name,
                None => {
                    return Err(ArxmlError::Item(Error::GetItemName { item: "ISignalRef" }));
                },
            };
            let byte_order = match get_subelement_string_value(doc, mapping, "PACKING-BYTE-ORDER") {
                Some(b) => b,
                None => {
                    return Err(ArxmlError::MissingStringValue { subelement: "PACKING-BYTE-ORDER" });
                },
            };
            let start_pos = match get_required_int_value(doc, mapping, "START-POSITION") {
                Ok(v) => v,
                Err(e) => {
                    return Err(e);
                },
            };
            let length = match get_required_int_value(doc, signal, "LENGTH") {
                Ok(v) => v,
                Err(e) => {
                    return Err(e);
                },
            };
            let mut init_values = InitValues::NotExist(true);
            if let Some(mut init_value_elem) = doc.sub_element(signal, "INIT-VALUE") {
                match process_init_value(doc, &mut init_value_elem, &mut init_values, &name) {
                    Ok(()) => {},
                    Err(e) => {
                        return Err(e);
                    },
                }
            }
            let info = SignalInfo { name, byte_order, start_pos, length, init_values };
            assert(info_matches(n, mapping as int, info));
            let ghost before = *signals;
            signals.insert(refpath, info);
            assert(signals.entries() == before.entries_after_insert(refpath, info));
            Ok(())
        } else {
            let group = match doc.sub_element(mapping, "I-SIGNAL-GROUP-REF") {
                Some(e) => doc.target(e),
                None => None,
            };
            if let Some(signal_group) = group {
                signal_groups.push(signal_group);
                assert(idx_view(signal_groups@) =~= idx_view(old(signal_groups)@).push(signal_group as int));
            }
            Ok(())
        }
    }

    /// Reads the signals of a PDU: the signals of its ISignalGroups go to
    /// `grouped_signals`, one group each, and the other signals to
    /// `ungrouped_signals`, which is then ordered by start position.
    #[verifier::spinoff_prover]
    #[verifier::rlimit(100)]
    fn handle_isignals(
        &self,
        doc: &ArxmlDocument,
        pdu: usize,
        grouped_signals: &mut Vec<ISignalGroup>,
        ungrouped_signals: &mut Vec<ISignal>,
    ) -> (r: Result<(), ArxmlError>)
        requires
            pdu < doc@.len(),
        ensures
            match isignals_error(doc@, pdu as int) {
                Some(e) => r matches Err(x) && x == e,
                None => r is Ok && isignals_read(
                    doc@,
                    pdu as int,
                    old(ungrouped_signals)@,
                    final(ungrouped_signals)@,
                    final(grouped_signals)@.skip(old(grouped_signals)@.len() as int),
                ),
            },
            final(grouped_signals)@.len() >= old(grouped_signals)@.len(),
            final(grouped_signals)@.take(old(grouped_signals)@.len() as int) == old(grouped_signals)@,
    {
        let ghost n = doc@;
        let ghost grouped_start = grouped_signals@;
        let ghost mf = mapping_fn(n);
        let mut signals: StringMap<SignalInfo> = StringMap::new();
        let mut signal_groups: Vec<usize> = Vec::new();
        if let Some(mappings) = doc.sub_element(pdu, "I-SIGNAL-TO-PDU-MAPPINGS") {
            let elems = doc.children(mappings);
            let ghost cs = children(n, mappings as int);
            let mut i: usize = 0;
            assert(cs.take(0) =~= Seq::<int>::empty());
            assert(idx_view(signal_groups@) =~= Seq::<int>::empty());
            while i < elems.len()
                invariant
                    n == doc@,
                    mf == mapping_fn(n),
                    i <= elems.len(),
                    idx_view(elems@) == cs,
                    cs == pdu_signal_mappings(n, pdu as int),
                    isignal_groups(n, pdu as int) == gather(cs, mf),
                    forall|k: int| 0 <= k < elems@.len() ==> #[trigger] elems@[k] < n.len(),
                    forall|k: int| 0 <= k < signal_groups@.len() ==> #[trigger] signal_groups@[k] < n.len(),
                    gather(cs.take(i as int), mf) == Ok::<Seq<int>, ArxmlError>(idx_view(signal_groups@)),
                    mapped_entries(n, cs.take(i as int), signals.entries()),
                    grouped_signals@ == grouped_start,
                decreases elems.len() - i,
            {
                proof {
                    lemma_gather_step(cs, mf, i as int);
                }
                assert(cs[i as int] == elems@[i as int]);
                let ghost before = signals;
                match self.handle_isignal_to_pdu_mappings(doc, elems[i], &mut signals, &mut signal_groups) {
                    Ok(()) => {},
                    Err(e) => {
                        proof {
                            lemma_gather_err(cs, mf, i + 1);
                        }
                        assert(grouped_signals@.take(grouped_start.len() as int) =~= grouped_start);
                        return Err(e);
                    },
                }
                proof {
                    let m = cs[i as int];
                    assert(cs.take(i + 1).drop_last() =~= cs.take(i as int));
                    assert(cs.take(i + 1).last() == m);
                    if signal_target(n, m) is Some {
                        let (key, value) = choose|key: String, value: SignalInfo|
                            sub_text(n, m, "I-SIGNAL-REF"@) == Some(key@) && info_matches(n, m, value)
                                && signals.entries() == before.entries_after_insert(key, value);
                        assert(before.entries_after_insert(key, value) == seq_insert(
                            before.entries(),
                            key,
                            value,
                        ));
                        assert(mapped_entries(n, cs.take(i + 1), signals.entries()));
                    }
                }
                i = i + 1;
            }
            proof {
                lemma_gather_all(cs, mf);
                assert(cs.take(cs.len() as int) =~= cs);
            }
        } else {
            assert(idx_view(signal_groups@) =~= Seq::<int>::empty());
        }
        let ghost gs = idx_view(signal_groups@);
        assert(isignal_groups(n, pdu as int) == Ok::<Seq<int>, ArxmlError>(gs));
        let ghost gf = group_check_fn(n);
        let ghost mut states: Seq<Seq<(String, SignalInfo)>> = seq![signals.entries()];
        let mut g: usize = 0;
        assert(gs.take(0) =~= Seq::<int>::empty());
        while g < signal_groups.len()
            invariant
                n == doc@,
                gf == group_check_fn(n),
                g <= signal_groups.len(),
                gs == idx_view(signal_groups@),
                isignal_groups(n, pdu as int) == Ok::<Seq<int>, ArxmlError>(gs),
                forall|k: int| 0 <= k < signal_groups@.len() ==> #[trigger] signal_groups@[k] < n.len(),
                gather(gs.take(g as int), gf) == Ok::<Seq<int>, ArxmlError>(gs.take(g as int)),
                grouped_start == old(grouped_signals)@,
                ungrouped_signals@ == old(ungrouped_signals)@,
                grouped_signals@.len() == grouped_start.len() + g,
                grouped_signals@.take(grouped_start.len() as int) == grouped_start,
                forall|k: int|
                    0 <= k < g ==> group_header(n, gs[k], #[trigger] grouped_signals@[grouped_start.len() + k]),
                states.len() == g + 1,
                mapped_entries(n, pdu_signal_mappings(n, pdu as int), states[0]),
                signals.entries() == states[g as int],
                forall|k: int|
                    0 <= k < g ==> states[k + 1] == group_pick(n, gs[k], #[trigger] states[k]).0
                        && same_at_start(
                        grouped_signals@[grouped_start.len() + k].isignals@,
                        group_pick(n, gs[k], states[k]).1,
                    ),
            decreases signal_groups.len() - g,
        {
            proof {
                lemma_gather_step(gs, gf, g as int);
            }
            assert(gs[g as int] == signal_groups@[g as int]);
            let ghost before = grouped_signals@;
            let ghost before_states = states;
            match process_signal_group(doc, signal_groups[g], &mut signals, grouped_signals) {
                Ok(()) => {},
                Err(e) => {
                    proof {
                        lemma_gather_err(gs, gf, g + 1);
                    }
                    return Err(e);
                },
            }
            proof {
                states = states.push(signals.entries());
            }
            assert(gs.take(g + 1) =~= gs.take(g as int).push(gs[g as int]));
            assert(grouped_signals@.take(grouped_start.len() as int) =~= before.take(grouped_start.len() as int));
            assert forall|k: int|
                0 <= k < g + 1 implies group_header(n, gs[k], #[trigger] grouped_signals@[grouped_start.len() + k]) by {
                if k < g {
                    assert(grouped_signals@[grouped_start.len() + k] == before[grouped_start.len() + k]);
                }
            }
            assert forall|k: int|
                0 <= k < g + 1 implies states[k + 1] == group_pick(n, gs[k], #[trigger] states[k]).0
                    && same_at_start(
                    grouped_signals@[grouped_start.len() + k].isignals@,
                    group_pick(n, gs[k], states[k]).1,
                ) by {
                if k < g {
                    assert(grouped_signals@[grouped_start.len() + k] == before[grouped_start.len() + k]);
                    assert(states[k] == before_states[k]);
                    assert(states[k + 1] == before_states[k + 1]);
                } else {
                    assert(states[k] == before_states[g as int]);
                }
            }
            g = g + 1;
        }
        proof {
            lemma_gather_all(gs, gf);
            assert(gs.take(gs.len() as int) =~= gs);
        }
        let ghost fin = signals.entries();
        let ghost prior = ungrouped_signals@;
        let ghost mut done: int = 0;
        let mut remaining = signals.into_entries();
        assert(fin.skip(0) =~= fin);
        assert(prior + entry_signals(fin.take(0)) =~= prior);
        while remaining.len() > 0
            invariant
                n == doc@,
                gf == group_check_fn(n),
                grouped_start == old(grouped_signals)@,
                prior == old(ungrouped_signals)@,
                isignal_groups(n, pdu as int) == Ok::<Seq<int>, ArxmlError>(gs),
                gather(gs, gf) == Ok::<Seq<int>, ArxmlError>(gs),
                grouped_signals@.len() == grouped_start.len() + gs.len(),
                grouped_signals@.take(grouped_start.len() as int) == grouped_start,
                forall|k: int|
                    0 <= k < gs.len() ==> group_header(n, gs[k], #[trigger] grouped_signals@[grouped_start.len() + k]),
                states.len() == gs.len() + 1,
                mapped_entries(n, pdu_signal_mappings(n, pdu as int), states[0]),
                fin == states[gs.len() as int],
                forall|k: int|
                    0 <= k < gs.len() ==> states[k + 1] == group_pick(n, gs[k], #[trigger] states[k]).0
                        && same_at_start(
                        grouped_signals@[grouped_start.len() + k].isignals@,
                        group_pick(n, gs[k], states[k]).1,
                    ),
                0 <= done <= fin.len(),
                remaining@ == fin.skip(done),
                ungrouped_signals@ == prior + entry_signals(fin.take(done)),
            decreases remaining.len(),
        {
            assert(remaining@[0] == fin[done]);
            let (_, info) = remaining.remove(0);
            let byte_order = get_byte_order(&info.byte_order);
            let signal = ISignal {
                name: info.name,
                byte_order,
                start_pos: info.start_pos,
                length: info.length,
                init_values: info.init_values,
            };
            assert(signal == signal_of(fin[done].1));
            ungrouped_signals.push(signal);
            proof {
                assert(fin.take(done + 1) =~= fin.take(done).push(fin[done]));
                assert(entry_signals(fin.take(done + 1)) =~= entry_signals(fin.take(done)).push(
                    signal_of(fin[done].1),
                ));
                done = done + 1;
            }
            assert(remaining@ =~= fin.skip(done));
            assert(ungrouped_signals@ =~= prior + entry_signals(fin.take(done)));
        }
        assert(fin.take(done) =~= fin);
        let ghost unsorted = ungrouped_signals@;
        sort_by_start_pos(ungrouped_signals);
        let ghost added = grouped_signals@.skip(grouped_start.len() as int);
        assert forall|k: int| 0 <= k < gs.len() implies group_header(n, gs[k], #[trigger] added[k]) by {
            assert(added[k] == grouped_signals@[grouped_start.len() + k]);
        }
        assert(signal_states(n, pdu as int, gs, states, prior, ungrouped_signals@, added)) by {
            assert forall|k: int|
                0 <= k < gs.len() implies states[k + 1] == group_pick(n, gs[k], #[trigger] states[k]).0
                    && same_at_start(added[k].isignals@, group_pick(n, gs[k], states[k]).1) by {
                assert(added[k] == grouped_signals@[grouped_start.len() + k]);
            }
        }
        Ok(())
    }

    /// Reads an ISignalIPdu: its cyclic and event-controlled timing (zero where
    /// not given), its unused bit pattern and its signals.
    fn handle_isignal_ipdu(&self, doc: &ArxmlDocument, pdu: usize) -> (r: Result<ISignalIPdu, ArxmlError>)
        requires
            pdu < doc@.len(),
        ensures
            match isignals_error(doc@, pdu as int) {
                Some(e) => r matches Err(x) && x == e,
                None => r matches Ok(p) && isignal_ipdu_matches(doc@, pdu as int, p),
            },
    {
        let mut cyclic_timing_period_value: u64 = 0;
        let mut cyclic_timing_period_tolerance: Option<TimeRangeTolerance> = None;
        let mut cyclic_timing_offset_value: u64 = 0;
        let mut cyclic_timing_offset_tolerance: Option<TimeRangeTolerance> = None;
        let mut number_of_repetitions: u64 = 0;
        let mut repetition_period_value: u64 = 0;
        let mut repetition_period_tolerance: Option<TimeRangeTolerance> = None;

        let timing = match doc.sub_element(pdu, "I-PDU-TIMING-SPECIFICATIONS") {
            Some(e) => doc.sub_element(e, "I-PDU-TIMING"),
            None => None,
        };
        let declaration = match timing {
            Some(e) => doc.sub_element(e, "TRANSMISSION-MODE-DECLARATION"),
            None => None,
        };
        let true_timing = match declaration {
            Some(e) => doc.sub_element(e, "TRANSMISSION-MODE-TRUE-TIMING"),
            None => None,
        };
        if let Some(tx_mode_true_timing) = true_timing {
            if let Some(cyclic_timing) = doc.sub_element(tx_mode_true_timing, "CYCLIC-TIMING") {
                get_sub_element_and_time_range(
                    doc,
                    cyclic_timing,
                    "TIME-PERIOD",
                    &mut cyclic_timing_period_value,
                    &mut cyclic_timing_period_tolerance,
                );
                get_sub_element_and_time_range(
                    doc,
                    cyclic_timing,
                    "TIME-OFFSET",
                    &mut cyclic_timing_offset_value,
                    &mut cyclic_timing_offset_tolerance,
                );
            }
            if let Some(event_timing) = doc.sub_element(tx_mode_true_timing, "EVENT-CONTROLLED-TIMING") {
                number_of_repetitions = get_optional_int_value(doc, event_timing, "NUMBER-OF-REPETITIONS");
                get_sub_element_and_time_range(
                    doc,
                    event_timing,
                    "REPETITION-PERIOD",
                    &mut repetition_period_value,
                    &mut repetition_period_tolerance,
                );
            }
        }

        let unused_bit_pattern = get_unused_bit_pattern(doc, pdu);
        let mut grouped_signals: Vec<ISignalGroup> = Vec::new();
        let mut ungrouped_signals: Vec<ISignal> = Vec::new();
        match self.handle_isignals(doc, pdu, &mut grouped_signals, &mut ungrouped_signals) {
            Ok(()) => {},
            Err(e) => {
                return Err(e);
            },
        }
        assert(grouped_signals@.skip(0) =~= grouped_signals@);
        Ok(
            ISignalIPdu {
                cyclic_timing_period_value,
                cyclic_timing_period_tolerance,
                cyclic_timing_offset_value,
                cyclic_timing_offset_tolerance,
                number_of_repetitions,
                repetition_period_value,
                repetition_period_tolerance,
                unused_bit_pattern,
                ungrouped_signals,
                grouped_signals,
            },
        )
    }

    /// Reads an NmPdu: its unused bit pattern and its signals.
    fn handle_nm_pdu(&self, doc: &ArxmlDocument, pdu: usize) -> (r: Result<NmPdu, ArxmlError>)
        requires
            pdu < doc@.len(),
        ensures
            match isignals_error(doc@, pdu as int) {
                Some(e) => r matches Err(x) && x == e,
                None => r matches Ok(p) && p.unused_bit_pattern == unused_bit_pattern(doc@, pdu as int)
                    && isignals_match(doc@, pdu as int, p.ungrouped_signals@, p.grouped_signals@),
            },
    {
        let unused_bit_pattern = get_unused_bit_pattern(doc, pdu);
        let mut grouped_signals: Vec<ISignalGroup> = Vec::new();
        let mut ungrouped_signals: Vec<ISignal> = Vec::new();
        match self.handle_isignals(doc, pdu, &mut grouped_signals, &mut ungrouped_signals) {
            Ok(()) => {},
            Err(e) => {
                return Err(e);
            },
        }
        assert(grouped_signals@.skip(0) =~= grouped_signals@);
        Ok(NmPdu { unused_bit_pattern, ungrouped_signals, grouped_signals })
    }

    /// Reads the PDU that a PduToFrameMapping refers to. Only ISignalIPdus and
    /// NmPdus are supported.
    fn handle_pdu_mapping(&self, doc: &ArxmlDocument, pdu_mapping: usize) -> (r: Result<PduMapping, ArxmlError>)
        requires
            pdu_mapping < doc@.len(),
        ensures
            match pdu_mapping_error(doc@, pdu_mapping as int) {
                Some(e) => r matches Err(x) && x == e,
                None => r matches Ok(m) && pdu_mapping_matches(doc@, pdu_mapping as int, m),
            },
    {
        let pdu = match get_required_reference(doc, pdu_mapping, "PDU-REF") {
            Ok(p) => p,
            Err(e) => {
                return Err(e);
            },
        };
        let pdu_name = match doc.item_name(pdu) {
            Some(name) => name,
            None => {
                return Err(ArxmlError::Item(Error::GetItemName { item: "Pdu" }));
            },
        };
        let byte_order = get_optional_string(doc, pdu_mapping, "PACKING-BYTE-ORDER");
        let pdu_length = match get_required_int_value(doc, pdu, "LENGTH") {
            Ok(v) => v,
            Err(e) => {
                return Err(e);
            },
        };
        let pdu_dynamic_length = get_optional_string(doc, pdu, "HAS-DYNAMIC-LENGTH");
        let pdu_category = get_optional_string(doc, pdu, "CATEGORY");
        let pdu_contained_header_id_short = get_subelement_optional_string(
            doc,
            pdu,
            "CONTAINED-I-PDU-PROPS",
            "HEADER-ID-SHORT-HEADER",
        );
        let pdu_contained_header_id_long = get_subelement_optional_string(
            doc,
            pdu,
            "CONTAINED-I-PDU-PROPS",
            "HEADER-ID-LONG-HEADER",
        );
        let pdu_specific = if doc.has_name(pdu, "I-SIGNAL-I-PDU") {
            match self.handle_isignal_ipdu(doc, pdu) {
                Ok(p) => Pdu::ISignalIPdu(p),
                Err(e) => {
                    return Err(e);
                },
            }
        } else if doc.has_name(pdu, "NM-PDU") {
            match self.handle_nm_pdu(doc, pdu) {
                Ok(p) => Pdu::NmPdu(p),
                Err(e) => {
                    return Err(e);
                },
            }
        } else {
            return Err(ArxmlError::UnsupportedPdu { element: doc.name(pdu) });
        };
        Ok(
            PduMapping {
                name: pdu_name,
                byte_order: get_byte_order(&byte_order),
                length: pdu_length,
                dynamic_length: pdu_dynamic_length,
                category: pdu_category,
                contained_header_id_short: pdu_contained_header_id_short,
                contained_header_id_long: pdu_contained_header_id_long,
                pdu: pdu_specific,
            },
        )
    }

    /// Reads a CanFrameTriggering: the frame it triggers, its addressing mode,
    /// CAN FD behaviors (taken from the cluster's FD baudrate where missing), the
    /// receiving and sending ECUs, and the PDUs mapped into the frame.
    #[verifier::rlimit(60)]
    fn handle_can_frame_triggering(
        &self,
        doc: &ArxmlDocument,
        can_frame_triggering: usize,
        has_fd_baudrate: bool,
    ) -> (r: Result<CanFrameTriggering, ArxmlError>)
        requires
            can_frame_triggering < doc@.len(),
        ensures
            match triggering_error(doc@, can_frame_triggering as int) {
                Some(e) => r matches Err(x) && x == e,
                None => r matches Ok(c) && triggering_matches(
                    doc@,
                    can_frame_triggering as int,
                    has_fd_baudrate,
                    c,
                ),
            },
    {
        let ghost n = doc@;
        let ghost t = can_frame_triggering as int;
        let can_frame_triggering_name = match doc.item_name(can_frame_triggering) {
            Some(name) => name,
            None => {
                return Err(ArxmlError::Item(Error::GetItemName { item: "CanFrameTriggering" }));
            },
        };
        let can_id = match get_required_int_value(doc, can_frame_triggering, "IDENTIFIER") {
            Ok(v) => v,
            Err(e) => {
                return Err(e);
            },
        };
        let frame = match get_required_reference(doc, can_frame_triggering, "FRAME-REF") {
            Ok(f) => f,
            Err(e) => {
                return Err(e);
            },
        };
        let frame_name = match doc.item_name(frame) {
            Some(name) => name,
            None => {
                return Err(ArxmlError::Item(Error::GetItemName { item: "Frame" }));
            },
        };
        let addressing_item = match doc.sub_element(can_frame_triggering, "CAN-ADDRESSING-MODE") {
            Some(e) => match doc.content(e) {
                Some(cdata) => cdata.enum_value(),
                None => None,
            },
            None => None,
        };
        let addressing_mode_str = match addressing_item {
            Some(item) => item,
            None => String::from_str("STANDARD"),
        };
        let can_29_bit_addressing = is_extended_addressing(&addressing_mode_str);

        let frame_rx_behavior_str = get_optional_string(doc, can_frame_triggering, "CAN-FRAME-RX-BEHAVIOR");
        let frame_rx_behavior = frame_fd_behavior(&frame_rx_behavior_str, has_fd_baudrate);
        let frame_tx_behavior_str = get_optional_string(doc, can_frame_triggering, "CAN-FRAME-TX-BEHAVIOR");
        let frame_tx_behavior = frame_fd_behavior(&frame_tx_behavior_str, has_fd_baudrate);

        let mut rx_range_lower: u64 = 0;
        let mut rx_range_upper: u64 = 0;
        if let Some(range_elem) = doc.sub_element(can_frame_triggering, "RX-IDENTIFIER-RANGE") {
            rx_range_lower = match get_required_int_value(doc, range_elem, "LOWER-CAN-ID") {
                Ok(v) => v,
                Err(e) => {
                    return Err(e);
                },
            };
            rx_range_upper = match get_required_int_value(doc, range_elem, "UPPER-CAN-ID") {
                Ok(v) => v,
                Err(e) => {
                    return Err(e);
                },
            };
        }

        let mut rx_ecus: Vec<String> = Vec::new();
        let mut tx_ecus: Vec<String> = Vec::new();
        match process_frame_ports(
            doc,
            can_frame_triggering,
            &can_frame_triggering_name,
            &mut rx_ecus,
            &mut tx_ecus,
        ) {
            Ok(()) => {},
            Err(e) => {
                return Err(e);
            },
        }
        assert(rx_ecus@ =~= Seq::<String>::empty() + rx_ecus@);
        assert(tx_ecus@ =~= Seq::<String>::empty() + tx_ecus@);

        let frame_length = get_optional_int_value(doc, frame, "FRAME-LENGTH");

        let ghost ms = frame_pdu_mappings(n, frame as int);
        let ghost pmf = pdu_mapping_fn(n);
        let mut pdu_mappings_vec: Vec<PduMapping> = Vec::new();
        if let Some(mappings) = doc.sub_element(frame, "PDU-TO-FRAME-MAPPINGS") {
            let elems = doc.children(mappings);
            let mut i: usize = 0;
            assert(ms.take(0) =~= Seq::<int>::empty());
            while i < elems.len()
                invariant
                    n == doc@,
                    pmf == pdu_mapping_fn(n),
                    ms == children(n, mappings as int),
                    i <= elems.len(),
                    idx_view(elems@) == ms,
                    forall|k: int| 0 <= k < elems@.len() ==> #[trigger] elems@[k] < n.len(),
                    gather(ms.take(i as int), pmf) == Ok::<Seq<int>, ArxmlError>(ms.take(i as int)),
                    pdu_mappings_vec@.len() == i,
                    forall|k: int|
                        0 <= k < i ==> pdu_mapping_matches(n, ms[k], #[trigger] pdu_mappings_vec@[k]),
                    t == can_frame_triggering as int,
                    triggering_head_error(n, t) is None,
                    triggered_frame(n, t) == Some(frame as int),
                    ms == frame_pdu_mappings(n, frame as int),
                decreases elems.len() - i,
            {
                proof {
                    lemma_gather_step(ms, pmf, i as int);
                }
                assert(ms[i as int] == elems@[i as int]);
                let mapping = match self.handle_pdu_mapping(doc, elems[i]) {
                    Ok(m) => m,
                    Err(e) => {
                        proof {
                            lemma_gather_err(ms, pmf, i + 1);
                        }
                        return Err(e);
                    },
                };
                pdu_mappings_vec.push(mapping);
                assert(ms.take(i + 1) =~= ms.take(i as int).push(ms[i as int]));
                i = i + 1;
            }
            proof {
                lemma_gather_all(ms, pmf);
            }
        }

        Ok(
            CanFrameTriggering {
                frame_triggering_name: can_frame_triggering_name,
                frame_name,
                can_id,
                can_29_bit_addressing,
                frame_rx_behavior,
                frame_tx_behavior,
                rx_range_lower,
                rx_range_upper,
                receiver_ecus: rx_ecus,
                sender_ecus: tx_ecus,
                frame_length,
                pdu_mappings: pdu_mappings_vec,
            },
        )
    }

    /// Reads a CanCluster: its baudrates, of which one must be set, and the frame
    /// triggerings of its CAN physical channels, keyed by CAN id. A frame
    /// triggering that cannot be read is left out; of two with the same CAN id
    /// the later one stays.
    fn handle_can_cluster(&self, doc: &ArxmlDocument, can_cluster: usize) -> (r: Result<CanCluster, ArxmlError>)
        requires
            can_cluster < doc@.len(),
        ensures
            match cluster_error(doc@, can_cluster as int) {
                Some(e) => r matches Err(x) && x == e,
                None => r matches Ok(c) && cluster_matches(doc@, can_cluster as int, c),
            },
    {
        broadcast use vstd::std_specs::hash::group_hash_axioms;

        let ghost n = doc@;
        let can_cluster_name = match doc.item_name(can_cluster) {
            Some(name) => name,
            None => {
                return Err(ArxmlError::Item(Error::GetItemName { item: "CanCluster" }));
            },
        };
        let can_cluster_conditional = match get_required_sub_subelement(
            doc,
            can_cluster,
            "CAN-CLUSTER-VARIANTS",
            "CAN-CLUSTER-CONDITIONAL",
        ) {
            Ok(e) => e,
            Err(e) => {
                return Err(e);
            },
        };
        let can_cluster_baudrate = get_optional_int_value(doc, can_cluster_conditional, "BAUDRATE");
        let can_cluster_fd_baudrate = get_optional_int_value(doc, can_cluster_conditional, "CAN-FD-BAUDRATE");
        let has_fd_baudrate = can_cluster_baudrate > 0;
        if can_cluster_baudrate == 0 && can_cluster_fd_baudrate == 0 {
            return Err(ArxmlError::NoBaudrate { cluster: can_cluster_name });
        }
        let channels_elem = match doc.sub_element(can_cluster_conditional, "PHYSICAL-CHANNELS") {
            Some(e) => e,
            None => {
                return Err(ArxmlError::NoPhysicalChannels { cluster: can_cluster_name });
            },
        };
        let channels = doc.children(channels_elem);
        let ghost chs = children(n, channels_elem as int);
        let ghost mut pre: Seq<int> = Seq::empty();
        let mut can_frame_triggerings: HashMap<u64, CanFrameTriggering> = HashMap::new();
        let mut c: usize = 0;
        assert(chs.take(0) =~= Seq::<int>::empty());
        while c < channels.len()
            invariant
                n == doc@,
                c <= channels.len(),
                idx_view(channels@) == chs,
                forall|k: int| 0 <= k < channels@.len() ==> #[trigger] channels@[k] < n.len(),
                pre == channel_triggerings(n, chs.take(c as int)),
                triggerings_match(n, pre, has_fd_baudrate, can_frame_triggerings@),
            decreases channels.len() - c,
        {
            let ghost outer = pre;
            assert(chs.take(c + 1).drop_last() =~= chs.take(c as int));
            assert(chs.take(c + 1).last() == channels@[c as int]);
            if doc.has_name(channels[c], "CAN-PHYSICAL-CHANNEL") {
                if let Some(frame_triggerings) = doc.sub_element(channels[c], "FRAME-TRIGGERINGS") {
                    let triggerings = doc.children(frame_triggerings);
                    let ghost trs = children(n, frame_triggerings as int);
                    let mut t: usize = 0;
                    assert(outer + trs.take(0) =~= outer);
                    while t < triggerings.len()
                        invariant
                            n == doc@,
                            t <= triggerings.len(),
                            idx_view(triggerings@) == trs,
                            forall|k: int| 0 <= k < triggerings@.len() ==> #[trigger] triggerings@[k] < n.len(),
                            pre == outer + trs.take(t as int),
                            triggerings_match(n, pre, has_fd_baudrate, can_frame_triggerings@),
                        decreases triggerings.len() - t,
                    {
                        let ghost before = pre;
                        let ghost tr = trs[t as int];
                        assert(tr == triggerings@[t as int]);
                        proof {
                            pre = pre.push(tr);
                            assert(outer + trs.take(t + 1) =~= before.push(tr));
                            lemma_last_with_id_push(n, before, tr);
                        }
                        match self.handle_can_frame_triggering(doc, triggerings[t], has_fd_baudrate) {
                            Ok(value) => {
                                can_frame_triggerings.insert(value.can_id, value);
                            },
                            Err(_) => {},
                        }
                        t = t + 1;
                    }
                    assert(trs.take(trs.len() as int) =~= trs);
                } else {
                    assert(outer + Seq::<int>::empty() =~= outer);
                }
            } else {
                assert(outer + Seq::<int>::empty() =~= outer);
            }
            c = c + 1;
        }
        assert(chs.take(chs.len() as int) =~= chs);

        Ok(
            CanCluster {
                name: can_cluster_name,
                baudrate: can_cluster_baudrate,
                canfd_baudrate: can_cluster_fd_baudrate,
                can_frame_triggerings,
            },
        )
    }

    /// Parses the ARXML text `contents` of the file `file_name` and reads its CAN
    /// clusters (see [`can_clusters`](Self::can_clusters)); a reference that does
    /// not resolve is retried as the name of a constant under `/Constants/`. When
    /// the text cannot be loaded, the error tells why.
    pub fn parse_file(&self, file_name: &String, contents: &[u8]) -> (r: Result<CanClusters, String>)
        ensures
            r is Ok <==> arxml_loads(contents@, file_name@),
            match r {
                Ok(clusters) => clusters_match(
                    with_retries(
                        arxml_elements(contents@, file_name@),
                        arxml_retry_targets(contents@, file_name@, "/Constants/"@),
                    ),
                    clusters,
                ),
                Err(message) => message@.len() >= "Parsing failed. Error: "@.len() && message@.subrange(
                    0,
                    "Parsing failed. Error: "@.len() as int,
                ) == "Parsing failed. Error: "@,
            },
    {
        let loaded = match load_document(contents, file_name.as_str()) {
            Ok(elements) => match retry_targets(contents, file_name.as_str(), "/Constants/") {
                Ok(retries) => Ok((elements, retries)),
                Err(err) => Err(err),
            },
            Err(err) => Err(err),
        };
        match loaded {
            Ok((elements, retries)) => Ok(self.can_clusters(&ArxmlDocument::from_loaded(elements, retries))),
            Err(err) => {
                let prefix = String::from_str("Parsing failed. Error: ");
                let message = prefix.concat(error_text(&err).as_str());
                assert(message@.subrange(0, prefix@.len() as int) =~= prefix@);
                Err(message)
            },
        }
    }

    /// The CAN clusters of a document, keyed by name. A cluster that cannot be
    /// read is left out; of two clusters with the same name the later one stays.
    pub fn can_clusters(&self, doc: &ArxmlDocument) -> (r: CanClusters)
        ensures
            clusters_match(doc@, r),
    {
        let ghost n = doc@;
        let mut can_clusters = CanClusters::new();
        let mut k: usize = 0;
        while k < doc.len()
            invariant
                n == doc@,
                k <= n.len(),
                clusters_upto(n, can_clusters, k as int),
            decreases n.len() - k,
        {
            let ghost before = can_clusters;
            if doc.has_name(k, "CAN-CLUSTER") {
                match self.handle_can_cluster(doc, k) {
                    Ok(value) => {
                        can_clusters.insert(value);
                    },
                    Err(_) => {},
                }
            }
            k = k + 1;
        }
        can_clusters
    }
}

} // verus!
