//! Helpers that read values out of the elements of an ARXML document.

use vstd::multiset::Multiset;
use vstd::prelude::*;

use crate::arxml_document::{
    child_named, children, idx_view, retry_of, enum_text, first_child, float_bits, grandchild_named,
    parent, sub_content, sub_text, target_of, text_or_empty, ArxmlDocument, ArxmlNode,
    CharData,
};
use crate::arxml_structs::{
    E2EDataTransformationProps, ISignal, ISignalGroup, InitValues, TimeRange, TimeRangeTolerance,
};
use crate::integer_text::{decode_integer_text, decoded_integer};
use crate::string_map::StringMap;

verus! {

/// An item of the model lacks its name.
#[derive(Debug, PartialEq, Eq)]
pub enum Error<'a> {
    GetItemName { item: &'a str },
}

/// Why data could not be extracted from an ARXML document. Element names are
/// given in their XML spelling.
#[derive(Debug, PartialEq, Eq)]
pub enum ArxmlError {
    Item(Error<'static>),
    MissingSubSubElement { subelement: &'static str, sub_subelement: &'static str },
    MissingIntValue { subelement: &'static str },
    MissingStringValue { subelement: &'static str },
    MissingReference { subelement: &'static str },
    MissingSubElement { context: &'static str },
    MissingNumericalValue { signal: String },
    UnrecognizedInitValue { element: String },
    InvalidDirection { frame_triggering: String },
    NoCommunicationDirection { frame_triggering: String },
    NoEcuName { frame_triggering: String },
    UnsupportedPdu { element: String },
    NoBaudrate { cluster: String },
    NoPhysicalChannels { cluster: String },
    Load { message: String },
}

/// What the mapping of an ISignal into a PDU says about the signal.
#[derive(Debug)]
pub struct SignalInfo {
    pub name: String,
    pub byte_order: String,
    pub start_pos: u64,
    pub length: u64,
    pub init_values: InitValues,
}

/// Goes through the elements `cs` in order and collects what `f` gives for each,
/// leaving out `None`; the first error that `f` gives is the result.
pub open spec fn gather<T>(
    cs: Seq<int>,
    f: spec_fn(int) -> Result<Option<T>, ArxmlError>,
) -> Result<Seq<T>, ArxmlError>
    decreases cs.len(),
{
    if cs.len() == 0 {
        Ok(Seq::empty())
    } else {
        match gather(cs.drop_last(), f) {
            Err(e) => Err(e),
            Ok(v) => match f(cs.last()) {
                Err(e) => Err(e),
                Ok(Some(x)) => Ok(v.push(x)),
                Ok(None) => Ok(v),
            },
        }
    }
}

/// One more element of `cs` gathered.
pub proof fn lemma_gather_step<T>(cs: Seq<int>, f: spec_fn(int) -> Result<Option<T>, ArxmlError>, k: int)
    requires
        0 <= k < cs.len(),
    ensures
        gather(cs.take(k + 1), f) == match gather(cs.take(k), f) {
            Err(e) => Err(e),
            Ok(v) => match f(cs[k]) {
                Err(e) => Err(e),
                Ok(Some(x)) => Ok(v.push(x)),
                Ok(None) => Ok(v),
            },
        },
{
    assert(cs.take(k + 1).drop_last() =~= cs.take(k));
    assert(cs.take(k + 1).last() == cs[k]);
}

/// An error in a prefix of `cs` is the result of the whole.
pub proof fn lemma_gather_err<T>(cs: Seq<int>, f: spec_fn(int) -> Result<Option<T>, ArxmlError>, k: int)
    requires
        0 <= k <= cs.len(),
        gather(cs.take(k), f) is Err,
    ensures
        gather(cs, f) == gather(cs.take(k), f),
    decreases cs.len() - k,
{
    if k == cs.len() {
        assert(cs.take(k) =~= cs);
    } else {
        lemma_gather_step(cs, f, k);
        lemma_gather_err(cs, f, k + 1);
    }
}

/// All of `cs` gathered.
pub proof fn lemma_gather_all<T>(cs: Seq<int>, f: spec_fn(int) -> Result<Option<T>, ArxmlError>)
    ensures
        gather(cs.take(cs.len() as int), f) == gather(cs, f),
{
    assert(cs.take(cs.len() as int) =~= cs);
}

/// Decodes integer character data: string data as [`decode_integer_text`] reads
/// it; other character data gives `None`.
pub fn decode_integer(cdata: &CharData) -> (r: Option<u64>)
    ensures
        r == match cdata.spec_string_value() {
            Some(text) => decoded_integer(text@),
            None => None,
        },
{
    match cdata.string_value() {
        Some(text) => decode_integer_text(text.as_str()),
        None => None,
    }
}

/// The integer that content decodes to.
pub open spec fn int_of(c: Option<CharData>) -> Option<u64> {
    match c {
        Some(c) => match c.spec_string_value() {
            Some(text) => decoded_integer(text@),
            None => None,
        },
        None => None,
    }
}

/// The integer value of the child of element `i` named `name`.
pub open spec fn sub_int(n: Seq<ArxmlNode>, i: int, name: Seq<char>) -> Option<u64> {
    int_of(sub_content(n, i, name))
}

/// The value, or 0.
pub open spec fn int_or_zero(v: Option<u64>) -> u64 {
    match v {
        Some(v) => v,
        None => 0,
    }
}

/// The content of the child of element `i` named `name`.
fn sub_element_character_data<'a>(doc: &'a ArxmlDocument, i: usize, name: &str) -> (r: Option<&'a CharData>)
    requires
        i < doc@.len(),
    ensures
        match r {
            Some(c) => sub_content(doc@, i as int, name@) == Some(*c),
            None => sub_content(doc@, i as int, name@) is None,
        },
{
    match doc.sub_element(i, name) {
        Some(e) => match doc.content(e) {
            Some(c) => Some(c),
            None => None,
        },
        None => None,
    }
}

/// The tolerance of the time range held by element `i`: an absolute one, or
/// else a relative one.
pub open spec fn tolerance_of(n: Seq<ArxmlNode>, i: int) -> Option<TimeRangeTolerance> {
    let absolute = match child_named(n, i, "ABSOLUTE-TOLERANCE"@) {
        Some(a) => float_bits(sub_content(n, a, "ABSOLUTE"@)),
        None => None,
    };
    let relative = match child_named(n, i, "RELATIVE-TOLERANCE"@) {
        Some(r) => sub_int(n, r, "RELATIVE"@),
        None => None,
    };
    match absolute {
        Some(a) => Some(TimeRangeTolerance::Absolute(a)),
        None => match relative {
            Some(r) => Some(TimeRangeTolerance::Relative(r)),
            None => None,
        },
    }
}

/// The time range held by element `i`: there is one where its `VALUE` child
/// holds a floating-point number.
pub open spec fn time_range_of(n: Seq<ArxmlNode>, i: int) -> Option<TimeRange> {
    match float_bits(sub_content(n, i, "VALUE"@)) {
        Some(value) => Some(TimeRange { tolerance: tolerance_of(n, i), value }),
        None => None,
    }
}

/// The time range of the child of element `i` named `name`.
pub open spec fn time_range_under(n: Seq<ArxmlNode>, i: int, name: Seq<char>) -> Option<TimeRange> {
    match child_named(n, i, name) {
        Some(e) => time_range_of(n, e),
        None => None,
    }
}

/// The time range held by element `base`: its value, and an absolute tolerance
/// or else a relative one.
pub fn get_time_range(doc: &ArxmlDocument, base: usize) -> (r: Option<TimeRange>)
    requires
        base < doc@.len(),
    ensures
        r == time_range_of(doc@, base as int),
{
    let value = match sub_element_character_data(doc, base, "VALUE") {
        Some(cdata) => cdata.float_value_bits(),
        None => None,
    };
    let value = match value {
        Some(v) => v,
        None => {
            return None;
        },
    };
    let absolute = match doc.sub_element(base, "ABSOLUTE-TOLERANCE") {
        Some(e) => match sub_element_character_data(doc, e, "ABSOLUTE") {
            Some(cdata) => cdata.float_value_bits(),
            None => None,
        },
        None => None,
    };
    let tolerance = match absolute {
        Some(absolute_tolerance) => Some(TimeRangeTolerance::Absolute(absolute_tolerance)),
        None => {
            let relative = match doc.sub_element(base, "RELATIVE-TOLERANCE") {
                Some(e) => get_subelement_int_value(doc, e, "RELATIVE"),
                None => None,
            };
            match relative {
                Some(r) => Some(TimeRangeTolerance::Relative(r)),
                None => None,
            }
        },
    };
    Some(TimeRange { tolerance, value })
}

/// Sets `value` and `tolerance` from the time range of the child of `base` named
/// `sub_elem_name`, when there is one; leaves them as they are otherwise.
pub fn get_sub_element_and_time_range(
    doc: &ArxmlDocument,
    base: usize,
    sub_elem_name: &str,
    value: &mut u64,
    tolerance: &mut Option<TimeRangeTolerance>,
)
    requires
        base < doc@.len(),
    ensures
        match time_range_under(doc@, base as int, sub_elem_name@) {
            Some(tr) => *final(value) == tr.value && *final(tolerance) == tr.tolerance,
            None => *final(value) == *old(value) && *final(tolerance) == *old(tolerance),
        },
{
    let time_range = match doc.sub_element(base, sub_elem_name) {
        Some(e) => get_time_range(doc, e),
        None => None,
    };
    if let Some(time_range) = time_range {
        *value = time_range.value;
        *tolerance = time_range.tolerance;
    }
}

/// The child `sub_subelement_name` of the child `subelement_name` of `element`.
pub fn get_required_sub_subelement(
    doc: &ArxmlDocument,
    element: usize,
    subelement_name: &'static str,
    sub_subelement_name: &'static str,
) -> (r: Result<usize, ArxmlError>)
    requires
        element < doc@.len(),
    ensures
        match r {
            Ok(j) => grandchild_named(doc@, element as int, subelement_name@, sub_subelement_name@)
                == Some(j as int) && j < doc@.len(),
            Err(e) => grandchild_named(doc@, element as int, subelement_name@, sub_subelement_name@)
                is None && e == (ArxmlError::MissingSubSubElement {
                subelement: subelement_name,
                sub_subelement: sub_subelement_name,
            }),
        },
{
    let found = match doc.sub_element(element, subelement_name) {
        Some(e) => doc.sub_element(e, sub_subelement_name),
        None => None,
    };
    match found {
        Some(e) => Ok(e),
        None => Err(
            ArxmlError::MissingSubSubElement {
                subelement: subelement_name,
                sub_subelement: sub_subelement_name,
            },
        ),
    }
}

/// The integer value of the child of `element` named `subelement_name`.
pub fn get_subelement_int_value(doc: &ArxmlDocument, element: usize, subelement_name: &str) -> (r:
    Option<u64>)
    requires
        element < doc@.len(),
    ensures
        r == sub_int(doc@, element as int, subelement_name@),
{
    match sub_element_character_data(doc, element, subelement_name) {
        Some(cdata) => decode_integer(cdata),
        None => None,
    }
}

/// The integer value of the child of `element` named `subelement_name`, which
/// must exist.
pub fn get_required_int_value(
    doc: &ArxmlDocument,
    element: usize,
    subelement_name: &'static str,
) -> (r: Result<u64, ArxmlError>)
    requires
        element < doc@.len(),
    ensures
        match r {
            Ok(v) => sub_int(doc@, element as int, subelement_name@) == Some(v),
            Err(e) => sub_int(doc@, element as int, subelement_name@) is None && e
                == (ArxmlError::MissingIntValue { subelement: subelement_name }),
        },
{
    match get_subelement_int_value(doc, element, subelement_name) {
        Some(v) => Ok(v),
        None => Err(ArxmlError::MissingIntValue { subelement: subelement_name }),
    }
}

/// The integer value of the child of `element` named `subelement_name`, or 0.
pub fn get_optional_int_value(doc: &ArxmlDocument, element: usize, subelement_name: &str) -> (r: u64)
    requires
        element < doc@.len(),
    ensures
        r == int_or_zero(sub_int(doc@, element as int, subelement_name@)),
{
    match get_subelement_int_value(doc, element, subelement_name) {
        Some(v) => v,
        None => 0,
    }
}

/// The element that the child of `i` named `name` refers to: its resolved
/// target, or else what it resolves to once retried.
pub open spec fn required_reference(n: Seq<ArxmlNode>, i: int, name: Seq<char>) -> Option<int> {
    match child_named(n, i, name) {
        Some(s) => match target_of(n, s) {
            Some(t) => Some(t),
            None => retry_of(n, s),
        },
        None => None,
    }
}

/// The element that the reference held by the child of `element` named
/// `subelement_name` resolves to. When the reference does not resolve, it is
/// retried as the document records it: loaded by [`ArxmlParser::parse_file`],
/// with its text taken as the name of a constant under `/Constants/`. The
/// document is not changed: the rewritten text of a retried reference is not
/// kept in it.
///
/// [`ArxmlParser::parse_file`]: crate::arxml_parser::ArxmlParser::parse_file
pub fn get_required_reference(
    doc: &ArxmlDocument,
    element: usize,
    subelement_name: &'static str,
) -> (r: Result<usize, ArxmlError>)
    requires
        element < doc@.len(),
    ensures
        match r {
            Ok(t) => required_reference(doc@, element as int, subelement_name@) == Some(t as int)
                && t < doc@.len(),
            Err(e) => required_reference(doc@, element as int, subelement_name@) is None && e
                == (ArxmlError::MissingReference { subelement: subelement_name }),
        },
{
    if let Some(subelement) = doc.sub_element(element, subelement_name) {
        match doc.target(subelement) {
            Some(reference) => {
                return Ok(reference);
            },
            None => {
                if let Some(reference) = doc.retry(subelement) {
                    return Ok(reference);
                }
            },
        }
    }
    Err(ArxmlError::MissingReference { subelement: subelement_name })
}

/// The text of the child of `element` named `subelement_name`.
pub fn get_subelement_string_value(doc: &ArxmlDocument, element: usize, subelement_name: &str) -> (r:
    Option<String>)
    requires
        element < doc@.len(),
    ensures
        match r {
            Some(s) => sub_text(doc@, element as int, subelement_name@) == Some(s@),
            None => sub_text(doc@, element as int, subelement_name@) is None,
        },
{
    match doc.sub_element(element, subelement_name) {
        Some(e) => doc.text(e),
        None => None,
    }
}

/// The text of the child of `element` named `subelement_name`, or the empty
/// string.
pub fn get_optional_string(doc: &ArxmlDocument, element: usize, subelement_name: &str) -> (r: String)
    requires
        element < doc@.len(),
    ensures
        r@ == text_or_empty(sub_text(doc@, element as int, subelement_name@)),
{
    match get_subelement_string_value(doc, element, subelement_name) {
        Some(s) => s,
        None => String::new(),
    }
}

/// The text of the grandchild `b` under the child `a` of element `i`.
pub open spec fn sub_sub_text(n: Seq<ArxmlNode>, i: int, a: Seq<char>, b: Seq<char>) -> Option<
    Seq<char>,
> {
    match child_named(n, i, a) {
        Some(e) => sub_text(n, e, b),
        None => None,
    }
}

/// The text of the child `sub_subelement_name` of the child `subelement_name`
/// of `element`, or the empty string.
pub fn get_subelement_optional_string(
    doc: &ArxmlDocument,
    element: usize,
    subelement_name: &str,
    sub_subelement_name: &str,
) -> (r: String)
    requires
        element < doc@.len(),
    ensures
        r@ == text_or_empty(sub_sub_text(doc@, element as int, subelement_name@, sub_subelement_name@)),
{
    let found = match doc.sub_element(element, subelement_name) {
        Some(e) => get_subelement_string_value(doc, e, sub_subelement_name),
        None => None,
    };
    match found {
        Some(s) => s,
        None => String::new(),
    }
}

/// The item name of the fourth ancestor of frame port `p`: the ECU instance that
/// holds it.
pub open spec fn ecu_of(n: Seq<ArxmlNode>, p: int) -> Option<String> {
    match parent(n, p) {
        Some(a) => match parent(n, a) {
            Some(b) => match parent(n, b) {
                Some(c) => match parent(n, c) {
                    Some(d) => n[d].item_name,
                    None => None,
                },
                None => None,
            },
            None => None,
        },
        None => None,
    }
}

/// The name of the ECU that a frame port belongs to: the item name of the
/// frame port's fourth ancestor.
pub fn ecu_of_frame_port(doc: &ArxmlDocument, frame_port: usize) -> (r: Option<String>)
    requires
        frame_port < doc@.len(),
    ensures
        r == ecu_of(doc@, frame_port as int),
{
    let ecu_comm_port_instance = doc.parent(frame_port)?;
    let comm_connector = doc.parent(ecu_comm_port_instance)?;
    let connectors = doc.parent(comm_connector)?;
    let ecu_instance = doc.parent(connectors)?;
    doc.item_name(ecu_instance)
}

/// Reads a packing byte order: `true` (big endian) for everything but
/// `MOST-SIGNIFICANT-BYTE-LAST`.
pub fn get_byte_order(byte_order: &String) -> (r: bool)
    ensures
        r == (byte_order@ != "MOST-SIGNIFICANT-BYTE-LAST"@),
{
    if *byte_order == String::from_str("MOST-SIGNIFICANT-BYTE-LAST") {
        return false;
    }
    true
}

/// The least significant bit of `pattern` is set.
pub fn lowest_bit_set(pattern: u64) -> (r: bool)
    ensures
        r == (pattern % 2 == 1),
{
    let r = (pattern & 1) != 0;
    assert(((pattern & 1) != 0) == (pattern % 2 == 1)) by (bit_vector);
    r
}

/// The unused bit pattern of PDU `pdu`: the least significant bit of its
/// `UNUSED-BIT-PATTERN`, which counts as 0 when it is missing.
pub open spec fn unused_bit_pattern(n: Seq<ArxmlNode>, pdu: int) -> bool {
    int_or_zero(sub_int(n, pdu, "UNUSED-BIT-PATTERN"@)) % 2 == 1
}

/// The unused bit pattern of a PDU: the least significant bit of its
/// `UNUSED-BIT-PATTERN`, which counts as 0 when it is missing.
pub fn get_unused_bit_pattern(doc: &ArxmlDocument, pdu: usize) -> (r: bool)
    requires
        pdu < doc@.len(),
    ensures
        r == unused_bit_pattern(doc@, pdu as int),
{
    let unused_bit_pattern_int = get_optional_int_value(doc, pdu, "UNUSED-BIT-PATTERN");
    lowest_bit_set(unused_bit_pattern_int)
}

/// The direction of a frame port.
#[derive(Debug, PartialEq, Eq, Structural)]
pub enum FramePortDirection {
    Receive,
    Transmit,
    Invalid,
}

/// Reads a communication direction: `IN` receives, `OUT` transmits.
pub fn frame_port_direction(direction: &String) -> (r: FramePortDirection)
    ensures
        r == if direction@ == "IN"@ {
            FramePortDirection::Receive
        } else if direction@ == "OUT"@ {
            FramePortDirection::Transmit
        } else {
            FramePortDirection::Invalid
        },
{
    if *direction == String::from_str("IN") {
        FramePortDirection::Receive
    } else if *direction == String::from_str("OUT") {
        FramePortDirection::Transmit
    } else {
        FramePortDirection::Invalid
    }
}

/// The communication direction of a frame port, as an enumeration item.
pub open spec fn direction_of(n: Seq<ArxmlNode>, p: int) -> Option<String> {
    enum_text(sub_content(n, p, "COMMUNICATION-DIRECTION"@))
}

/// The communication direction of a frame port, when it is given as an
/// enumeration item.
fn communication_direction(doc: &ArxmlDocument, frame_port: usize) -> (r: Option<String>)
    requires
        frame_port < doc@.len(),
    ensures
        r == direction_of(doc@, frame_port as int),
{
    match sub_element_character_data(doc, frame_port, "COMMUNICATION-DIRECTION") {
        Some(cdata) => cdata.enum_value(),
        None => None,
    }
}

/// A child of `FRAME-PORT-REFS`: a frame port reference gives the port it
/// resolves to.
pub open spec fn port_ref_fn(n: Seq<ArxmlNode>) -> spec_fn(int) -> Result<Option<int>, ArxmlError> {
    |c: int|
        Ok(
            if n[c].name@ == "FRAME-PORT-REF"@ {
                target_of(n, c)
            } else {
                None
            },
        )
}

/// The frame ports that the frame triggering `t` refers to, in order.
pub open spec fn frame_ports(n: Seq<ArxmlNode>, t: int) -> Seq<int> {
    match child_named(n, t, "FRAME-PORT-REFS"@) {
        Some(f) => match gather(children(n, f), port_ref_fn(n)) {
            Ok(ports) => ports,
            Err(_) => Seq::empty(),
        },
        None => Seq::empty(),
    }
}

/// A frame port of the frame triggering named `name`: whether it receives, and
/// the name of its ECU.
pub open spec fn port_entry_fn(n: Seq<ArxmlNode>, name: String) -> spec_fn(int) -> Result<
    Option<(bool, String)>,
    ArxmlError,
> {
    |p: int|
        match ecu_of(n, p) {
            None => Err(ArxmlError::NoEcuName { frame_triggering: name }),
            Some(ecu) => match direction_of(n, p) {
                None => Err(ArxmlError::NoCommunicationDirection { frame_triggering: name }),
                Some(d) => if d@ == "IN"@ {
                    Ok(Some((true, ecu)))
                } else if d@ == "OUT"@ {
                    Ok(Some((false, ecu)))
                } else {
                    Err(ArxmlError::InvalidDirection { frame_triggering: name })
                },
            },
        }
}

/// The ECUs of the ports that receive (`rx`) or that send (`!rx`).
pub open spec fn ecus_in(es: Seq<(bool, String)>, rx: bool) -> Seq<String>
    decreases es.len(),
{
    if es.len() == 0 {
        Seq::empty()
    } else if es.last().0 == rx {
        ecus_in(es.drop_last(), rx).push(es.last().1)
    } else {
        ecus_in(es.drop_last(), rx)
    }
}

proof fn lemma_ecus_in_push(es: Seq<(bool, String)>, x: (bool, String), rx: bool)
    ensures
        ecus_in(es.push(x), rx) == if x.0 == rx {
            ecus_in(es, rx).push(x.1)
        } else {
            ecus_in(es, rx)
        },
{
    assert(es.push(x).drop_last() =~= es);
}

/// The frame ports of the triggering `t` named `name` before the `k`-th are read
/// into `es`, and the `k`-th cannot be read.
pub open spec fn ports_fail_at(n: Seq<ArxmlNode>, t: int, name: String, k: int, es: Seq<(bool, String)>) -> bool {
    &&& 0 <= k < frame_ports(n, t).len()
    &&& gather(frame_ports(n, t).take(k), port_entry_fn(n, name)) == Ok::<Seq<(bool, String)>, ArxmlError>(es)
    &&& port_entry_fn(n, name)(frame_ports(n, t)[k]) is Err
}

/// Adds the ECUs that receive and that send the frame of a frame triggering to
/// `rx_ecus` and `tx_ecus`, going through the frame ports that the triggering
/// refers to.
pub fn process_frame_ports(
    doc: &ArxmlDocument,
    can_frame_triggering: usize,
    can_frame_triggering_name: &String,
    rx_ecus: &mut Vec<String>,
    tx_ecus: &mut Vec<String>,
) -> (r: Result<(), ArxmlError>)
    requires
        can_frame_triggering < doc@.len(),
    ensures
        match gather(
            frame_ports(doc@, can_frame_triggering as int),
            port_entry_fn(doc@, *can_frame_triggering_name),
        ) {
            Ok(es) => r is Ok && final(rx_ecus)@ == old(rx_ecus)@ + ecus_in(es, true) && final(tx_ecus)@
                == old(tx_ecus)@ + ecus_in(es, false),
            Err(e) => r matches Err(x) && x == e,
        },
        r is Err ==> exists|k: int, es: Seq<(bool, String)>|
            #![trigger ports_fail_at(doc@, can_frame_triggering as int, *can_frame_triggering_name, k, es)]
            ports_fail_at(doc@, can_frame_triggering as int, *can_frame_triggering_name, k, es)
                && final(rx_ecus)@ == old(rx_ecus)@ + ecus_in(es, true) && final(tx_ecus)@ == old(
                tx_ecus,
            )@ + ecus_in(es, false),
        final(rx_ecus)@.len() >= old(rx_ecus)@.len(),
        final(rx_ecus)@.subrange(0, old(rx_ecus)@.len() as int) == old(rx_ecus)@,
        final(tx_ecus)@.len() >= old(tx_ecus)@.len(),
        final(tx_ecus)@.subrange(0, old(tx_ecus)@.len() as int) == old(tx_ecus)@,
{
    let ghost n = doc@;
    let ghost rx_start = rx_ecus@;
    let ghost tx_start = tx_ecus@;
    let ghost pf = port_ref_fn(n);
    let ghost ef = port_entry_fn(n, *can_frame_triggering_name);
    let mut ports: Vec<usize> = Vec::new();
    if let Some(frame_port_refs) = doc.sub_element(can_frame_triggering, "FRAME-PORT-REFS") {
        let refs = doc.children(frame_port_refs);
        let ghost cs = children(n, frame_port_refs as int);
        let mut i: usize = 0;
        assert(cs.take(0) =~= Seq::<int>::empty());
        assert(idx_view(ports@) =~= Seq::<int>::empty());
        while i < refs.len()
            invariant
                n == doc@,
                pf == port_ref_fn(n),
                i <= refs.len(),
                idx_view(refs@) == cs,
                forall|k: int| 0 <= k < refs@.len() ==> #[trigger] refs@[k] < n.len(),
                gather(cs.take(i as int), pf) == Ok::<Seq<int>, ArxmlError>(idx_view(ports@)),
                forall|k: int| 0 <= k < ports@.len() ==> #[trigger] ports@[k] < n.len(),
            decreases refs.len() - i,
        {
            proof {
                lemma_gather_step(cs, pf, i as int);
            }
            assert(cs[i as int] == refs@[i as int]);
            let ghost before = idx_view(ports@);
            if doc.has_name(refs[i], "FRAME-PORT-REF") {
                if let Some(port) = doc.target(refs[i]) {
                    assert(pf(cs[i as int]) == Ok::<Option<int>, ArxmlError>(Some(port as int)));
                    ports.push(port);
                    assert(idx_view(ports@) =~= before.push(port as int));
                } else {
                    assert(pf(cs[i as int]) == Ok::<Option<int>, ArxmlError>(None));
                }
            } else {
                assert(pf(cs[i as int]) == Ok::<Option<int>, ArxmlError>(None));
            }
            i = i + 1;
        }
        proof {
            lemma_gather_all(cs, pf);
        }
    }
    assert(frame_ports(n, can_frame_triggering as int) =~= idx_view(ports@));
    let ghost ps = idx_view(ports@);
    let ghost mut es: Seq<(bool, String)> = Seq::empty();
    assert(rx_ecus@ =~= rx_start + ecus_in(es, true));
    assert(tx_ecus@ =~= tx_start + ecus_in(es, false));
    let mut k: usize = 0;
    while k < ports.len()
        invariant
            n == doc@,
            ef == port_entry_fn(n, *can_frame_triggering_name),
            k <= ports.len(),
            ps == idx_view(ports@),
            ps == frame_ports(n, can_frame_triggering as int),
            forall|j: int| 0 <= j < ports@.len() ==> #[trigger] ports@[j] < n.len(),
            rx_start == old(rx_ecus)@,
            tx_start == old(tx_ecus)@,
            gather(ps.take(k as int), ef) == Ok::<Seq<(bool, String)>, ArxmlError>(es),
            rx_ecus@ == rx_start + ecus_in(es, true),
            tx_ecus@ == tx_start + ecus_in(es, false),
        decreases ports.len() - k,
    {
        proof {
            lemma_gather_step(ps, ef, k as int);
        }
        let frame_port = ports[k];
        assert(ps[k as int] == frame_port);
        match ecu_of_frame_port(doc, frame_port) {
            Some(ecu_name) => match communication_direction(doc, frame_port) {
                Some(direction) => match frame_port_direction(&direction) {
                    FramePortDirection::Receive => {
                        proof {
                            lemma_ecus_in_push(es, (true, ecu_name), true);
                            lemma_ecus_in_push(es, (true, ecu_name), false);
                            es = es.push((true, ecu_name));
                        }
                        rx_ecus.push(ecu_name);
                        assert(rx_ecus@ =~= rx_start + ecus_in(es, true));
                    },
                    FramePortDirection::Transmit => {
                        proof {
                            lemma_ecus_in_push(es, (false, ecu_name), true);
                            lemma_ecus_in_push(es, (false, ecu_name), false);
                            es = es.push((false, ecu_name));
                        }
                        tx_ecus.push(ecu_name);
                        assert(tx_ecus@ =~= tx_start + ecus_in(es, false));
                    },
                    FramePortDirection::Invalid => {
                        assert(ef(ps[k as int]) == Err::<Option<(bool, String)>, ArxmlError>(
                            ArxmlError::InvalidDirection { frame_triggering: *can_frame_triggering_name },
                        ));
                        proof {
                            lemma_gather_err(ps, ef, k + 1);
                            assert(ports_fail_at(n, can_frame_triggering as int, *can_frame_triggering_name, k as int, es));
                        }
                        assert(rx_ecus@.subrange(0, rx_start.len() as int) =~= rx_start);
                        assert(tx_ecus@.subrange(0, tx_start.len() as int) =~= tx_start);
                        return Err(
                            ArxmlError::InvalidDirection {
                                frame_triggering: can_frame_triggering_name.clone(),
                            },
                        );
                    },
                },
                None => {
                    assert(ef(ps[k as int]) == Err::<Option<(bool, String)>, ArxmlError>(
                        ArxmlError::NoCommunicationDirection { frame_triggering: *can_frame_triggering_name },
                    ));
                    proof {
                        lemma_gather_err(ps, ef, k + 1);
                        assert(ports_fail_at(n, can_frame_triggering as int, *can_frame_triggering_name, k as int, es));
                    }
                    assert(rx_ecus@.subrange(0, rx_start.len() as int) =~= rx_start);
                    assert(tx_ecus@.subrange(0, tx_start.len() as int) =~= tx_start);
                    return Err(
                        ArxmlError::NoCommunicationDirection {
                            frame_triggering: can_frame_triggering_name.clone(),
                        },
                    );
                },
            },
            None => {
                assert(ef(ps[k as int]) == Err::<Option<(bool, String)>, ArxmlError>(
                    ArxmlError::NoEcuName { frame_triggering: *can_frame_triggering_name },
                ));
                proof {
                    lemma_gather_err(ps, ef, k + 1);
                    assert(ports_fail_at(n, can_frame_triggering as int, *can_frame_triggering_name, k as int, es));
                }
                assert(rx_ecus@.subrange(0, rx_start.len() as int) =~= rx_start);
                assert(tx_ecus@.subrange(0, tx_start.len() as int) =~= tx_start);
                return Err(
                    ArxmlError::NoEcuName { frame_triggering: can_frame_triggering_name.clone() },
                );
            },
        }
        k = k + 1;
    }
    proof {
        lemma_gather_all(ps, ef);
    }
    assert(rx_ecus@.subrange(0, rx_start.len() as int) =~= rx_start);
    assert(tx_ecus@.subrange(0, tx_start.len() as int) =~= tx_start);
    Ok(())
}

/// The value specification that the `INIT-VALUE` element `e` stands for, with
/// its first child: `e` itself, or the `VALUE-SPEC` of the constant that a
/// constant reference leads to.
pub open spec fn init_value_spec(n: Seq<ArxmlNode>, e: int) -> Result<(int, int), ArxmlError> {
    match first_child(n, e) {
        None => Err(ArxmlError::MissingSubElement { context: "INIT-VALUE" }),
        Some(s) => if n[s].name@ == "CONSTANT-REFERENCE"@ {
            match required_reference(n, s, "CONSTANT-REF"@) {
                None => Err(ArxmlError::MissingReference { subelement: "CONSTANT-REF" }),
                Some(c) => match child_named(n, c, "VALUE-SPEC"@) {
                    None => Err(ArxmlError::MissingSubElement { context: "CONSTANT-SPECIFICATION" }),
                    Some(v) => match first_child(n, v) {
                        None => Err(ArxmlError::MissingSubElement { context: "VALUE-SPEC" }),
                        Some(s2) => Ok((v, s2)),
                    },
                },
            }
        } else {
            Ok((e, s))
        },
    }
}

/// An element of an array value specification: its `VALUE`.
pub open spec fn array_value_fn(n: Seq<ArxmlNode>) -> spec_fn(int) -> Result<Option<u64>, ArxmlError> {
    |c: int|
        match sub_int(n, c, "VALUE"@) {
            Some(v) => Ok(Some(v)),
            None => Err(ArxmlError::MissingIntValue { subelement: "VALUE" }),
        }
}

/// The init value that the `INIT-VALUE` element `e` of the signal named
/// `signal` gives: `(true, [v])` for the single value `v`, `(false, vs)` for the
/// array of values `vs`.
pub open spec fn init_value_outcome(n: Seq<ArxmlNode>, e: int, signal: String) -> Result<
    (bool, Seq<u64>),
    ArxmlError,
> {
    match init_value_spec(n, e) {
        Err(x) => Err(x),
        Ok((v, s)) => if n[s].name@ == "NUMERICAL-VALUE-SPECIFICATION"@ {
            match child_named(n, v, "NUMERICAL-VALUE-SPECIFICATION"@) {
                None => Err(ArxmlError::MissingNumericalValue { signal }),
                Some(nv) => match sub_int(n, nv, "VALUE"@) {
                    Some(x) => Ok((true, seq![x])),
                    None => Err(ArxmlError::MissingIntValue { subelement: "VALUE" }),
                },
            }
        } else if n[s].name@ == "ARRAY-VALUE-SPECIFICATION"@ {
            match grandchild_named(n, v, "ARRAY-VALUE-SPECIFICATION"@, "ELEMENTS"@) {
                None => Err(
                    ArxmlError::MissingSubSubElement {
                        subelement: "ARRAY-VALUE-SPECIFICATION",
                        sub_subelement: "ELEMENTS",
                    },
                ),
                Some(el) => match gather(children(n, el), array_value_fn(n)) {
                    Ok(vs) => Ok((false, vs)),
                    Err(x) => Err(x),
                },
            }
        } else {
            Err(ArxmlError::UnrecognizedInitValue { element: n[s].name })
        },
    }
}

/// The init values are what an init value outcome says.
pub open spec fn init_values_match(iv: InitValues, single: bool, vs: Seq<u64>) -> bool {
    if single {
        vs.len() == 1 && iv == InitValues::Single(vs[0])
    } else {
        iv matches InitValues::Array(a) && a@ == vs
    }
}

/// Reads the init value of a signal from its `INIT-VALUE` element into
/// `init_values`. A constant reference is followed to the constant's value
/// specification, which then replaces `init_value_elem`.
pub fn process_init_value(
    doc: &ArxmlDocument,
    init_value_elem: &mut usize,
    init_values: &mut InitValues,
    signal_name: &String,
) -> (r: Result<(), ArxmlError>)
    requires
        *old(init_value_elem) < doc@.len(),
    ensures
        *final(init_value_elem) < doc@.len(),
        match init_value_outcome(doc@, *old(init_value_elem) as int, *signal_name) {
            Ok((single, vs)) => r is Ok && init_values_match(*final(init_values), single, vs)
                && (init_value_spec(doc@, *old(init_value_elem) as int) matches Ok((v, _))
                && *final(init_value_elem) == v),
            Err(e) => r matches Err(x) && x == e && *final(init_values) == *old(init_values),
        },
{
    let ghost n = doc@;
    let mut subelement = match doc.first_child(*init_value_elem) {
        Some(e) => e,
        None => {
            return Err(ArxmlError::MissingSubElement { context: "INIT-VALUE" });
        },
    };
    if doc.has_name(subelement, "CONSTANT-REFERENCE") {
        let constant = match get_required_reference(doc, subelement, "CONSTANT-REF") {
            Ok(c) => c,
            Err(e) => {
                return Err(e);
            },
        };
        *init_value_elem = match doc.sub_element(constant, "VALUE-SPEC") {
            Some(e) => e,
            None => {
                return Err(ArxmlError::MissingSubElement { context: "CONSTANT-SPECIFICATION" });
            },
        };
        subelement = match doc.first_child(*init_value_elem) {
            Some(e) => e,
            None => {
                return Err(ArxmlError::MissingSubElement { context: "VALUE-SPEC" });
            },
        };
    }
    let is_numerical = if doc.has_name(subelement, "NUMERICAL-VALUE-SPECIFICATION") {
        true
    } else if doc.has_name(subelement, "ARRAY-VALUE-SPECIFICATION") {
        false
    } else {
        return Err(ArxmlError::UnrecognizedInitValue { element: doc.name(subelement) });
    };
    if is_numerical {
        let num_val = match doc.sub_element(*init_value_elem, "NUMERICAL-VALUE-SPECIFICATION") {
            Some(e) => e,
            None => {
                return Err(ArxmlError::MissingNumericalValue { signal: signal_name.clone() });
            },
        };
        let init_value = match get_required_int_value(doc, num_val, "VALUE") {
            Ok(v) => v,
            Err(e) => {
                return Err(e);
            },
        };
        *init_values = InitValues::Single(init_value);
    } else {
        let num_val_elements = match get_required_sub_subelement(
            doc,
            *init_value_elem,
            "ARRAY-VALUE-SPECIFICATION",
            "ELEMENTS",
        ) {
            Ok(e) => e,
            Err(e) => {
                return Err(e);
            },
        };
        let elements = doc.children(num_val_elements);
        let ghost cs = children(n, num_val_elements as int);
        let ghost af = array_value_fn(n);
        let mut init_value_array: Vec<u64> = Vec::new();
        let mut i: usize = 0;
        assert(cs.take(0) =~= Seq::<int>::empty());
        assert(init_value_spec(n, *old(init_value_elem) as int) matches Ok((v, _)) && v == *init_value_elem);
        assert(init_value_outcome(n, *old(init_value_elem) as int, *signal_name) == match gather(cs, af) {
            Ok(vs) => Ok((false, vs)),
            Err(x) => Err::<(bool, Seq<u64>), ArxmlError>(x),
        });
        while i < elements.len()
            invariant
                n == doc@,
                *init_value_elem < n.len(),
                *init_values == *old(init_values),
                init_value_spec(n, *old(init_value_elem) as int) matches Ok((v, _)) && v == *init_value_elem,
                init_value_outcome(n, *old(init_value_elem) as int, *signal_name) == match gather(cs, af) {
                    Ok(vs) => Ok((false, vs)),
                    Err(x) => Err::<(bool, Seq<u64>), ArxmlError>(x),
                },
                af == array_value_fn(n),
                i <= elements.len(),
                idx_view(elements@) == cs,
                forall|k: int| 0 <= k < elements@.len() ==> #[trigger] elements@[k] < n.len(),
                gather(cs.take(i as int), af) == Ok::<Seq<u64>, ArxmlError>(init_value_array@),
            decreases elements.len() - i,
        {
            proof {
                lemma_gather_step(cs, af, i as int);
            }
            assert(cs[i as int] == elements@[i as int]);
            let value = match get_required_int_value(doc, elements[i], "VALUE") {
                Ok(v) => v,
                Err(e) => {
                    proof {
                        lemma_gather_err(cs, af, i + 1);
                    }
                    return Err(e);
                },
            };
            init_value_array.push(value);
            i = i + 1;
        }
        proof {
            lemma_gather_all(cs, af);
        }
        *init_values = InitValues::Array(init_value_array);
    }
    Ok(())
}

/// The signals are ordered by their start positions.
pub open spec fn sorted_by_start_pos(s: Seq<ISignal>) -> bool {
    forall|i: int, j: int| 0 <= i < j < s.len() ==> s[i].start_pos <= s[j].start_pos
}

/// The signals that start at `pos`, in order.
pub open spec fn at_start(s: Seq<ISignal>, pos: u64) -> Seq<ISignal>
    decreases s.len(),
{
    if s.len() == 0 {
        Seq::empty()
    } else {
        let rest = at_start(s.drop_last(), pos);
        if s.last().start_pos == pos {
            rest.push(s.last())
        } else {
            rest
        }
    }
}

proof fn lemma_at_start_concat(a: Seq<ISignal>, b: Seq<ISignal>, pos: u64)
    ensures
        at_start(a + b, pos) == at_start(a, pos) + at_start(b, pos),
    decreases b.len(),
{
    if b.len() == 0 {
        assert(a + b =~= a);
        assert(at_start(a, pos) + at_start(b, pos) =~= at_start(a, pos));
    } else {
        lemma_at_start_concat(a, b.drop_last(), pos);
        assert((a + b).drop_last() =~= a + b.drop_last());
        if b.last().start_pos == pos {
            assert(at_start(a, pos) + at_start(b, pos) =~= (at_start(a, pos) + at_start(
                b.drop_last(),
                pos,
            )).push(b.last()));
        }
    }
}

proof fn lemma_at_start_none(s: Seq<ISignal>, pos: u64)
    requires
        forall|i: int| 0 <= i < s.len() ==> (#[trigger] s[i]).start_pos != pos,
    ensures
        at_start(s, pos) == Seq::<ISignal>::empty(),
    decreases s.len(),
{
    if s.len() > 0 {
        lemma_at_start_none(s.drop_last(), pos);
    }
}

/// Orders `signals` by start position; signals with equal start positions keep
/// their relative order.
pub fn sort_by_start_pos(signals: &mut Vec<ISignal>)
    ensures
        sorted_by_start_pos(final(signals)@),
        forall|pos: u64| #[trigger] at_start(final(signals)@, pos) == at_start(old(signals)@, pos),
        final(signals)@.to_multiset() == old(signals)@.to_multiset(),
{
    broadcast use vstd::seq_lib::group_to_multiset_ensures;
    broadcast use vstd::multiset::group_multiset_axioms;

    let mut sorted: Vec<ISignal> = Vec::new();
    let mut rest: Vec<ISignal> = Vec::new();
    std::mem::swap(&mut rest, signals);
    let ghost unsorted = rest@;
    assert(sorted@.to_multiset() =~= Multiset::<ISignal>::empty());
    let ghost mut done: int = 0;
    assert(unsorted.skip(0) =~= unsorted);
    assert forall|pos: u64| #[trigger] at_start(sorted@, pos) == at_start(unsorted.take(0), pos) by {
        assert(unsorted.take(0) =~= Seq::<ISignal>::empty());
    }
    while rest.len() > 0
        invariant
            unsorted == old(signals)@,
            0 <= done <= unsorted.len(),
            rest@ == unsorted.skip(done),
            sorted_by_start_pos(sorted@),
            forall|pos: u64| #[trigger] at_start(sorted@, pos) == at_start(unsorted.take(done), pos),
            sorted@.to_multiset().add(rest@.to_multiset()) == unsorted.to_multiset(),
        decreases rest.len(),
    {
        let ghost rest_before = rest@;
        let ghost sorted_before = sorted@;
        let signal = rest.remove(0);
        let mut p: usize = 0;
        while p < sorted.len() && sorted[p].start_pos <= signal.start_pos
            invariant
                p <= sorted.len(),
                forall|j: int| 0 <= j < p ==> sorted@[j].start_pos <= signal.start_pos,
            decreases sorted.len() - p,
        {
            p = p + 1;
        }
        proof {
            vstd::seq_lib::to_multiset_remove(rest_before, 0);
            rest_before.to_multiset_ensures();
            assert(rest_before.contains(signal)) by {
                assert(rest_before[0] == signal);
            }
        }
        sorted.insert(p, signal);
        proof {
            let grown = sorted@;
            assert(grown.remove(p as int) =~= sorted_before);
            vstd::seq_lib::to_multiset_remove(grown, p as int);
            assert(grown.to_multiset().count(signal) > 0) by {
                grown.to_multiset_ensures();
                assert(grown[p as int] == signal);
                assert(grown.contains(signal));
            }
            assert(grown.to_multiset() =~= sorted_before.to_multiset().insert(signal));
        }
        assert(sorted_by_start_pos(sorted@)) by {
            assert forall|i: int, j: int| 0 <= i < j < sorted@.len() implies sorted@[i].start_pos
                <= sorted@[j].start_pos by {
                if j < p {
                } else if j == p {
                } else if i < p {
                    assert(sorted@[j] == sorted_before[j - 1]);
                    if p < sorted_before.len() {
                        assert(sorted_before[p as int].start_pos > signal.start_pos);
                        assert(sorted_before[p as int].start_pos <= sorted_before[j - 1].start_pos);
                    }
                } else if i == p {
                    assert(sorted@[j] == sorted_before[j - 1]);
                    assert(sorted_before[p as int].start_pos > signal.start_pos);
                    assert(sorted_before[p as int].start_pos <= sorted_before[j - 1].start_pos);
                } else {
                    assert(sorted@[i] == sorted_before[i - 1]);
                    assert(sorted@[j] == sorted_before[j - 1]);
                }
            }
        }
        assert(sorted@.to_multiset().add(rest@.to_multiset()) =~= unsorted.to_multiset());
        proof {
            let front = sorted_before.take(p as int);
            let back = sorted_before.skip(p as int);
            assert(sorted_before =~= front + back);
            assert(sorted@ =~= front + seq![signal] + back);
            assert(unsorted[done] == signal) by {
                assert(rest_before[0] == unsorted.skip(done)[0]);
            }
            assert(unsorted.take(done + 1) =~= unsorted.take(done).push(signal));
            assert forall|pos: u64| #[trigger] at_start(sorted@, pos) == at_start(
                unsorted.take(done + 1),
                pos,
            ) by {
                lemma_at_start_concat(front, back, pos);
                lemma_at_start_concat(front, seq![signal], pos);
                lemma_at_start_concat(front + seq![signal], back, pos);
                lemma_at_start_concat(unsorted.take(done), seq![signal], pos);
                assert(seq![signal].drop_last() =~= Seq::<ISignal>::empty());
                reveal_with_fuel(at_start, 2);
                assert(at_start(sorted_before, pos) == at_start(unsorted.take(done), pos));
                assert(unsorted.take(done + 1) =~= unsorted.take(done) + seq![signal]);
                let af = at_start(front, pos);
                let ax = at_start(seq![signal], pos);
                let ab = at_start(back, pos);
                assert(at_start(sorted@, pos) == af + ax + ab);
                assert(at_start(unsorted.take(done + 1), pos) == af + ab + ax);
                if pos == signal.start_pos {
                    assert forall|i: int| 0 <= i < back.len() implies (#[trigger] back[i]).start_pos
                        != pos by {
                        assert(back[i] == sorted_before[p + i]);
                        assert(sorted_before[p as int].start_pos > signal.start_pos);
                        if i > 0 {
                            assert(sorted_before[p as int].start_pos <= sorted_before[p + i].start_pos);
                        }
                    }
                    lemma_at_start_none(back, pos);
                    assert(af + ax + ab =~= af + ab + ax);
                } else {
                    assert(ax =~= Seq::<ISignal>::empty());
                    assert(af + ax + ab =~= af + ab + ax);
                }
            }
            done = done + 1;
            assert(rest@ =~= unsorted.skip(done));
        }
    }
    assert(unsorted.take(done) =~= unsorted);
    assert(rest@ =~= Seq::<ISignal>::empty());
    assert(sorted@.to_multiset() =~= unsorted.to_multiset());
    *signals = sorted;
}

/// The ISignal that a signal mapping describes.
pub open spec fn signal_of(info: SignalInfo) -> ISignal {
    ISignal {
        name: info.name,
        byte_order: info.byte_order@ != "MOST-SIGNIFICANT-BYTE-LAST"@,
        start_pos: info.start_pos,
        length: info.length,
        init_values: info.init_values,
    }
}

/// Some entry of `es` has the key `key`.
pub open spec fn has_key(es: Seq<(String, SignalInfo)>, key: Seq<char>) -> bool {
    exists|i: int| 0 <= i < es.len() && (#[trigger] es[i]).0@ == key
}

/// The position of the entry of `es` with the key `key`.
pub open spec fn key_index(es: Seq<(String, SignalInfo)>, key: Seq<char>) -> int {
    choose|i: int| 0 <= i < es.len() && (#[trigger] es[i]).0@ == key
}

/// The signal path that a child of `I-SIGNAL-REFS` holds.
pub open spec fn ref_path(n: Seq<ArxmlNode>, c: int) -> Option<Seq<char>> {
    if n[c].name@ == "I-SIGNAL-REF"@ {
        match n[c].content {
            Some(cd) => match cd.spec_string_value() {
                Some(t) => Some(t@),
                None => None,
            },
            None => None,
        }
    } else {
        None
    }
}

/// The references `cs` of a signal group taken in order out of the signal
/// mappings `es`: the mappings that are left, and the signals that were taken.
pub open spec fn pick_refs(n: Seq<ArxmlNode>, cs: Seq<int>, es: Seq<(String, SignalInfo)>) -> (
    Seq<(String, SignalInfo)>,
    Seq<ISignal>,
)
    decreases cs.len(),
{
    if cs.len() == 0 {
        (es, Seq::empty())
    } else {
        let prev = pick_refs(n, cs.drop_last(), es);
        match ref_path(n, cs.last()) {
            Some(p) => if has_key(prev.0, p) {
                let k = key_index(prev.0, p);
                (prev.0.remove(k), prev.1.push(signal_of(prev.0[k].1)))
            } else {
                prev
            },
            None => prev,
        }
    }
}

/// The signal references of the signal group `g` taken out of `es`.
pub open spec fn group_pick(n: Seq<ArxmlNode>, g: int, es: Seq<(String, SignalInfo)>) -> (
    Seq<(String, SignalInfo)>,
    Seq<ISignal>,
) {
    match child_named(n, g, "I-SIGNAL-REFS"@) {
        Some(r) => pick_refs(n, children(n, r), es),
        None => (es, Seq::empty()),
    }
}

/// A child of `COM-BASED-SIGNAL-GROUP-TRANSFORMATIONS`: the name of the data
/// transformation it refers to.
pub open spec fn transformation_fn(n: Seq<ArxmlNode>) -> spec_fn(int) -> Result<Option<String>, ArxmlError> {
    |c: int|
        match required_reference(n, c, "DATA-TRANSFORMATION-REF"@) {
            None => Err(ArxmlError::MissingReference { subelement: "DATA-TRANSFORMATION-REF" }),
            Some(t) => match n[t].item_name {
                Some(name) => Ok(Some(name)),
                None => Err(ArxmlError::Item(Error::GetItemName { item: "DataTransformation" })),
            },
        }
}

/// The names of the data transformations of the signal group `g`.
pub open spec fn group_transformations(n: Seq<ArxmlNode>, g: int) -> Result<Seq<String>, ArxmlError> {
    match child_named(n, g, "COM-BASED-SIGNAL-GROUP-TRANSFORMATIONS"@) {
        Some(c) => gather(children(n, c), transformation_fn(n)),
        None => Ok(Seq::empty()),
    }
}

/// A child of `TRANSFORMATION-I-SIGNAL-PROPSS`: the end-to-end protection
/// properties of its conditional, where it has one.
pub open spec fn props_fn(n: Seq<ArxmlNode>) -> spec_fn(int) -> Result<
    Option<E2EDataTransformationProps>,
    ArxmlError,
> {
    |c: int|
        if n[c].name@ == "END-TO-END-TRANSFORMATION-I-SIGNAL-PROPS"@ {
            match grandchild_named(
                n,
                c,
                "END-TO-END-TRANSFORMATION-I-SIGNAL-PROPS-VARIANTS"@,
                "END-TO-END-TRANSFORMATION-I-SIGNAL-PROPS-CONDITIONAL"@,
            ) {
                None => Ok(None),
                Some(cond) => match required_reference(n, cond, "TRANSFORMER-REF"@) {
                    None => Err(ArxmlError::MissingReference { subelement: "TRANSFORMER-REF" }),
                    Some(t) => match n[t].item_name {
                        None => Err(ArxmlError::Item(Error::GetItemName { item: "TransformerName" })),
                        Some(transformer_name) => match child_named(n, cond, "DATA-IDS"@) {
                            None => Err(
                                ArxmlError::MissingSubElement {
                                    context: "END-TO-END-TRANSFORMATION-I-SIGNAL-PROPS-CONDITIONAL",
                                },
                            ),
                            Some(ids) => match sub_int(n, ids, "DATA-ID"@) {
                                None => Err(ArxmlError::MissingIntValue { subelement: "DATA-ID" }),
                                Some(data_id) => Ok(
                                    Some(
                                        E2EDataTransformationProps {
                                            transformer_name,
                                            data_id,
                                            data_length: int_or_zero(sub_int(n, cond, "DATA-LENGTH"@)),
                                        },
                                    ),
                                ),
                            },
                        },
                    },
                },
            }
        } else {
            Ok(None)
        }
}

/// The end-to-end protection properties of the signal group `g`.
pub open spec fn group_props(n: Seq<ArxmlNode>, g: int) -> Result<Seq<E2EDataTransformationProps>, ArxmlError> {
    match child_named(n, g, "TRANSFORMATION-I-SIGNAL-PROPSS"@) {
        Some(c) => gather(children(n, c), props_fn(n)),
        None => Ok(Seq::empty()),
    }
}

/// Why the signal group `g` cannot be read, if it cannot.
pub open spec fn group_error(n: Seq<ArxmlNode>, g: int) -> Option<ArxmlError> {
    if n[g].item_name is None {
        Some(ArxmlError::Item(Error::GetItemName { item: "ISignalGroupRef" }))
    } else if child_named(n, g, "I-SIGNAL-REFS"@) is None {
        Some(ArxmlError::MissingSubElement { context: "I-SIGNAL-GROUP" })
    } else {
        match group_transformations(n, g) {
            Err(e) => Some(e),
            Ok(_) => match group_props(n, g) {
                Err(e) => Some(e),
                Ok(_) => None,
            },
        }
    }
}

/// `grp` is the signal group `g` read with the signal mappings `es`: its name,
/// its signals taken out of `es` and ordered stably by start position, its data
/// transformations and its end-to-end protection properties.
pub open spec fn group_matches(
    n: Seq<ArxmlNode>,
    g: int,
    es: Seq<(String, SignalInfo)>,
    grp: ISignalGroup,
) -> bool {
    &&& n[g].item_name == Some(grp.name)
    &&& group_transformations(n, g) == Ok::<Seq<String>, ArxmlError>(grp.data_transformations@)
    &&& group_props(n, g) == Ok::<Seq<E2EDataTransformationProps>, ArxmlError>(grp.transformation_props@)
    &&& sorted_by_start_pos(grp.isignals@)
    &&& forall|pos: u64| #[trigger]
        at_start(grp.isignals@, pos) == at_start(group_pick(n, g, es).1, pos)
}

/// Reads an ISignalGroup: the signals it refers to are moved from `signals` into
/// the group, ordered by start position, and the group with its data
/// transformations and end-to-end protection properties is appended to
/// `grouped_signals`.
pub fn process_signal_group(
    doc: &ArxmlDocument,
    signal_group: usize,
    signals: &mut StringMap<SignalInfo>,
    grouped_signals: &mut Vec<ISignalGroup>,
) -> (r: Result<(), ArxmlError>)
    requires
        signal_group < doc@.len(),
    ensures
        match group_error(doc@, signal_group as int) {
            Some(e) => r matches Err(x) && x == e && final(grouped_signals)@ == old(grouped_signals)@,
            None => {
                &&& r is Ok
                &&& final(grouped_signals)@.len() == old(grouped_signals)@.len() + 1
                &&& final(grouped_signals)@.drop_last() == old(grouped_signals)@
                &&& group_matches(
                    doc@,
                    signal_group as int,
                    old(signals).entries(),
                    final(grouped_signals)@.last(),
                )
            },
        },
        doc@[signal_group as int].item_name is None ==> final(signals).entries() == old(
            signals,
        ).entries(),
        doc@[signal_group as int].item_name is Some ==> final(signals).entries() == group_pick(
            doc@,
            signal_group as int,
            old(signals).entries(),
        ).0,
{
    let ghost n = doc@;
    let ghost start = signals.entries();
    let group_name = match doc.item_name(signal_group) {
        Some(name) => name,
        None => {
            return Err(ArxmlError::Item(Error::GetItemName { item: "ISignalGroupRef" }));
        },
    };
    let isignal_refs = match doc.sub_element(signal_group, "I-SIGNAL-REFS") {
        Some(e) => e,
        None => {
            return Err(ArxmlError::MissingSubElement { context: "I-SIGNAL-GROUP" });
        },
    };
    let refs = doc.children(isignal_refs);
    let ghost cs = children(n, isignal_refs as int);
    let mut signal_group_signals: Vec<ISignal> = Vec::new();
    let mut i: usize = 0;
    assert(cs.take(0) =~= Seq::<int>::empty());
    while i < refs.len()
        invariant
            n == doc@,
            i <= refs.len(),
            idx_view(refs@) == cs,
            forall|k: int| 0 <= k < refs@.len() ==> #[trigger] refs@[k] < n.len(),
            pick_refs(n, cs.take(i as int), start) == (signals.entries(), signal_group_signals@),
        decreases refs.len() - i,
    {
        assert(cs.take(i + 1).drop_last() =~= cs.take(i as int));
        assert(cs.take(i + 1).last() == refs@[i as int]);
        let c = refs[i];
        if doc.has_name(c, "I-SIGNAL-REF") {
            if let Some(cdata) = doc.content(c) {
                if let Some(path) = cdata.string_value() {
                    assert(ref_path(n, c as int) == Some(path@));
                    let ghost before_map = *signals;
                    if let Some(info) = signals.remove(&path) {
                        assert(has_key(before_map.entries(), path@));
                        let byte_order = get_byte_order(&info.byte_order);
                        let signal = ISignal {
                            name: info.name,
                            byte_order,
                            start_pos: info.start_pos,
                            length: info.length,
                            init_values: info.init_values,
                        };
                        signal_group_signals.push(signal);
                    } else {
                        assert(!has_key(before_map.entries(), path@));
                    }
                }
            }
        }
        i = i + 1;
    }
    assert(cs.take(refs.len() as int) =~= cs);
    let ghost picked = signal_group_signals@;
    sort_by_start_pos(&mut signal_group_signals);

    let ghost tf = transformation_fn(n);
    let mut data_transformations: Vec<String> = Vec::new();
    if let Some(com_transformations) = doc.sub_element(
        signal_group,
        "COM-BASED-SIGNAL-GROUP-TRANSFORMATIONS",
    ) {
        let elems = doc.children(com_transformations);
        let ghost ts = children(n, com_transformations as int);
        let mut k: usize = 0;
        assert(ts.take(0) =~= Seq::<int>::empty());
        while k < elems.len()
            invariant
                n == doc@,
                tf == transformation_fn(n),
                k <= elems.len(),
                idx_view(elems@) == ts,
                forall|j: int| 0 <= j < elems@.len() ==> #[trigger] elems@[j] < n.len(),
                gather(ts.take(k as int), tf) == Ok::<Seq<String>, ArxmlError>(data_transformations@),
                grouped_signals@ == old(grouped_signals)@,
                group_transformations(n, signal_group as int) == gather(ts, tf),
                group_error(n, signal_group as int) == match gather(ts, tf) {
                    Err(e) => Some(e),
                    Ok(_) => match group_props(n, signal_group as int) {
                        Err(e) => Some(e),
                        Ok(_) => None,
                    },
                },
                n[signal_group as int].item_name is Some,
                signals.entries() == group_pick(n, signal_group as int, start).0,
                start == old(signals).entries(),
            decreases elems.len() - k,
        {
            proof {
                lemma_gather_step(ts, tf, k as int);
            }
            assert(ts[k as int] == elems@[k as int]);
            let data_transformation = match get_required_reference(
                doc,
                elems[k],
                "DATA-TRANSFORMATION-REF",
            ) {
                Ok(t) => t,
                Err(e) => {
                    proof {
                        lemma_gather_err(ts, tf, k + 1);
                    }
                    return Err(e);
                },
            };
            let data_transformation_name = match doc.item_name(data_transformation) {
                Some(name) => name,
                None => {
                    proof {
                        lemma_gather_err(ts, tf, k + 1);
                    }
                    return Err(ArxmlError::Item(Error::GetItemName { item: "DataTransformation" }));
                },
            };
            data_transformations.push(data_transformation_name);
            k = k + 1;
        }
        proof {
            lemma_gather_all(ts, tf);
        }
    }
    assert(group_transformations(n, signal_group as int) == Ok::<Seq<String>, ArxmlError>(
        data_transformations@,
    ));

    let ghost pf = props_fn(n);
    let mut props_vector: Vec<E2EDataTransformationProps> = Vec::new();
    if let Some(transformation_props) = doc.sub_element(signal_group, "TRANSFORMATION-I-SIGNAL-PROPSS") {
        let elems = doc.children(transformation_props);
        let ghost ps = children(n, transformation_props as int);
        let mut k: usize = 0;
        assert(ps.take(0) =~= Seq::<int>::empty());
        while k < elems.len()
            invariant
                n == doc@,
                pf == props_fn(n),
                k <= elems.len(),
                idx_view(elems@) == ps,
                forall|j: int| 0 <= j < elems@.len() ==> #[trigger] elems@[j] < n.len(),
                gather(ps.take(k as int), pf) == Ok::<Seq<E2EDataTransformationProps>, ArxmlError>(
                    props_vector@,
                ),
                grouped_signals@ == old(grouped_signals)@,
                group_transformations(n, signal_group as int) matches Ok(_),
                group_props(n, signal_group as int) == gather(ps, pf),
                group_error(n, signal_group as int) == match gather(ps, pf) {
                    Err(e) => Some(e),
                    Ok(_) => None::<ArxmlError>,
                },
                n[signal_group as int].item_name is Some,
                signals.entries() == group_pick(n, signal_group as int, start).0,
                start == old(signals).entries(),
            decreases elems.len() - k,
        {
            proof {
                lemma_gather_step(ps, pf, k as int);
            }
            let c = elems[k];
            assert(ps[k as int] == c);
            if doc.has_name(c, "END-TO-END-TRANSFORMATION-I-SIGNAL-PROPS") {
                let conditional = match doc.sub_element(
                    c,
                    "END-TO-END-TRANSFORMATION-I-SIGNAL-PROPS-VARIANTS",
                ) {
                    Some(e) => doc.sub_element(e, "END-TO-END-TRANSFORMATION-I-SIGNAL-PROPS-CONDITIONAL"),
                    None => None,
                };
                if let Some(e2exf_props_cond) = conditional {
                    let transformer_reference = match get_required_reference(
                        doc,
                        e2exf_props_cond,
                        "TRANSFORMER-REF",
                    ) {
                        Ok(t) => t,
                        Err(e) => {
                            proof {
                                lemma_gather_err(ps, pf, k + 1);
                            }
                            return Err(e);
                        },
                    };
                    let transformer_name = match doc.item_name(transformer_reference) {
                        Some(name) => name,
                        None => {
                            proof {
                                lemma_gather_err(ps, pf, k + 1);
                            }
                            return Err(ArxmlError::Item(Error::GetItemName { item: "TransformerName" }));
                        },
                    };
                    let data_ids = match doc.sub_element(e2exf_props_cond, "DATA-IDS") {
                        Some(e) => e,
                        None => {
                            proof {
                                lemma_gather_err(ps, pf, k + 1);
                            }
                            return Err(
                                ArxmlError::MissingSubElement {
                                    context: "END-TO-END-TRANSFORMATION-I-SIGNAL-PROPS-CONDITIONAL",
                                },
                            );
                        },
                    };
                    let data_id = match get_required_int_value(doc, data_ids, "DATA-ID") {
                        Ok(v) => v,
                        Err(e) => {
                            proof {
                                lemma_gather_err(ps, pf, k + 1);
                            }
                            return Err(e);
                        },
                    };
                    let data_length = get_optional_int_value(doc, e2exf_props_cond, "DATA-LENGTH");
                    props_vector.push(
                        E2EDataTransformationProps { transformer_name, data_id, data_length },
                    );
                }
            }
            k = k + 1;
        }
        proof {
            lemma_gather_all(ps, pf);
        }
    }
    assert(group_props(n, signal_group as int) == Ok::<Seq<E2EDataTransformationProps>, ArxmlError>(
        props_vector@,
    ));

    let isignal_group_struct = ISignalGroup {
        name: group_name,
        isignals: signal_group_signals,
        data_transformations,
        transformation_props: props_vector,
    };
    grouped_signals.push(isignal_group_struct);
    assert(grouped_signals@.drop_last() =~= old(grouped_signals)@);
    Ok(())
}

/// Everything that [`gather`] collects is what `f` gives for one of `cs`.
pub proof fn lemma_gather_members<T>(cs: Seq<int>, f: spec_fn(int) -> Result<Option<T>, ArxmlError>, v: Seq<T>)
    requires
        gather(cs, f) == Ok::<Seq<T>, ArxmlError>(v),
    ensures
        forall|i: int|
            0 <= i < v.len() ==> exists|k: int| 0 <= k < cs.len() && f(cs[k]) == Ok::<Option<T>, ArxmlError>(Some(#[trigger] v[i])),
    decreases cs.len(),
{
    if cs.len() > 0 {
        let prev = gather(cs.drop_last(), f);
        if let Ok(pv) = prev {
            lemma_gather_members(cs.drop_last(), f, pv);
            assert forall|i: int| 0 <= i < v.len() implies exists|k: int|
                0 <= k < cs.len() && f(cs[k]) == Ok::<Option<T>, ArxmlError>(Some(#[trigger] v[i])) by {
                if i < pv.len() {
                    assert(v[i] == pv[i]);
                    let k = choose|k: int|
                        0 <= k < cs.drop_last().len() && f(cs.drop_last()[k]) == Ok::<Option<T>, ArxmlError>(
                            Some(pv[i]),
                        );
                    assert(cs[k] == cs.drop_last()[k]);
                } else {
                    assert(cs[cs.len() - 1] == cs.last());
                }
            }
        }
    }
}

/// `p` holds what the end-to-end protection properties `c` say in their
/// conditional: the name of the transformer that `TRANSFORMER-REF` refers to,
/// the `DATA-ID` under `DATA-IDS`, and the conditional's own `DATA-LENGTH`, 0
/// when it is missing.
pub open spec fn e2e_props_read_from(n: Seq<ArxmlNode>, c: int, p: E2EDataTransformationProps) -> bool {
    &&& n[c].name@ == "END-TO-END-TRANSFORMATION-I-SIGNAL-PROPS"@
    &&& child_named(n, c, "END-TO-END-TRANSFORMATION-I-SIGNAL-PROPS-VARIANTS"@) matches Some(variants)
    &&& child_named(n, variants, "END-TO-END-TRANSFORMATION-I-SIGNAL-PROPS-CONDITIONAL"@) matches Some(cond)
    &&& required_reference(n, cond, "TRANSFORMER-REF"@) matches Some(transformer)
    &&& n[transformer].item_name == Some(p.transformer_name)
    &&& child_named(n, cond, "DATA-IDS"@) matches Some(ids)
    &&& sub_int(n, ids, "DATA-ID"@) == Some(p.data_id)
    &&& p.data_length == match sub_int(n, cond, "DATA-LENGTH"@) {
        Some(v) => v,
        None => 0,
    }
}

/// Each end-to-end protection property of a signal group read by
/// [`process_signal_group`] comes from one of the group's
/// `TRANSFORMATION-I-SIGNAL-PROPSS` children, as [`e2e_props_read_from`] says;
/// a group without that element has none.
pub proof fn law_e2e_props_come_from_their_conditionals(
    n: Seq<ArxmlNode>,
    g: int,
    es: Seq<(String, SignalInfo)>,
    grp: ISignalGroup,
)
    requires
        group_matches(n, g, es, grp),
    ensures
        child_named(n, g, "TRANSFORMATION-I-SIGNAL-PROPSS"@) is None ==> grp.transformation_props@.len() == 0,
        forall|i: int|
            0 <= i < grp.transformation_props@.len() ==> (child_named(
                n,
                g,
                "TRANSFORMATION-I-SIGNAL-PROPSS"@,
            ) matches Some(props) && exists|k: int|
                0 <= k < children(n, props).len() && e2e_props_read_from(
                    n,
                    children(n, props)[k],
                    #[trigger] grp.transformation_props@[i],
                )),
{
    if let Some(props) = child_named(n, g, "TRANSFORMATION-I-SIGNAL-PROPSS"@) {
        let cs = children(n, props);
        let v = grp.transformation_props@;
        lemma_gather_members(cs, props_fn(n), v);
        assert forall|i: int| 0 <= i < v.len() implies exists|k: int|
            0 <= k < cs.len() && e2e_props_read_from(n, cs[k], #[trigger] v[i]) by {
            let k = choose|k: int|
                0 <= k < cs.len() && props_fn(n)(cs[k]) == Ok::<Option<E2EDataTransformationProps>, ArxmlError>(
                    Some(v[i]),
                );
            assert(e2e_props_read_from(n, cs[k], v[i]));
        }
    }
}

proof fn lemma_ecus_in_members(es: Seq<(bool, String)>, rx: bool)
    ensures
        ecus_in(es, true).len() + ecus_in(es, false).len() == es.len(),
        forall|i: int|
            0 <= i < ecus_in(es, rx).len() ==> exists|k: int|
                0 <= k < es.len() && es[k].0 == rx && es[k].1 == #[trigger] ecus_in(es, rx)[i],
    decreases es.len(),
{
    if es.len() > 0 {
        let front = es.drop_last();
        lemma_ecus_in_members(front, rx);
        assert forall|i: int| 0 <= i < ecus_in(es, rx).len() implies exists|k: int|
            0 <= k < es.len() && es[k].0 == rx && es[k].1 == #[trigger] ecus_in(es, rx)[i] by {
            if i < ecus_in(front, rx).len() {
                assert(ecus_in(es, rx)[i] == ecus_in(front, rx)[i]);
                let k = choose|k: int| 0 <= k < front.len() && front[k].0 == rx && front[k].1 == ecus_in(front, rx)[i];
                assert(es[k] == front[k]);
            } else {
                assert(es[es.len() - 1] == es.last());
            }
        }
    }
}

proof fn lemma_gather_total<T>(cs: Seq<int>, f: spec_fn(int) -> Result<Option<T>, ArxmlError>, v: Seq<T>)
    requires
        gather(cs, f) == Ok::<Seq<T>, ArxmlError>(v),
        forall|k: int| 0 <= k < cs.len() ==> #[trigger] f(cs[k]) matches Ok(Some(_)),
    ensures
        v.len() == cs.len(),
    decreases cs.len(),
{
    if cs.len() > 0 {
        let front = cs.drop_last();
        assert forall|k: int| 0 <= k < front.len() implies #[trigger] f(front[k]) matches Ok(Some(_)) by {
            assert(front[k] == cs[k]);
        }
        assert(f(cs[cs.len() - 1]) matches Ok(Some(_)));
        if let Ok(pv) = gather(front, f) {
            lemma_gather_total(front, f, pv);
        }
    }
}

/// The ECUs that [`process_frame_ports`] adds for a frame triggering come from
/// its frame ports, one per port: each receiving ECU owns a port whose
/// communication direction is `IN`, each sending ECU one whose direction is
/// `OUT`.
pub proof fn law_ecus_follow_the_port_directions(
    n: Seq<ArxmlNode>,
    t: int,
    name: String,
    es: Seq<(bool, String)>,
)
    requires
        gather(frame_ports(n, t), port_entry_fn(n, name)) == Ok::<Seq<(bool, String)>, ArxmlError>(es),
    ensures
        ecus_in(es, true).len() + ecus_in(es, false).len() == frame_ports(n, t).len(),
        forall|i: int|
            0 <= i < ecus_in(es, true).len() ==> exists|k: int|
                0 <= k < frame_ports(n, t).len() && ecu_of(n, frame_ports(n, t)[k]) == Some(
                    #[trigger] ecus_in(es, true)[i],
                ) && (direction_of(n, frame_ports(n, t)[k]) matches Some(d) && d@ == "IN"@),
        forall|i: int|
            0 <= i < ecus_in(es, false).len() ==> exists|k: int|
                0 <= k < frame_ports(n, t).len() && ecu_of(n, frame_ports(n, t)[k]) == Some(
                    #[trigger] ecus_in(es, false)[i],
                ) && (direction_of(n, frame_ports(n, t)[k]) matches Some(d) && d@ == "OUT"@),
{
    let ps = frame_ports(n, t);
    let f = port_entry_fn(n, name);
    lemma_gather_members(ps, f, es);
    assert forall|k: int| 0 <= k < ps.len() implies #[trigger] f(ps[k]) matches Ok(Some(_)) by {
        if !(f(ps[k]) matches Ok(Some(_))) {
            assert(gather(ps.take(k + 1), f) is Err) by {
                assert(gather(ps.take(k), f) is Ok) by {
                    if gather(ps.take(k), f) is Err {
                        lemma_gather_err(ps, f, k);
                    }
                }
                lemma_gather_step(ps, f, k);
                assert(f(ps[k]) is Err);
            }
            lemma_gather_err(ps, f, k + 1);
        }
    }
    lemma_gather_total(ps, f, es);
    lemma_ecus_in_members(es, true);
    lemma_ecus_in_members(es, false);
    assert forall|i: int| 0 <= i < ecus_in(es, true).len() implies exists|k: int|
        0 <= k < ps.len() && ecu_of(n, ps[k]) == Some(#[trigger] ecus_in(es, true)[i]) && (direction_of(n, ps[k]) matches Some(d)
            && d@ == "IN"@) by {
        let j = choose|j: int| 0 <= j < es.len() && es[j].0 == true && es[j].1 == ecus_in(es, true)[i];
        let k = choose|k: int| 0 <= k < ps.len() && f(ps[k]) == Ok::<Option<(bool, String)>, ArxmlError>(Some(#[trigger] es[j]));
        assert(f(ps[k]) == Ok::<Option<(bool, String)>, ArxmlError>(Some(es[j])));
    }
    assert forall|i: int| 0 <= i < ecus_in(es, false).len() implies exists|k: int|
        0 <= k < ps.len() && ecu_of(n, ps[k]) == Some(#[trigger] ecus_in(es, false)[i]) && (direction_of(n, ps[k]) matches Some(d)
            && d@ == "OUT"@) by {
        let j = choose|j: int| 0 <= j < es.len() && es[j].0 == false && es[j].1 == ecus_in(es, false)[i];
        let k = choose|k: int| 0 <= k < ps.len() && f(ps[k]) == Ok::<Option<(bool, String)>, ArxmlError>(Some(#[trigger] es[j]));
        assert(f(ps[k]) == Ok::<Option<(bool, String)>, ArxmlError>(Some(es[j])));
    }
}

proof fn lemma_at_start_members(s: Seq<ISignal>, x: ISignal, pos: u64)
    ensures
        at_start(s, pos).contains(x) ==> s.contains(x),
        s.contains(x) && x.start_pos == pos ==> at_start(s, pos).contains(x),
    decreases s.len(),
{
    if s.len() > 0 {
        let front = s.drop_last();
        lemma_at_start_members(front, x, pos);
        if at_start(s, pos).contains(x) {
            let i = choose|i: int| 0 <= i < at_start(s, pos).len() && at_start(s, pos)[i] == x;
            if x != s.last() {
                if s.last().start_pos == pos {
                    assert(at_start(s, pos) == at_start(front, pos).push(s.last()));
                    assert(at_start(front, pos).contains(x)) by {
                        assert(at_start(front, pos)[i] == x);
                    }
                }
                let j = choose|j: int| 0 <= j < front.len() && front[j] == x;
                assert(s[j] == x);
            } else {
                assert(s[s.len() - 1] == x);
            }
        }
        if s.contains(x) && x.start_pos == pos {
            if x == s.last() {
                assert(at_start(s, pos) == at_start(front, pos).push(s.last()));
                assert(at_start(s, pos)[at_start(front, pos).len() as int] == x);
            } else {
                let j = choose|j: int| 0 <= j < s.len() && s[j] == x;
                assert(j < s.len() - 1);
                assert(front[j] == x);
                assert(front.contains(x));
                let k = choose|k: int| 0 <= k < at_start(front, pos).len() && at_start(front, pos)[k] == x;
                if s.last().start_pos == pos {
                    assert(at_start(s, pos)[k] == x);
                } else {
                    assert(at_start(s, pos)[k] == x);
                }
            }
        }
    }
}

/// The child `c` of a group's `I-SIGNAL-REFS` is a signal reference whose
/// text is `key`.
pub open spec fn signal_ref_holds(n: Seq<ArxmlNode>, c: int, key: Seq<char>) -> bool {
    &&& n[c].name@ == "I-SIGNAL-REF"@
    &&& n[c].content matches Some(CharData::Text(t))
    &&& t@ == key
}

proof fn lemma_pick_refs(n: Seq<ArxmlNode>, cs: Seq<int>, es: Seq<(String, SignalInfo)>)
    ensures
        forall|e: (String, SignalInfo)| pick_refs(n, cs, es).0.contains(e) ==> es.contains(e),
        forall|i: int|
            0 <= i < pick_refs(n, cs, es).1.len() ==> exists|j: int, k: int|
                0 <= j < es.len() && 0 <= k < cs.len() && #[trigger] pick_refs(n, cs, es).1[i] == signal_of(es[j].1)
                    && signal_ref_holds(n, cs[k], es[j].0@),
    decreases cs.len(),
{
    if cs.len() > 0 {
        let front = cs.drop_last();
        lemma_pick_refs(n, front, es);
        let prev = pick_refs(n, front, es);
        let c = cs.last();
        if let Some(p) = ref_path(n, c) {
            if has_key(prev.0, p) {
                let ki = key_index(prev.0, p);
                assert(0 <= ki < prev.0.len() && prev.0[ki].0@ == p);
                assert(prev.0.contains(prev.0[ki]));
                assert(es.contains(prev.0[ki]));
                assert(pick_refs(n, cs, es) == (prev.0.remove(ki), prev.1.push(signal_of(prev.0[ki].1))));
                let j = choose|j: int| 0 <= j < es.len() && es[j] == prev.0[ki];
                assert(cs[cs.len() - 1] == c);
                assert forall|e: (String, SignalInfo)| prev.0.remove(ki).contains(e) implies es.contains(e) by {
                    let m = choose|m: int| 0 <= m < prev.0.remove(ki).len() && prev.0.remove(ki)[m] == e;
                    if m < ki {
                        assert(prev.0[m] == e);
                    } else {
                        assert(prev.0[m + 1] == e);
                    }
                    assert(prev.0.contains(e));
                }
                assert(signal_ref_holds(n, cs[cs.len() - 1], es[j].0@));
                assert forall|i: int| 0 <= i < pick_refs(n, cs, es).1.len() implies exists|j: int, k: int|
                    0 <= j < es.len() && 0 <= k < cs.len() && #[trigger] pick_refs(n, cs, es).1[i] == signal_of(es[j].1)
                        && signal_ref_holds(n, cs[k], es[j].0@) by {
                    if i < prev.1.len() {
                        assert(pick_refs(n, cs, es).1[i] == prev.1[i]);
                        let (j2, k2) = choose|j2: int, k2: int|
                            0 <= j2 < es.len() && 0 <= k2 < front.len() && #[trigger] prev.1[i] == signal_of(es[j2].1)
                                && signal_ref_holds(n, front[k2], es[j2].0@);
                        assert(cs[k2] == front[k2]);
                    } else {
                        assert(pick_refs(n, cs, es).1[i] == signal_of(es[j].1));
                    }
                }
            } else {
                assert forall|i: int| 0 <= i < pick_refs(n, cs, es).1.len() implies exists|j: int, k: int|
                    0 <= j < es.len() && 0 <= k < cs.len() && #[trigger] pick_refs(n, cs, es).1[i] == signal_of(es[j].1)
                        && signal_ref_holds(n, cs[k], es[j].0@) by {
                    let (j2, k2) = choose|j2: int, k2: int|
                        0 <= j2 < es.len() && 0 <= k2 < front.len() && #[trigger] prev.1[i] == signal_of(es[j2].1)
                            && signal_ref_holds(n, front[k2], es[j2].0@);
                    assert(cs[k2] == front[k2]);
                }
            }
        } else {
            assert forall|i: int| 0 <= i < pick_refs(n, cs, es).1.len() implies exists|j: int, k: int|
                0 <= j < es.len() && 0 <= k < cs.len() && #[trigger] pick_refs(n, cs, es).1[i] == signal_of(es[j].1)
                    && signal_ref_holds(n, cs[k], es[j].0@) by {
                let (j2, k2) = choose|j2: int, k2: int|
                    0 <= j2 < es.len() && 0 <= k2 < front.len() && #[trigger] prev.1[i] == signal_of(es[j2].1)
                        && signal_ref_holds(n, front[k2], es[j2].0@);
                assert(cs[k2] == front[k2]);
            }
        }
    }
}

/// Each signal of a signal group read by [`process_signal_group`] is the signal
/// of one of the mappings it was handed, recorded under the text of one of the
/// `I-SIGNAL-REF` children of the group's `I-SIGNAL-REFS`: same name, start
/// position, length and init value, big endian unless the mapping's byte order
/// reads `MOST-SIGNIFICANT-BYTE-LAST`.
pub proof fn law_group_signals_are_referenced_mappings(
    n: Seq<ArxmlNode>,
    g: int,
    es: Seq<(String, SignalInfo)>,
    grp: ISignalGroup,
)
    requires
        group_matches(n, g, es, grp),
    ensures
        forall|i: int|
            0 <= i < grp.isignals@.len() ==> (child_named(n, g, "I-SIGNAL-REFS"@) matches Some(refs) && exists|
                j: int,
                k: int,
            |
                0 <= j < es.len() && 0 <= k < children(n, refs).len() && signal_ref_holds(
                    n,
                    children(n, refs)[k],
                    es[j].0@,
                ) && {
                    let s = #[trigger] grp.isignals@[i];
                    let info = es[j].1;
                    &&& s.name == info.name
                    &&& s.start_pos == info.start_pos
                    &&& s.length == info.length
                    &&& s.init_values == info.init_values
                    &&& s.byte_order == (info.byte_order@ != "MOST-SIGNIFICANT-BYTE-LAST"@)
                }),
{
    assert forall|i: int| 0 <= i < grp.isignals@.len() implies (child_named(n, g, "I-SIGNAL-REFS"@) matches Some(refs)
        && exists|j: int, k: int|
        0 <= j < es.len() && 0 <= k < children(n, refs).len() && signal_ref_holds(n, children(n, refs)[k], es[j].0@)
            && {
            let s = #[trigger] grp.isignals@[i];
            let info = es[j].1;
            &&& s.name == info.name
            &&& s.start_pos == info.start_pos
            &&& s.length == info.length
            &&& s.init_values == info.init_values
            &&& s.byte_order == (info.byte_order@ != "MOST-SIGNIFICANT-BYTE-LAST"@)
        }) by {
        let x = grp.isignals@[i];
        let picked = group_pick(n, g, es).1;
        assert(grp.isignals@.contains(x));
        lemma_at_start_members(grp.isignals@, x, x.start_pos);
        lemma_at_start_members(picked, x, x.start_pos);
        assert(picked.contains(x));
        let m = choose|m: int| 0 <= m < picked.len() && picked[m] == x;
        if let Some(refs) = child_named(n, g, "I-SIGNAL-REFS"@) {
            lemma_pick_refs(n, children(n, refs), es);
            let (j, k) = choose|j: int, k: int|
                0 <= j < es.len() && 0 <= k < children(n, refs).len() && #[trigger] pick_refs(n, children(n, refs), es).1[m]
                    == signal_of(es[j].1) && signal_ref_holds(n, children(n, refs)[k], es[j].0@);
            assert(x == signal_of(es[j].1));
        } else {
            assert(picked.len() == 0);
        }
    }
}

proof fn lemma_gather_ok_each<T>(cs: Seq<int>, f: spec_fn(int) -> Result<Option<T>, ArxmlError>, k: int)
    requires
        gather(cs, f) is Ok,
        0 <= k < cs.len(),
    ensures
        f(cs[k]) is Ok,
{
    if f(cs[k]) is Err {
        if gather(cs.take(k), f) is Err {
            lemma_gather_err(cs, f, k);
        } else {
            lemma_gather_step(cs, f, k);
            lemma_gather_err(cs, f, k + 1);
        }
    }
}

/// The data transformations of a signal group read by [`process_signal_group`]
/// are the names of the elements that the `DATA-TRANSFORMATION-REF`s of the
/// children of its `COM-BASED-SIGNAL-GROUP-TRANSFORMATIONS` refer to, one per
/// child; a group without that element has none.
pub proof fn law_group_transformations_are_the_referenced_names(
    n: Seq<ArxmlNode>,
    g: int,
    es: Seq<(String, SignalInfo)>,
    grp: ISignalGroup,
)
    requires
        group_matches(n, g, es, grp),
    ensures
        grp.data_transformations@.len() == match child_named(n, g, "COM-BASED-SIGNAL-GROUP-TRANSFORMATIONS"@) {
            Some(c) => children(n, c).len(),
            None => 0,
        },
        forall|i: int|
            #![trigger grp.data_transformations@[i]]
            0 <= i < grp.data_transformations@.len() ==> (child_named(
                n,
                g,
                "COM-BASED-SIGNAL-GROUP-TRANSFORMATIONS"@,
            ) matches Some(c) && exists|k: int|
                #![trigger children(n, c)[k]]
                0 <= k < children(n, c).len() && (required_reference(
                    n,
                    children(n, c)[k],
                    "DATA-TRANSFORMATION-REF"@,
                ) matches Some(t) && n[t].item_name == Some(grp.data_transformations@[i]))),
{
    if let Some(c) = child_named(n, g, "COM-BASED-SIGNAL-GROUP-TRANSFORMATIONS"@) {
        let cs = children(n, c);
        let f = transformation_fn(n);
        let v = grp.data_transformations@;
        lemma_gather_members(cs, f, v);
        assert forall|k: int| 0 <= k < cs.len() implies #[trigger] f(cs[k]) matches Ok(Some(_)) by {
            lemma_gather_ok_each(cs, f, k);
        }
        lemma_gather_total(cs, f, v);
        assert forall|i: int| #![trigger v[i]] 0 <= i < v.len() implies exists|k: int|
            #![trigger cs[k]]
            0 <= k < cs.len() && (required_reference(n, cs[k], "DATA-TRANSFORMATION-REF"@) matches Some(t)
                && n[t].item_name == Some(v[i])) by {
            let k = choose|k: int| 0 <= k < cs.len() && f(cs[k]) == Ok::<Option<String>, ArxmlError>(Some(v[i]));
            assert(f(cs[k]) == Ok::<Option<String>, ArxmlError>(Some(v[i])));
        }
    }
}

} // verus!
