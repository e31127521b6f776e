use opendut::arxml_document::{ArxmlDocument, ArxmlNode, CharData};
use opendut::arxml_structs::{ISignal, InitValues, TimeRangeTolerance};
use opendut::arxml_utils::{
    decode_integer, ecu_of_frame_port, frame_port_direction,
    get_byte_order, get_optional_int_value, get_optional_string, get_required_int_value,
    get_required_reference, get_required_sub_subelement, get_sub_element_and_time_range,
    get_subelement_string_value, get_time_range, get_unused_bit_pattern, lowest_bit_set,
    process_frame_ports, process_init_value, process_signal_group, sort_by_start_pos, ArxmlError,
    FramePortDirection, SignalInfo,
};
use opendut::string_map::StringMap;
use opendut::integer_text::decode_integer_text;

#[test]
fn byte_order_is_big_endian_unless_most_significant_byte_last() {
    assert!(!get_byte_order(&String::from("MOST-SIGNIFICANT-BYTE-LAST")));
    assert!(get_byte_order(&String::from("MOST-SIGNIFICANT-BYTE-FIRST")));
    assert!(get_byte_order(&String::from("OPAQUE")));
    assert!(get_byte_order(&String::new()));
}

#[test]
fn frame_port_directions() {
    assert_eq!(frame_port_direction(&String::from("IN")), FramePortDirection::Receive);
    assert_eq!(frame_port_direction(&String::from("OUT")), FramePortDirection::Transmit);
    assert_eq!(frame_port_direction(&String::from("in")), FramePortDirection::Invalid);
}

#[test]
fn unused_bit_pattern_is_the_lowest_bit() {
    assert!(lowest_bit_set(1));
    assert!(lowest_bit_set(255));
    assert!(!lowest_bit_set(0));
    assert!(!lowest_bit_set(254));
}

#[test]
fn integer_texts() {
    assert_eq!(decode_integer_text("0"), Some(0));
    assert_eq!(decode_integer_text("42"), Some(42));
    assert_eq!(decode_integer_text("+42"), Some(42));
    assert_eq!(decode_integer_text("0x1F"), Some(31));
    assert_eq!(decode_integer_text("0X1f"), Some(31));
    assert_eq!(decode_integer_text("0b101"), Some(5));
    assert_eq!(decode_integer_text("0B11"), Some(3));
    assert_eq!(decode_integer_text("017"), Some(15));
    assert_eq!(decode_integer_text("true"), Some(1));
    assert_eq!(decode_integer_text("FALSE"), Some(0));
    assert_eq!(decode_integer_text("18446744073709551615"), Some(u64::MAX));
    assert_eq!(decode_integer_text("18446744073709551616"), None);
    assert_eq!(decode_integer_text("abc"), None);
    assert_eq!(decode_integer_text("08"), None);
    assert_eq!(decode_integer_text(""), None);
    assert_eq!(decode_integer_text("-1"), None);
}

#[test]
fn only_string_character_data_decodes() {
    assert_eq!(decode_integer(&CharData::Text(String::from("0x10"))), Some(16));
    assert_eq!(decode_integer(&CharData::Enum(String::from("TRUE"))), None);
    assert_eq!(
        decode_integer(&CharData::Unsigned(7)),
        None
    );
    assert_eq!(
        decode_integer(&CharData::Float(1.5f64.to_bits())),
        None
    );
}

#[test]
fn character_data_accessors() {
    let text = CharData::Text(String::from("abc"));
    assert_eq!(text.string_value(), Some(String::from("abc")));
    let item = CharData::Enum(String::from("IN"));
    assert_eq!(item.enum_value(), Some(String::from("IN")));
    assert_eq!(item.string_value(), None);
    let number = CharData::Float(0.25f64.to_bits());
    assert_eq!(number.float_value_bits(), Some(0.25f64.to_bits()));
}

fn signal(name: &str, start_pos: u64) -> ISignal {
    ISignal {
        name: String::from(name),
        byte_order: false,
        start_pos,
        length: 1,
        init_values: InitValues::NotExist(true),
    }
}

#[test]
fn signals_are_sorted_stably_by_start_position() {
    let mut signals = vec![signal("c", 16), signal("a", 0), signal("d", 16), signal("b", 8)];
    sort_by_start_pos(&mut signals);
    let names: Vec<&str> = signals.iter().map(|s| s.name.as_str()).collect();
    assert_eq!(names, vec!["a", "b", "c", "d"]);
}

fn node(depth: usize, name: &str) -> ArxmlNode {
    ArxmlNode {
        depth,
        name: String::from(name),
        item_name: None,
        content: None,
        text: None,
        path: None,
        target: None,
        retry: None,
    }
}

fn named(depth: usize, name: &str, item: &str, path: &str) -> ArxmlNode {
    ArxmlNode {
        item_name: Some(String::from(item)),
        path: Some(String::from(path)),
        ..node(depth, name)
    }
}

fn text(depth: usize, name: &str, value: &str) -> ArxmlNode {
    ArxmlNode {
        content: Some(CharData::Text(String::from(value))),
        text: Some(String::from(value)),
        ..node(depth, name)
    }
}

fn item(depth: usize, name: &str, value: &str) -> ArxmlNode {
    ArxmlNode {
        content: Some(CharData::Enum(String::from(value))),
        text: Some(String::from(value)),
        ..node(depth, name)
    }
}

fn reference(depth: usize, name: &str, value: &str, target: Option<&str>) -> ArxmlNode {
    ArxmlNode { target: target.map(String::from), ..text(depth, name, value) }
}

/// A package of signals: Sig0 with a constant init value that is found only
/// under /Constants/, and Sig1 with an array init value.
fn signals_document() -> ArxmlDocument {
    ArxmlDocument {
        nodes: vec![
            node(0, "AUTOSAR"),
            node(1, "AR-PACKAGES"),
            named(2, "AR-PACKAGE", "Signals", "/Signals"),
            node(3, "ELEMENTS"),
            named(4, "I-SIGNAL", "Sig0", "/Signals/Sig0"),
            text(5, "LENGTH", "0x10"),
            node(5, "INIT-VALUE"),
            node(6, "CONSTANT-REFERENCE"),
            ArxmlNode { retry: Some(String::from("/Constants/Start")), ..reference(7, "CONSTANT-REF", "Start", None) },
            named(4, "I-SIGNAL", "Sig1", "/Signals/Sig1"),
            text(5, "LENGTH", "16"),
            node(5, "INIT-VALUE"),
            node(6, "ARRAY-VALUE-SPECIFICATION"),
            node(7, "ELEMENTS"),
            node(8, "NUMERICAL-VALUE-SPECIFICATION"),
            text(9, "VALUE", "1"),
            node(8, "NUMERICAL-VALUE-SPECIFICATION"),
            text(9, "VALUE", "0x2"),
            named(2, "AR-PACKAGE", "Constants", "/Constants"),
            node(3, "ELEMENTS"),
            named(4, "CONSTANT-SPECIFICATION", "Start", "/Constants/Start"),
            node(5, "VALUE-SPEC"),
            node(6, "NUMERICAL-VALUE-SPECIFICATION"),
            text(7, "VALUE", "7"),
        ],
    }
}

#[test]
fn document_navigation_follows_depths() {
    let doc = signals_document();
    assert_eq!(doc.children(3), vec![4, 9]);
    assert_eq!(doc.sub_element(4, "LENGTH"), Some(5));
    assert_eq!(doc.sub_element(4, "VALUE"), None);
    assert_eq!(doc.sub_element(1, "AR-PACKAGE"), Some(2));
    assert_eq!(doc.first_child(6), Some(7));
    assert_eq!(doc.first_child(5), None);
    assert_eq!(doc.parent(9), Some(3));
    assert_eq!(doc.parent(0), None);
    assert_eq!(doc.lookup(&String::from("/Constants/Start")), Some(20));
    assert_eq!(doc.lookup(&String::from("/Constants/Stop")), None);
    assert!(doc.has_name(4, "I-SIGNAL"));
    assert!(!doc.has_name(4, "i-signal"));
}

#[test]
fn element_values_are_read_by_their_xml_spelling() {
    let doc = signals_document();
    assert_eq!(get_optional_int_value(&doc, 4, "LENGTH"), 16);
    assert_eq!(get_subelement_string_value(&doc, 4, "LENGTH"), Some(String::from("0x10")));
    assert_eq!(get_optional_int_value(&doc, 4, "length"), 0);
    assert_eq!(get_optional_string(&doc, 4, "NO-SUCH-ELEMENT"), "");
    assert_eq!(get_required_int_value(&doc, 4, "START-POSITION"), Err(ArxmlError::MissingIntValue { subelement: "START-POSITION" }));
    assert_eq!(get_required_sub_subelement(&doc, 11, "ARRAY-VALUE-SPECIFICATION", "ELEMENTS"), Ok(13));
}

#[test]
fn unresolved_references_fall_back_to_their_retried_target() {
    let doc = signals_document();
    assert_eq!(get_required_reference(&doc, 7, "CONSTANT-REF"), Ok(20));
    // A reference that resolves neither as it stands nor once retried is missing,
    // though an element with the constant's path exists.
    let mut nodes = signals_document().nodes;
    nodes[8].retry = None;
    let doc = ArxmlDocument { nodes };
    assert_eq!(
        get_required_reference(&doc, 7, "CONSTANT-REF"),
        Err(ArxmlError::MissingReference { subelement: "CONSTANT-REF" })
    );
    assert_eq!(get_required_reference(&doc, 7, "OTHER-REF"), Err(ArxmlError::MissingReference { subelement: "OTHER-REF" }));
}

#[test]
fn init_values_follow_constant_references() {
    let doc = signals_document();
    let mut elem = 6;
    let mut values = InitValues::NotExist(true);
    assert_eq!(process_init_value(&doc, &mut elem, &mut values, &String::from("Sig0")), Ok(()));
    assert!(matches!(values, InitValues::Single(7)));
    assert_eq!(elem, 21);
}

#[test]
fn array_init_values_are_read_in_order() {
    let doc = signals_document();
    let mut elem = 11;
    let mut values = InitValues::NotExist(true);
    assert_eq!(process_init_value(&doc, &mut elem, &mut values, &String::from("Sig1")), Ok(()));
    match values {
        InitValues::Array(v) => assert_eq!(v, vec![1, 2]),
        _ => panic!("expected an array"),
    }
}

#[test]
fn unknown_init_values_are_refused() {
    let doc = signals_document();
    let mut elem = 5;
    let mut values = InitValues::NotExist(false);
    assert_eq!(
        process_init_value(&doc, &mut elem, &mut values, &String::from("Sig0")),
        Err(ArxmlError::MissingSubElement { context: "INIT-VALUE" })
    );
    assert!(matches!(values, InitValues::NotExist(false)));
}

/// An ECU with a receiving and a sending frame port, and a frame triggering
/// that refers to both, with an unresolved reference between them.
fn ports_document(direction: &str) -> ArxmlDocument {
    ArxmlDocument {
        nodes: vec![
            node(0, "AUTOSAR"),
            named(1, "ECU-INSTANCE", "Ecu1", "/Ecus/Ecu1"),
            node(2, "CONNECTORS"),
            named(3, "CAN-COMMUNICATION-CONNECTOR", "Conn", "/Ecus/Ecu1/Conn"),
            node(4, "ECU-COMM-PORT-INSTANCES"),
            node(5, "FRAME-PORT"),
            item(6, "COMMUNICATION-DIRECTION", "IN"),
            named(5, "FRAME-PORT", "TxPort", "/Ecus/Ecu1/Conn/TxPort"),
            item(6, "COMMUNICATION-DIRECTION", direction),
            named(1, "CAN-FRAME-TRIGGERING", "Trig", "/Trig"),
            node(2, "FRAME-PORT-REFS"),
            reference(3, "FRAME-PORT-REF", "/Ecus/Ecu1/Conn/TxPort", Some("/Ecus/Ecu1/Conn/TxPort")),
            reference(3, "FRAME-PORT-REF", "/Missing", None),
        ],
    }
}

#[test]
fn frame_ports_give_the_ecus_by_direction() {
    let doc = ports_document("OUT");
    assert_eq!(ecu_of_frame_port(&doc, 7), Some(String::from("Ecu1")));
    assert_eq!(ecu_of_frame_port(&doc, 1), None);
    let mut rx = vec![String::from("Old")];
    let mut tx = Vec::new();
    assert_eq!(process_frame_ports(&doc, 9, &String::from("Trig"), &mut rx, &mut tx), Ok(()));
    assert_eq!(rx, vec![String::from("Old")]);
    assert_eq!(tx, vec![String::from("Ecu1")]);
}

#[test]
fn frame_ports_with_an_invalid_direction_are_refused() {
    let doc = ports_document("INOUT");
    let mut rx = Vec::new();
    let mut tx = Vec::new();
    assert_eq!(
        process_frame_ports(&doc, 9, &String::from("Trig"), &mut rx, &mut tx),
        Err(ArxmlError::InvalidDirection { frame_triggering: String::from("Trig") })
    );
}

fn float(depth: usize, name: &str, value: f64) -> ArxmlNode {
    ArxmlNode {
        content: Some(CharData::Float(value.to_bits())),
        text: Some(value.to_string()),
        ..node(depth, name)
    }
}

#[test]
fn time_ranges_prefer_absolute_tolerances() {
    let doc = ArxmlDocument {
        nodes: vec![
            node(0, "CYCLIC-TIMING"),
            node(1, "TIME-PERIOD"),
            float(2, "VALUE", 0.1),
            node(2, "RELATIVE-TOLERANCE"),
            text(3, "RELATIVE", "5"),
            node(1, "TIME-OFFSET"),
            text(2, "VALUE", "0.2"),
        ],
    };
    let range = get_time_range(&doc, 1).unwrap();
    assert_eq!(range.value, 0.1f64.to_bits());
    assert_eq!(range.tolerance, Some(TimeRangeTolerance::Relative(5)));
    // A value that is no floating-point number gives no time range.
    assert_eq!(get_time_range(&doc, 5), None);
    let mut value = 3u64;
    let mut tolerance = None;
    get_sub_element_and_time_range(&doc, 0, "TIME-OFFSET", &mut value, &mut tolerance);
    assert_eq!(value, 3);
    get_sub_element_and_time_range(&doc, 0, "TIME-PERIOD", &mut value, &mut tolerance);
    assert_eq!(value, 0.1f64.to_bits());
    assert_eq!(tolerance, Some(TimeRangeTolerance::Relative(5)));
}

#[test]
fn unused_bit_patterns_of_pdus() {
    let doc = ArxmlDocument {
        nodes: vec![node(0, "I-SIGNAL-I-PDU"), text(1, "UNUSED-BIT-PATTERN", "0xFF"), node(0, "NM-PDU")],
    };
    assert!(get_unused_bit_pattern(&doc, 0));
    assert!(!get_unused_bit_pattern(&doc, 2));
}

fn info(name: &str, start_pos: u64) -> SignalInfo {
    SignalInfo {
        name: String::from(name),
        byte_order: String::from("MOST-SIGNIFICANT-BYTE-LAST"),
        start_pos,
        length: 8,
        init_values: InitValues::NotExist(true),
    }
}

#[test]
fn signal_groups_take_their_signals_out_of_the_mappings() {
    let doc = ArxmlDocument {
        nodes: vec![
            named(0, "I-SIGNAL-GROUP", "Group", "/Group"),
            node(1, "I-SIGNAL-REFS"),
            text(2, "I-SIGNAL-REF", "/S/B"),
            text(2, "I-SIGNAL-REF", "/S/A"),
            text(2, "I-SIGNAL-REF", "/S/Missing"),
            node(1, "COM-BASED-SIGNAL-GROUP-TRANSFORMATIONS"),
            node(2, "DATA-TRANSFORMATION-REF-CONDITIONAL"),
            reference(3, "DATA-TRANSFORMATION-REF", "/T/E2E", Some("/T/E2E")),
            named(0, "DATA-TRANSFORMATION", "E2E", "/T/E2E"),
        ],
    };
    let mut signals = StringMap::new();
    signals.insert(String::from("/S/A"), info("A", 8));
    signals.insert(String::from("/S/B"), info("B", 0));
    signals.insert(String::from("/S/C"), info("C", 16));
    let mut groups = Vec::new();
    assert_eq!(process_signal_group(&doc, 0, &mut signals, &mut groups), Ok(()));
    assert_eq!(groups.len(), 1);
    assert_eq!(groups[0].name, "Group");
    let names: Vec<&str> = groups[0].isignals.iter().map(|s| s.name.as_str()).collect();
    assert_eq!(names, vec!["B", "A"]);
    assert!(!groups[0].isignals[0].byte_order);
    assert_eq!(groups[0].data_transformations, vec![String::from("E2E")]);
    assert_eq!(signals.len(), 1);
    assert!(signals.get(&String::from("/S/C")).is_some());
}

#[test]
fn signal_groups_without_references_are_refused() {
    let doc = ArxmlDocument { nodes: vec![named(0, "I-SIGNAL-GROUP", "Group", "/Group")] };
    let mut signals: StringMap<SignalInfo> = StringMap::new();
    signals.insert(String::from("/S/A"), info("A", 8));
    let mut groups = Vec::new();
    assert_eq!(
        process_signal_group(&doc, 0, &mut signals, &mut groups),
        Err(ArxmlError::MissingSubElement { context: "I-SIGNAL-GROUP" })
    );
    assert!(groups.is_empty());
    assert_eq!(signals.len(), 1);
}
