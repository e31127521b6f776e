use opendut::arxml_parser::{
    fd_behavior_from_uppercase, frame_fd_behavior, is_extended_addressing, ArxmlParser,
};
use opendut::arxml_structs::{CanClusters, FrameInterval, InitValues, Pdu};
use opendut::timed_frames::{
    bus_is_well_placed, frame_is_well_placed, get_timed_can_frame_from_id,
    get_timed_can_frames_from_bus,
};

fn triggering(name: &str, frame: &str, id: u32) -> String {
    format!(
        "<CAN-FRAME-TRIGGERING><SHORT-NAME>{name}</SHORT-NAME>\
         <FRAME-REF DEST=\"CAN-FRAME\">/Frames/{frame}</FRAME-REF>\
         <CAN-ADDRESSING-MODE>STANDARD</CAN-ADDRESSING-MODE>\
         <IDENTIFIER>{id}</IDENTIFIER></CAN-FRAME-TRIGGERING>"
    )
}

fn plain_frame(name: &str) -> String {
    format!("<CAN-FRAME><SHORT-NAME>{name}</SHORT-NAME><FRAME-LENGTH>8</FRAME-LENGTH></CAN-FRAME>")
}

fn sample_arxml() -> String {
    let mut triggerings = String::new();
    triggerings.push_str(&triggering("FT0", "Frame0", 291));
    for k in 1..5 {
        triggerings.push_str(&triggering(&format!("FT{k}"), &format!("Frame{k}"), 291 + k));
    }
    let mut frames = String::new();
    frames.push_str(
        "<CAN-FRAME><SHORT-NAME>Frame0</SHORT-NAME><FRAME-LENGTH>8</FRAME-LENGTH>\
         <PDU-TO-FRAME-MAPPINGS><PDU-TO-FRAME-MAPPING><SHORT-NAME>Mapping0</SHORT-NAME>\
         <PACKING-BYTE-ORDER>MOST-SIGNIFICANT-BYTE-LAST</PACKING-BYTE-ORDER>\
         <PDU-REF DEST=\"I-SIGNAL-I-PDU\">/Pdus/Pdu0</PDU-REF>\
         <START-POSITION>0</START-POSITION></PDU-TO-FRAME-MAPPING></PDU-TO-FRAME-MAPPINGS>\
         </CAN-FRAME>",
    );
    for k in 1..5 {
        frames.push_str(&plain_frame(&format!("Frame{k}")));
    }
    format!(
        "<?xml version=\"1.0\" encoding=\"utf-8\"?>\n\
<AUTOSAR xmlns=\"http://autosar.org/schema/r4.0\" xmlns:xsi=\"http://www.w3.org/2001/XMLSchema-instance\" \
xsi:schemaLocation=\"http://autosar.org/schema/r4.0 AUTOSAR_4-2-2.xsd\">\
<AR-PACKAGES>\
<AR-PACKAGE><SHORT-NAME>Clusters</SHORT-NAME><ELEMENTS>\
<CAN-CLUSTER><SHORT-NAME>Cluster0</SHORT-NAME><CAN-CLUSTER-VARIANTS><CAN-CLUSTER-CONDITIONAL>\
<BAUDRATE>500000</BAUDRATE>\
<PHYSICAL-CHANNELS><CAN-PHYSICAL-CHANNEL><SHORT-NAME>Channel0</SHORT-NAME>\
<FRAME-TRIGGERINGS>{triggerings}</FRAME-TRIGGERINGS>\
</CAN-PHYSICAL-CHANNEL></PHYSICAL-CHANNELS>\
<CAN-FD-BAUDRATE>2000000</CAN-FD-BAUDRATE>\
</CAN-CLUSTER-CONDITIONAL></CAN-CLUSTER-VARIANTS></CAN-CLUSTER>\
<CAN-CLUSTER><SHORT-NAME>Cluster1</SHORT-NAME><CAN-CLUSTER-VARIANTS><CAN-CLUSTER-CONDITIONAL>\
<PHYSICAL-CHANNELS><CAN-PHYSICAL-CHANNEL><SHORT-NAME>Channel1</SHORT-NAME>\
</CAN-PHYSICAL-CHANNEL></PHYSICAL-CHANNELS>\
</CAN-CLUSTER-CONDITIONAL></CAN-CLUSTER-VARIANTS></CAN-CLUSTER>\
</ELEMENTS></AR-PACKAGE>\
<AR-PACKAGE><SHORT-NAME>Frames</SHORT-NAME><ELEMENTS>{frames}</ELEMENTS></AR-PACKAGE>\
<AR-PACKAGE><SHORT-NAME>Pdus</SHORT-NAME><ELEMENTS>\
<I-SIGNAL-I-PDU><SHORT-NAME>Pdu0</SHORT-NAME><LENGTH>8</LENGTH>\
<I-PDU-TIMING-SPECIFICATIONS><I-PDU-TIMING><TRANSMISSION-MODE-DECLARATION>\
<TRANSMISSION-MODE-TRUE-TIMING><CYCLIC-TIMING><TIME-PERIOD><VALUE>0.1</VALUE></TIME-PERIOD>\
</CYCLIC-TIMING></TRANSMISSION-MODE-TRUE-TIMING></TRANSMISSION-MODE-DECLARATION>\
</I-PDU-TIMING></I-PDU-TIMING-SPECIFICATIONS>\
<I-SIGNAL-TO-PDU-MAPPINGS><I-SIGNAL-TO-I-PDU-MAPPING><SHORT-NAME>SigMapping0</SHORT-NAME>\
<I-SIGNAL-REF DEST=\"I-SIGNAL\">/Signals/Sig0</I-SIGNAL-REF>\
<PACKING-BYTE-ORDER>MOST-SIGNIFICANT-BYTE-LAST</PACKING-BYTE-ORDER>\
<START-POSITION>0</START-POSITION></I-SIGNAL-TO-I-PDU-MAPPING></I-SIGNAL-TO-PDU-MAPPINGS>\
<UNUSED-BIT-PATTERN>0</UNUSED-BIT-PATTERN>\
</I-SIGNAL-I-PDU></ELEMENTS></AR-PACKAGE>\
<AR-PACKAGE><SHORT-NAME>Signals</SHORT-NAME><ELEMENTS>\
<I-SIGNAL><SHORT-NAME>Sig0</SHORT-NAME>\
<INIT-VALUE><NUMERICAL-VALUE-SPECIFICATION><VALUE>5</VALUE></NUMERICAL-VALUE-SPECIFICATION></INIT-VALUE>\
<LENGTH>8</LENGTH></I-SIGNAL>\
</ELEMENTS></AR-PACKAGE>\
</AR-PACKAGES></AUTOSAR>\n"
    )
}

fn parse_sample() -> CanClusters {
    let parser = ArxmlParser {};
    let text = sample_arxml();
    parser
        .parse_file(&String::from("system.arxml"), text.as_bytes())
        .unwrap()
}

#[test]
fn test_parsing() {
    let parse_res = parse_sample();

    assert_eq!(parse_res.len(), 1);
    let cluster = &parse_res.clusters()[0];
    let cluster_name = &cluster.name;

    assert_eq!(&String::from("Cluster0"), cluster_name);

    println!("{}", cluster.can_frame_triggerings.len());

    assert_eq!(cluster.can_frame_triggerings.len(), 5)
}

#[test]
fn parsed_cluster_holds_baudrates_frames_pdus_and_signals() {
    let clusters = parse_sample();
    let cluster = clusters.get(&String::from("Cluster0")).unwrap();
    assert_eq!(cluster.baudrate, 500000);
    assert_eq!(cluster.canfd_baudrate, 2000000);
    for (id, t) in cluster.can_frame_triggerings.iter() {
        assert_eq!(*id, t.can_id);
    }
    let t = cluster.can_frame_triggerings.get(&291).unwrap();
    assert_eq!(t.frame_triggering_name, "FT0");
    assert_eq!(t.frame_name, "Frame0");
    assert!(!t.can_29_bit_addressing);
    // No behaviors are given and the cluster has a baudrate: both count as CAN FD.
    assert!(t.frame_rx_behavior);
    assert!(t.frame_tx_behavior);
    assert_eq!(t.frame_length, 8);
    assert_eq!(t.pdu_mappings.len(), 1);
    let m = &t.pdu_mappings[0];
    assert_eq!(m.name, "Pdu0");
    assert!(!m.byte_order);
    assert_eq!(m.length, 8);
    match &m.pdu {
        Pdu::ISignalIPdu(p) => {
            assert_eq!(p.cyclic_timing_period_value, 0.1f64.to_bits());
            assert_eq!(p.cyclic_timing_period_tolerance, None);
            assert!(!p.unused_bit_pattern);
            assert_eq!(p.grouped_signals.len(), 0);
            assert_eq!(p.ungrouped_signals.len(), 1);
            let s = &p.ungrouped_signals[0];
            assert_eq!(s.name, "Sig0");
            assert!(!s.byte_order);
            assert_eq!(s.start_pos, 0);
            assert_eq!(s.length, 8);
            assert!(matches!(s.init_values, InitValues::Single(5)));
        }
        Pdu::NmPdu(_) => panic!("an ISignalIPdu was expected"),
    }
}

#[test]
fn timed_frames_of_parsed_bus() {
    let clusters = parse_sample();
    assert!(bus_is_well_placed(&clusters, &String::from("Cluster0")));
    assert!(frame_is_well_placed(&clusters, &String::from("Cluster0"), 291));
    let frames = get_timed_can_frames_from_bus(&clusters, String::from("Cluster0")).unwrap();
    assert_eq!(frames.len(), 1);
    let f = &frames[0];
    assert_eq!(f.can_id, 291);
    assert_eq!(f.len, 8);
    assert_eq!(f.count, 0);
    assert_eq!(f.ival1, FrameInterval::Seconds(0));
    assert_eq!(f.ival2, FrameInterval::Seconds(0.1f64.to_bits()));
    assert!(f.frame_tx_behavior);
    assert_eq!(f.data, vec![5, 0, 0, 0, 0, 0, 0, 0]);

    let by_id = get_timed_can_frame_from_id(&clusters, String::from("Cluster0"), 291).unwrap();
    assert_eq!(by_id.len(), 1);
    assert_eq!(by_id[0].data, vec![5, 0, 0, 0, 0, 0, 0, 0]);
    let none = get_timed_can_frame_from_id(&clusters, String::from("Cluster0"), 292).unwrap();
    assert_eq!(none.len(), 0);
    let no_bus = get_timed_can_frames_from_bus(&clusters, String::from("Cluster9")).unwrap();
    assert_eq!(no_bus.len(), 0);
}

#[test]
fn unparsable_text_is_refused() {
    let parser = ArxmlParser {};
    let r = parser.parse_file(&String::from("broken.arxml"), b"this is not xml");
    match r {
        Ok(_) => panic!("broken input was accepted"),
        Err(message) => assert!(message.starts_with("Parsing failed. Error: ")),
    }
}

#[test]
fn extended_addressing_ignores_ascii_case() {
    assert!(is_extended_addressing(&String::from("EXTENDED")));
    assert!(is_extended_addressing(&String::from("Extended")));
    assert!(!is_extended_addressing(&String::from("STANDARD")));
    assert!(!is_extended_addressing(&String::from("EXTENDED ")));
}

#[test]
fn frame_behavior_rule() {
    // The text is upper-cased before it is compared.
    assert!(frame_fd_behavior(&String::from("can-fd"), false));
    assert!(frame_fd_behavior(&String::from("CAN-FD"), false));
    assert!(!frame_fd_behavior(&String::from("CAN-20"), true));
    assert!(frame_fd_behavior(&String::new(), true));
    assert!(!frame_fd_behavior(&String::new(), false));
    assert!(fd_behavior_from_uppercase(&String::from("CAN-FD"), false, false));
    assert!(!fd_behavior_from_uppercase(&String::from("can-fd"), false, false));
    assert!(fd_behavior_from_uppercase(&String::new(), true, true));
}

fn sample_with_constant_reference(dest_attribute: &str) -> String {
    sample_arxml()
        .replace(
            "<INIT-VALUE><NUMERICAL-VALUE-SPECIFICATION><VALUE>5</VALUE></NUMERICAL-VALUE-SPECIFICATION></INIT-VALUE>",
            &format!(
                "<INIT-VALUE><CONSTANT-REFERENCE><CONSTANT-REF{dest_attribute}>Start</CONSTANT-REF>\
                 </CONSTANT-REFERENCE></INIT-VALUE>"
            ),
        )
        .replace(
            "</AR-PACKAGES>",
            "<AR-PACKAGE><SHORT-NAME>Constants</SHORT-NAME><ELEMENTS>\
             <CONSTANT-SPECIFICATION><SHORT-NAME>Start</SHORT-NAME><VALUE-SPEC>\
             <NUMERICAL-VALUE-SPECIFICATION><VALUE>7</VALUE></NUMERICAL-VALUE-SPECIFICATION>\
             </VALUE-SPEC></CONSTANT-SPECIFICATION></ELEMENTS></AR-PACKAGE></AR-PACKAGES>",
        )
}

#[test]
fn unresolved_constant_references_are_retried_under_constants() {
    let text = sample_with_constant_reference(" DEST=\"CONSTANT-SPECIFICATION\"");
    let clusters = ArxmlParser {}.parse_file(&String::from("constants.arxml"), text.as_bytes()).unwrap();
    let cluster = &clusters.clusters()[0];
    assert_eq!(cluster.can_frame_triggerings.len(), 5);
    match &cluster.can_frame_triggerings[&291].pdu_mappings[0].pdu {
        Pdu::ISignalIPdu(pdu) => {
            assert!(matches!(pdu.ungrouped_signals[0].init_values, InitValues::Single(7)))
        }
        Pdu::NmPdu(_) => panic!("expected an ISignalIPdu"),
    }
}

#[test]
fn retried_references_need_their_dest() {
    // The constant exists under /Constants/, but the reference does not say what
    // it points to: the frame triggering whose PDU needs it cannot be read.
    let text = sample_with_constant_reference("");
    let clusters = ArxmlParser {}.parse_file(&String::from("constants.arxml"), text.as_bytes()).unwrap();
    let cluster = &clusters.clusters()[0];
    assert_eq!(cluster.can_frame_triggerings.len(), 4);
    assert!(!cluster.can_frame_triggerings.contains_key(&291));
}
