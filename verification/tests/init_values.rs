use opendut::arxml_structs::{ISignal, ISignalGroup, InitValues};
use opendut::init_values::{extract_init_values, process_isignal_init_value, InitValueError};

fn signal(start_pos: u64, length: u64, byte_order: bool, init_values: InitValues) -> ISignal {
    ISignal { name: String::from("s"), byte_order, start_pos, length, init_values }
}

#[test]
fn single_little_endian_value_in_little_endian_pdu() {
    let signals = vec![signal(0, 8, false, InitValues::Single(5))];
    let bytes = extract_init_values(false, &signals, &vec![], 8, &false).unwrap();
    assert_eq!(bytes, vec![5, 0, 0, 0, 0, 0, 0, 0]);
}

#[test]
fn single_value_in_big_endian_pdu() {
    // Bits are written least significant first, then packed most significant first.
    let signals = vec![signal(0, 8, false, InitValues::Single(5))];
    let bytes = extract_init_values(false, &signals, &vec![], 2, &true).unwrap();
    assert_eq!(bytes, vec![0b1010_0000, 0]);
}

#[test]
fn big_endian_signal_is_reversed() {
    let signals = vec![signal(0, 8, true, InitValues::Single(5))];
    let bytes = extract_init_values(false, &signals, &vec![], 1, &true).unwrap();
    assert_eq!(bytes, vec![5]);
}

#[test]
fn unused_bits_take_the_unused_bit_pattern() {
    let signals = vec![signal(4, 4, false, InitValues::Single(0))];
    let bytes = extract_init_values(true, &signals, &vec![], 2, &true).unwrap();
    assert_eq!(bytes, vec![0xF0, 0xFF]);
}

#[test]
fn array_values_are_written_byte_by_byte() {
    let signals = vec![signal(8, 16, false, InitValues::Array(vec![1, 0x80]))];
    let bytes = extract_init_values(false, &signals, &vec![], 3, &true).unwrap();
    assert_eq!(bytes, vec![0, 1, 0x80]);
}

#[test]
fn grouped_signals_are_written_after_ungrouped_ones() {
    let group = ISignalGroup {
        name: String::from("g"),
        isignals: vec![signal(0, 8, false, InitValues::Single(3))],
        data_transformations: vec![],
        transformation_props: vec![],
    };
    let ungrouped = vec![signal(0, 8, false, InitValues::Single(1))];
    let bytes = extract_init_values(false, &ungrouped, &vec![group], 1, &false).unwrap();
    assert_eq!(bytes, vec![3]);
}

#[test]
fn signals_without_init_value_leave_bits_alone() {
    let signals = vec![signal(0, 8, false, InitValues::NotExist(true))];
    let bytes = extract_init_values(true, &signals, &vec![], 1, &false).unwrap();
    assert_eq!(bytes, vec![0xFF]);
}

#[test]
fn array_of_odd_bit_length_is_refused() {
    let signals = vec![signal(0, 12, false, InitValues::Array(vec![1]))];
    let r = extract_init_values(false, &signals, &vec![], 2, &false);
    assert_eq!(r, Err(InitValueError::ArrayLengthNotByteMultiple { length: 12 }));
}

#[test]
fn value_longer_than_signal_is_refused() {
    let signals = vec![signal(0, 2, false, InitValues::Single(5))];
    let r = extract_init_values(false, &signals, &vec![], 1, &false);
    assert_eq!(r, Err(InitValueError::BitCountMismatch));
}

#[test]
fn array_with_too_few_values_is_refused() {
    let signals = vec![signal(0, 16, false, InitValues::Array(vec![1]))];
    let r = extract_init_values(false, &signals, &vec![], 2, &false);
    assert_eq!(r, Err(InitValueError::BitCountMismatch));
}

#[test]
fn writing_a_signal_into_bits() {
    let mut bits = vec![false; 8];
    let s = signal(2, 3, false, InitValues::Single(6));
    assert_eq!(process_isignal_init_value(&s, &mut bits), Ok(()));
    assert_eq!(bits, vec![false, false, false, true, true, false, false, false]);
    let failing = signal(0, 1, false, InitValues::Single(2));
    let before = bits.clone();
    assert_eq!(process_isignal_init_value(&failing, &mut bits), Err(InitValueError::BitCountMismatch));
    assert_eq!(bits, before);
}

#[test]
fn byte_orders_reverse_the_bits_of_each_byte() {
    let signals = vec![
        signal(0, 8, false, InitValues::Single(0x35)),
        signal(8, 16, true, InitValues::Array(vec![0x81, 0x0F])),
        signal(24, 4, false, InitValues::Single(9)),
    ];
    let big = extract_init_values(true, &signals, &vec![], 4, &true).unwrap();
    let little = extract_init_values(true, &signals, &vec![], 4, &false).unwrap();
    assert_eq!(big.len(), little.len());
    for (b, l) in big.iter().zip(little.iter()) {
        assert_eq!(*l, b.reverse_bits());
    }
}

#[test]
fn byte_orders_fail_alike() {
    let signals = vec![signal(0, 4, false, InitValues::Array(vec![1]))];
    let big = extract_init_values(false, &signals, &vec![], 1, &true);
    let little = extract_init_values(false, &signals, &vec![], 1, &false);
    assert_eq!(big, Err(InitValueError::ArrayLengthNotByteMultiple { length: 4 }));
    assert_eq!(big, little);
}
