use bufr_decoder::bits::BitSource;
use bufr_decoder::stack::{StackEntry, StackEntryType};
use bufr_decoder::text::{decimal_text, text_with_number};
use bufr_decoder::{ErrorKind, ResolvedDescriptor, Value, XY};

#[test]
fn bits_come_most_significant_first() {
    let data = [0b1011_0111u8];
    let mut source = BitSource::new(&data);
    assert_eq!(source.read(1, 32).unwrap(), 0b1);
    assert_eq!(source.read(2, 32).unwrap(), 0b01);
    assert_eq!(source.read(5, 32).unwrap(), 0b10111);
    assert_eq!(source.read(1, 32).unwrap_err().kind(), ErrorKind::Io);
}

#[test]
fn reads_cross_octet_boundaries() {
    let data = [0x12u8, 0x34, 0x56, 0x78, 0x9A, 0xBC];
    let mut source = BitSource::new(&data);
    assert_eq!(source.read(4, 32).unwrap(), 0x1);
    assert_eq!(source.read(32, 32).unwrap(), 0x2345_6789);
    assert_eq!(source.read(12, 32).unwrap(), 0xABC);
    assert_eq!(source.read(0, 32).unwrap(), 0);
    assert_eq!(source.read(1, 32).unwrap_err().kind(), ErrorKind::Io);
}

#[test]
fn reading_nothing_takes_nothing() {
    let data = [0xA5u8];
    let mut source = BitSource::new(&data);
    assert_eq!(source.read(0, 32).unwrap(), 0);
    assert_eq!(source.read(3, 32).unwrap(), 0b101);
    assert_eq!(source.read(0, 0).unwrap(), 0);
    assert_eq!(source.read(5, 32).unwrap(), 0b00101);
    let empty: [u8; 0] = [];
    let mut source = BitSource::new(&empty);
    assert_eq!(source.read(0, 32).unwrap(), 0);
    assert_eq!(source.read_octets(0).unwrap(), Vec::<u8>::new());
}

#[test]
fn more_bits_than_the_limit_is_an_io_error() {
    let data = [0u8; 16];
    let mut source = BitSource::new(&data);
    assert_eq!(source.read(33, 32).unwrap_err().kind(), ErrorKind::Io);
    assert_eq!(source.read(17, 16).unwrap_err().kind(), ErrorKind::Io);
    assert_eq!(source.read(9, 8).unwrap_err().kind(), ErrorKind::Io);
    assert_eq!(source.read(16, 16).unwrap(), 0);
}

#[test]
fn octets_aligned_and_not() {
    let data = [0x48u8, 0x69, 0x21, 0xF0];
    let mut source = BitSource::new(&data);
    assert_eq!(source.read_octets(2).unwrap(), vec![0x48, 0x69]);
    assert_eq!(source.read(4, 32).unwrap(), 0x2);
    assert_eq!(source.read_octets(1).unwrap(), vec![0x1F]);
    assert_eq!(source.read_octets(1).unwrap_err().kind(), ErrorKind::Io);
}

#[test]
fn new_frames() {
    let nodes = vec![
        ResolvedDescriptor::Operator(XY { x: 2, y: 0 }),
        ResolvedDescriptor::Operator(XY { x: 2, y: 1 }),
    ];
    let frame = StackEntry::new_sequence(&nodes);
    assert_eq!(frame.next, 0);
    assert_eq!(frame.entry_type, StackEntryType::Sequence);
    assert_eq!(frame.descriptors.len(), 2);
    let frame = StackEntry::new_replication(&nodes, 5);
    assert_eq!(frame.next, 2);
    assert_eq!(frame.entry_type, StackEntryType::Replication { remaining: 5, in_item: false });
    assert_eq!(frame.descriptors.len(), 2);
}

#[test]
fn decimal_texts() {
    assert_eq!(decimal_text(0), "0");
    assert_eq!(decimal_text(7), "7");
    assert_eq!(decimal_text(10), "10");
    assert_eq!(decimal_text(-1), "-1");
    assert_eq!(decimal_text(i64::MAX), "9223372036854775807");
    assert_eq!(decimal_text(i64::MIN), "-9223372036854775808");
    assert_eq!(text_with_number("Unsupported bit width ", 33), "Unsupported bit width 33");
}

#[test]
fn values_as_text() {
    assert_eq!(Value::Integer(0).to_text(), "0");
    assert_eq!(Value::Integer(-42).to_text(), "-42");
    assert_eq!(Value::Integer(i32::MIN).to_text(), "-2147483648");
    assert_eq!(Value::Integer(i32::MAX).to_text(), "2147483647");
    assert_eq!(Value::Decimal(0, 0).to_text(), "0");
    assert_eq!(Value::Decimal(0, 3).to_text(), "0");
    assert_eq!(Value::Decimal(0, -2).to_text(), "0.00");
    assert_eq!(Value::Decimal(5, -2).to_text(), "0.05");
    assert_eq!(Value::Decimal(-5, -2).to_text(), "-0.05");
    assert_eq!(Value::Decimal(-5, -1).to_text(), "-0.5");
    assert_eq!(Value::Decimal(12, -2).to_text(), "0.12");
    assert_eq!(Value::Decimal(123, -2).to_text(), "1.23");
    assert_eq!(Value::Decimal(-1234, -2).to_text(), "-12.34");
    assert_eq!(Value::Decimal(-1234, 1).to_text(), "-12340");
    assert_eq!(Value::Decimal(7, 0).to_text(), "7");
    assert_eq!(Value::Decimal(i32::MIN, -10).to_text(), "-0.2147483648");
    assert_eq!(Value::Decimal(i32::MIN, -9).to_text(), "-2.147483648");
    assert_eq!(Value::Decimal(1, -128).to_text(), format!("0.{}1", "0".repeat(127)));
    assert_eq!(Value::Decimal(1, 127).to_text(), format!("1{}", "0".repeat(127)));
    assert_eq!(Value::String(String::new()).to_text(), "\"\"");
}

#[test]
fn numeric_values() {
    // missing exactly when every bit is set
    for width in 0u32..=32 {
        let ones = (1u64 << width) - 1;
        assert_eq!(Value::numeric(ones, width, 5, 1, 0), Value::Missing);
        if ones > 0 {
            assert_ne!(Value::numeric(ones - 1, width, 5, 1, 0), Value::Missing);
        }
    }
    // integer exactly when the scales cancel
    assert_eq!(Value::numeric(3, 8, 10, 2, -2), Value::Integer(13));
    assert_eq!(Value::numeric(3, 8, 10, 0, 0), Value::Integer(13));
    assert_eq!(Value::numeric(3, 8, 10, 2, -1), Value::Decimal(13, -1));
    assert_eq!(Value::numeric(3, 8, -10, -1, 0), Value::Decimal(-7, 1));
    // the sum is narrowed to 32 bits
    assert_eq!(Value::numeric(0xFFFF_FFFE, 32, 3, 0, 0), Value::Integer(1));
    assert_eq!(Value::numeric(0x7FFF_FFFF, 32, 1, 0, 0), Value::Integer(i32::MIN));
    assert_eq!(Value::numeric(0, 32, i32::MIN, 0, 0), Value::Integer(i32::MIN));
    assert_eq!(Value::numeric(0x1_0000_0005, 32, 0, 0, 0), Value::Integer(5));
    // the negated scale is narrowed to 8 bits
    assert_eq!(Value::numeric(1, 8, 0, -128, 0), Value::Decimal(1, -128));
    assert_eq!(Value::numeric(1, 8, 0, -128, -127), Value::Decimal(1, -1));
    assert_eq!(Value::numeric(1, 8, 0, 127, 127), Value::Decimal(1, 2));
    assert_eq!(Value::numeric(1, 8, 0, 127, 0), Value::Decimal(1, -127));
}

#[test]
fn text_values() {
    assert_eq!(Value::text(b"abc".to_vec()), Some(Value::String("abc".to_string())));
    assert_eq!(Value::text(vec![0xE2, 0x82, 0xAC]), Some(Value::String("\u{20AC}".to_string())));
    assert_eq!(Value::text(vec![]), Some(Value::String(String::new())));
    assert_eq!(Value::text(vec![0xFF]), None);
    assert_eq!(Value::text(vec![0xE2, 0x82]), None);
}
