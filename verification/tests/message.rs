use bufr_decoder::{
    ensure_end_section, DataEvent, DataReader, DataSectionHeader, DataSpec, Descriptor,
    HeaderSections, ResolvedDescriptor, TableBEntry, TableDEntry, Tables, Value, XY,
};

fn element(x: u8, y: u8, scale: i8, reference_value: i32, bits: u16) -> TableBEntry {
    TableBEntry {
        xy: XY { x, y },
        description: String::new(),
        unit: String::new(),
        scale,
        reference_value,
        bits,
    }
}

fn tables() -> Tables {
    let mut tables = Tables::new();
    tables.insert_b(element(1, 1, 0, 0, 7));
    tables.insert_b(element(12, 101, 2, 0, 16));
    tables.insert_b(element(31, 1, 0, 0, 8));
    tables.insert_d(TableDEntry {
        xy: XY { x: 1, y: 1 },
        elements: vec![Descriptor { f: 0, x: 1, y: 1 }, Descriptor { f: 0, x: 12, y: 101 }],
    });
    tables
}

/// What is open after the events, by the rule that every end closes the
/// innermost thing open; an event out of place makes the test fail.
fn open_after(events: &[DataEvent]) -> Vec<&'static str> {
    let mut open: Vec<(&'static str, u16)> = Vec::new();
    for event in events {
        match event {
            DataEvent::SubsetStart(_) => {
                assert!(open.is_empty());
                open.push(("subset", 0));
            }
            DataEvent::CompressedStart => {
                assert!(open.is_empty());
                open.push(("compressed", 0));
            }
            DataEvent::SubsetEnd => assert_eq!(open.pop(), Some(("subset", 0))),
            DataEvent::Eof => {
                if matches!(open.last(), Some(("compressed", 0))) {
                    open.pop();
                }
                assert!(open.is_empty());
            }
            DataEvent::SequenceStart { .. } => {
                assert!(!open.is_empty() && open.last().unwrap().0 != "replication");
                open.push(("sequence", 0));
            }
            DataEvent::SequenceEnd => assert_eq!(open.pop(), Some(("sequence", 0))),
            DataEvent::ReplicationStart { count, .. } => {
                assert!(!open.is_empty() && open.last().unwrap().0 != "replication");
                open.push(("replication", *count));
            }
            DataEvent::ReplicationItemStart => {
                let (kind, remaining) = open.pop().unwrap();
                assert_eq!(kind, "replication");
                assert!(remaining > 0);
                open.push(("replication", remaining - 1));
                open.push(("item", 0));
            }
            DataEvent::ReplicationItemEnd => assert_eq!(open.pop(), Some(("item", 0))),
            DataEvent::ReplicationEnd => assert_eq!(open.pop(), Some(("replication", 0))),
            DataEvent::Data { .. } | DataEvent::CompressedData { .. } | DataEvent::OperatorHandled { .. } => {
                assert!(!open.is_empty() && open.last().unwrap().0 != "replication");
            }
        }
    }
    open.into_iter().map(|(kind, _)| kind).collect()
}

fn count(events: &[DataEvent], wanted: fn(&DataEvent) -> bool) -> usize {
    events.iter().filter(|e| wanted(e)).count()
}

#[test]
fn whole_message_of_edition_four() {
    let tables = tables();
    let mut message = b"BUFR".to_vec();
    message.extend_from_slice(&[0, 0, 0, 4]);
    // identification section, no optional section
    message.extend_from_slice(&[0, 0, 22, 0, 0, 74, 0, 0, 0, 0, 2, 4, 0, 40, 0, 0x07, 0xE8, 1, 2, 3, 4, 5]);
    // data description section: two subsets, uncompressed, 3 01 001 and 0 01 001
    message.extend_from_slice(&[0, 0, 11, 0, 0, 2, 0x80, 0xC1, 0x01, 0x01, 0x01]);
    let data_start = message.len();
    // data section: per subset 7 + 16 + 7 = 30 bits; 60 bits in 8 octets
    // subset 0: 5, 1234, 9; subset 1: 127 (missing), 65535 (missing), 0
    //   0000101 0000010011010010 0001001 1111111 1111111111111111 0000000 0000
    message.extend_from_slice(&[0, 0, 12, 0]);
    message.extend_from_slice(&[
        0b0000_1010, 0b0000_1001, 0b1010_0100, 0b0010_0111, 0b1111_1111, 0b1111_1111, 0b1111_1000,
        0b0000_0000,
    ]);
    let end_start = message.len();
    message.extend_from_slice(b"7777");
    let total = message.len() as u32;
    message[4..7].copy_from_slice(&total.to_be_bytes()[1..]);

    let (header, next) = HeaderSections::read(&message).unwrap();
    assert_eq!(next, data_start);
    assert_eq!(header.indicator_section.total_length, total);
    assert_eq!(header.indicator_section.edition_number, 4);
    let spec = DataSpec::from_data_description(&header.data_description_section, &tables).unwrap();
    assert_eq!(spec.number_of_subsets, 2);

    let section = &message[data_start..];
    let section_header = DataSectionHeader::read(section).unwrap();
    assert_eq!(data_start + section_header.section_length as usize, end_start);
    let mut reader = DataReader::new(section, &spec).unwrap();
    let mut events = Vec::new();
    loop {
        let event = reader.read_event().unwrap();
        let done = event == DataEvent::Eof;
        events.push(event);
        if done {
            break;
        }
    }
    let xy_seq = XY { x: 1, y: 1 };
    let xy_t = XY { x: 12, y: 101 };
    assert_eq!(
        events,
        vec![
            DataEvent::SubsetStart(0),
            DataEvent::SequenceStart { idx: 0, xy: xy_seq },
            DataEvent::Data { idx: 0, xy: xy_seq, value: Value::Integer(5) },
            DataEvent::Data { idx: 1, xy: xy_t, value: Value::Decimal(1234, -2) },
            DataEvent::SequenceEnd,
            DataEvent::Data { idx: 1, xy: xy_seq, value: Value::Integer(9) },
            DataEvent::SubsetEnd,
            DataEvent::SubsetStart(1),
            DataEvent::SequenceStart { idx: 0, xy: xy_seq },
            DataEvent::Data { idx: 0, xy: xy_seq, value: Value::Missing },
            DataEvent::Data { idx: 1, xy: xy_t, value: Value::Missing },
            DataEvent::SequenceEnd,
            DataEvent::Data { idx: 1, xy: xy_seq, value: Value::Integer(0) },
            DataEvent::SubsetEnd,
            DataEvent::Eof,
        ]
    );
    assert!(open_after(&events).is_empty());
    assert!(ensure_end_section(header.indicator_section.edition_number, &message[end_start..]).is_ok());
}

#[test]
fn events_nest_and_balance() {
    let a = element(1, 1, 0, 0, 8);
    let seq = TableDEntry { xy: XY { x: 1, y: 1 }, elements: vec![] };
    let inner = ResolvedDescriptor::Replication {
        y: 0,
        descriptors: vec![ResolvedDescriptor::Data(&a)],
        delayed_bits: 8,
    };
    let spec = DataSpec {
        number_of_subsets: 3,
        is_compressed: false,
        root_descriptors: vec![
            ResolvedDescriptor::Operator(XY { x: 2, y: 129 }),
            ResolvedDescriptor::Replication {
                y: 2,
                descriptors: vec![
                    ResolvedDescriptor::Sequence(&seq, vec![ResolvedDescriptor::Data(&a), inner]),
                    ResolvedDescriptor::Data(&a),
                ],
                delayed_bits: 0,
            },
            ResolvedDescriptor::Sequence(&seq, vec![]),
        ],
    };
    // per subset, per outer iteration: element, count n, n elements, element
    let mut data = vec![0, 0, 0, 0];
    let mut announced = 0usize;
    for subset in 0..3u8 {
        for iteration in 0..2u8 {
            let n = (subset + 2 * iteration) % 4;
            announced += n as usize;
            data.push(1);
            data.push(n);
            for k in 0..n {
                data.push(10 + k);
            }
            data.push(2);
        }
    }
    announced += 3 * 2;
    let mut reader = DataReader::new(&data, &spec).unwrap();
    let mut events = Vec::new();
    loop {
        let event = reader.read_event().unwrap();
        // after every event the run so far is in order
        events.push(event);
        let open = open_after(&events);
        if events.last() == Some(&DataEvent::Eof) {
            assert!(open.is_empty());
            break;
        }
        assert!(events.len() < 1000);
    }
    let starts = count(&events, |e| matches!(e, DataEvent::SubsetStart(_)));
    let ends = count(&events, |e| matches!(e, DataEvent::SubsetEnd));
    assert_eq!((starts, ends), (3, 3));
    let starts = count(&events, |e| matches!(e, DataEvent::SequenceStart { .. }));
    let ends = count(&events, |e| matches!(e, DataEvent::SequenceEnd));
    assert_eq!((starts, ends), (9, 9));
    let starts = count(&events, |e| matches!(e, DataEvent::ReplicationStart { .. }));
    let ends = count(&events, |e| matches!(e, DataEvent::ReplicationEnd));
    assert_eq!((starts, ends), (9, 9));
    let starts = count(&events, |e| matches!(e, DataEvent::ReplicationItemStart));
    let ends = count(&events, |e| matches!(e, DataEvent::ReplicationItemEnd));
    assert_eq!((starts, ends), (announced, announced));
    assert_eq!(reader.read_event().unwrap(), DataEvent::Eof);
}

#[test]
fn compressed_events_nest() {
    let a = element(1, 1, 0, 0, 8);
    let seq = TableDEntry { xy: XY { x: 1, y: 1 }, elements: vec![] };
    let spec = DataSpec {
        number_of_subsets: 2,
        is_compressed: true,
        root_descriptors: vec![
            ResolvedDescriptor::Sequence(&seq, vec![ResolvedDescriptor::Data(&a)]),
            ResolvedDescriptor::Replication {
                y: 1,
                descriptors: vec![ResolvedDescriptor::Data(&a)],
                delayed_bits: 0,
            },
        ],
    };
    // two elements: 8 bits + 6 bits of zero each, 28 bits
    let data = [0, 0, 0, 0, 0x07, 0x00, 0x20, 0x00];
    let mut reader = DataReader::new(&data, &spec).unwrap();
    let mut events = Vec::new();
    loop {
        events.push(reader.read_event().unwrap());
        open_after(&events);
        if events.last() == Some(&DataEvent::Eof) {
            break;
        }
    }
    let xy = XY { x: 1, y: 1 };
    assert_eq!(
        events,
        vec![
            DataEvent::CompressedStart,
            DataEvent::SequenceStart { idx: 0, xy },
            DataEvent::CompressedData { idx: 0, xy, values: vec![Value::Integer(7), Value::Integer(7)] },
            DataEvent::SequenceEnd,
            DataEvent::ReplicationStart { idx: 1, count: 1 },
            DataEvent::ReplicationItemStart,
            DataEvent::CompressedData { idx: 0, xy, values: vec![Value::Integer(8), Value::Integer(8)] },
            DataEvent::ReplicationItemEnd,
            DataEvent::ReplicationEnd,
            DataEvent::Eof,
        ]
    );
}
