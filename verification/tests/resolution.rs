use bufr_decoder::{
    resolve_descriptors, DataDescriptionSection, DataDescriptionSectionFlags, DataEvent,
    DataReader, DataSpec, Descriptor, ErrorKind, ResolvedDescriptor, TableBEntry, TableDEntry,
    Tables, Value, XY,
};

fn element(x: u8, y: u8, bits: u16) -> TableBEntry {
    TableBEntry {
        xy: XY { x, y },
        description: format!("element {} {}", x, y),
        unit: "Numeric".to_string(),
        scale: 0,
        reference_value: 0,
        bits,
    }
}

fn d(f: u8, x: u8, y: u8) -> Descriptor {
    Descriptor { f, x, y }
}

fn tables() -> Tables {
    let mut tables = Tables::new();
    tables.insert_b(element(1, 1, 8));
    tables.insert_b(element(1, 2, 8));
    tables.insert_b(element(31, 0, 1));
    tables.insert_b(element(31, 1, 8));
    tables.insert_b(element(31, 2, 16));
    tables.insert_d(TableDEntry { xy: XY { x: 1, y: 1 }, elements: vec![d(0, 1, 1), d(0, 1, 2)] });
    tables.insert_d(TableDEntry { xy: XY { x: 1, y: 2 }, elements: vec![d(3, 1, 1), d(2, 2, 129)] });
    tables.insert_d(TableDEntry { xy: XY { x: 9, y: 9 }, elements: vec![d(0, 1, 1), d(3, 9, 9)] });
    tables.insert_d(TableDEntry { xy: XY { x: 9, y: 8 }, elements: vec![d(0, 60, 60)] });
    tables
}

#[test]
fn table_key_is_x_then_y() {
    assert_eq!(XY { x: 0, y: 0 }.code(), 0);
    assert_eq!(XY { x: 1, y: 2 }.code(), 258);
    assert_eq!(XY { x: 63, y: 255 }.code(), 16383);
    assert_eq!(XY { x: 255, y: 255 }.code(), 65535);
    assert_eq!(d(3, 1, 2).xy(), XY { x: 1, y: 2 });
}

#[test]
fn tables_find_what_was_filed() {
    let mut tables = tables();
    assert_eq!(tables.lookup_b(XY { x: 1, y: 2 }).unwrap().xy, XY { x: 1, y: 2 });
    assert!(tables.lookup_b(XY { x: 2, y: 1 }).is_none());
    assert_eq!(tables.lookup_d(XY { x: 1, y: 1 }).unwrap().elements.len(), 2);
    assert!(tables.lookup_d(XY { x: 31, y: 1 }).is_none());
    tables.insert_b(element(1, 2, 12));
    assert_eq!(tables.lookup_b(XY { x: 1, y: 2 }).unwrap().bits, 12);
    assert_eq!(tables.table_b.len(), 5);
}

#[test]
fn elements_and_operators_resolve_one_to_one() {
    let tables = tables();
    let resolved = resolve_descriptors(&tables, &[d(0, 1, 1), d(2, 2, 129), d(0, 1, 2)]).unwrap();
    assert_eq!(
        resolved,
        vec![
            ResolvedDescriptor::Data(tables.lookup_b(XY { x: 1, y: 1 }).unwrap()),
            ResolvedDescriptor::Operator(XY { x: 2, y: 129 }),
            ResolvedDescriptor::Data(tables.lookup_b(XY { x: 1, y: 2 }).unwrap()),
        ]
    );
    assert_eq!(resolve_descriptors(&tables, &[]).unwrap(), vec![]);
}

#[test]
fn sequences_resolve_their_elements() {
    let tables = tables();
    let b1 = tables.lookup_b(XY { x: 1, y: 1 }).unwrap();
    let b2 = tables.lookup_b(XY { x: 1, y: 2 }).unwrap();
    let d1 = tables.lookup_d(XY { x: 1, y: 1 }).unwrap();
    let d2 = tables.lookup_d(XY { x: 1, y: 2 }).unwrap();
    let resolved = resolve_descriptors(&tables, &[d(3, 1, 2)]).unwrap();
    assert_eq!(
        resolved,
        vec![ResolvedDescriptor::Sequence(
            d2,
            vec![
                ResolvedDescriptor::Sequence(
                    d1,
                    vec![ResolvedDescriptor::Data(b1), ResolvedDescriptor::Data(b2)]
                ),
                ResolvedDescriptor::Operator(XY { x: 2, y: 129 }),
            ]
        )]
    );
}

#[test]
fn replication_takes_the_descriptors_behind_it() {
    let tables = tables();
    let b1 = tables.lookup_b(XY { x: 1, y: 1 }).unwrap();
    let b2 = tables.lookup_b(XY { x: 1, y: 2 }).unwrap();
    let resolved =
        resolve_descriptors(&tables, &[d(1, 0, 2), d(0, 1, 1), d(0, 1, 2), d(0, 1, 1)]).unwrap();
    assert_eq!(
        resolved,
        vec![
            ResolvedDescriptor::Replication {
                y: 2,
                descriptors: vec![ResolvedDescriptor::Data(b1), ResolvedDescriptor::Data(b2)],
                delayed_bits: 0,
            },
            ResolvedDescriptor::Data(b1),
        ]
    );
}

#[test]
fn delayed_replication_takes_its_width_from_the_next_descriptor() {
    let tables = tables();
    for (y, width) in [(0u8, 1u8), (1, 8), (2, 16)] {
        let resolved = resolve_descriptors(&tables, &[d(1, 1, 0), d(0, 31, y)]).unwrap();
        assert_eq!(
            resolved,
            vec![
                ResolvedDescriptor::Replication { y: 0, descriptors: vec![], delayed_bits: width },
                ResolvedDescriptor::Data(tables.lookup_b(XY { x: 31, y }).unwrap()),
            ]
        );
    }
    let mut more = tables;
    more.insert_b(element(31, 11, 8));
    more.insert_b(element(31, 12, 16));
    for (y, width) in [(11u8, 8u8), (12, 16)] {
        let resolved = resolve_descriptors(&more, &[d(1, 1, 0), d(0, 31, y)]).unwrap();
        assert_eq!(
            resolved[0],
            ResolvedDescriptor::Replication { y: 0, descriptors: vec![], delayed_bits: width }
        );
    }
}

#[test]
fn delayed_replication_keeps_its_count_descriptor_in_the_list() {
    let tables = tables();
    let dds = DataDescriptionSection {
        section_length: 13,
        number_of_subsets: 1,
        flags: DataDescriptionSectionFlags { is_observed_data: true, is_compressed: false },
        descriptors: vec![d(1, 1, 0), d(0, 31, 1), d(0, 1, 1)],
        _padding: vec![],
    };
    let spec = DataSpec::from_data_description(&dds, &tables).unwrap();
    assert_eq!(spec.number_of_subsets, 1);
    assert!(!spec.is_compressed);
    assert_eq!(
        spec.root_descriptors,
        vec![
            ResolvedDescriptor::Replication { y: 0, descriptors: vec![], delayed_bits: 8 },
            ResolvedDescriptor::Data(tables.lookup_b(XY { x: 31, y: 1 }).unwrap()),
            ResolvedDescriptor::Data(tables.lookup_b(XY { x: 1, y: 1 }).unwrap()),
        ]
    );
    let data = [0, 0, 8, 0, 3, 7, 8, 9];
    let mut reader = DataReader::new(&data, &spec).unwrap();
    let mut events = Vec::new();
    for _ in 0..13 {
        events.push(reader.read_event().unwrap());
    }
    assert_eq!(
        events,
        vec![
            DataEvent::SubsetStart(0),
            DataEvent::ReplicationStart { idx: 0, count: 3 },
            DataEvent::ReplicationItemStart,
            DataEvent::ReplicationItemEnd,
            DataEvent::ReplicationItemStart,
            DataEvent::ReplicationItemEnd,
            DataEvent::ReplicationItemStart,
            DataEvent::ReplicationItemEnd,
            DataEvent::ReplicationEnd,
            DataEvent::Data { idx: 1, xy: XY { x: 31, y: 1 }, value: Value::Integer(7) },
            DataEvent::Data { idx: 2, xy: XY { x: 1, y: 1 }, value: Value::Integer(8) },
            DataEvent::SubsetEnd,
            DataEvent::Eof,
        ]
    );
}

#[test]
fn what_cannot_be_resolved_is_fatal() {
    let tables = tables();
    let cases: Vec<Vec<Descriptor>> = vec![
        // no Table B entry
        vec![d(0, 2, 2)],
        // no Table D entry
        vec![d(3, 2, 2)],
        // F above 3
        vec![d(4, 1, 1)],
        // block runs past the end
        vec![d(1, 0, 2), d(0, 1, 1)],
        // delayed replication at the end of the list
        vec![d(1, 1, 0)],
        // delayed replication before something that is no count
        vec![d(1, 1, 0), d(0, 1, 1)],
        // a sequence that contains itself
        vec![d(3, 9, 9)],
        // a sequence with an element that is in no table
        vec![d(3, 9, 8)],
        // a block with an element that is in no table
        vec![d(1, 0, 1), d(0, 2, 2)],
    ];
    for case in cases {
        let err = resolve_descriptors(&tables, &case).unwrap_err();
        assert_eq!(err.kind(), ErrorKind::Fatal, "{:?}", case);
    }
    let dds = DataDescriptionSection {
        section_length: 9,
        number_of_subsets: 1,
        flags: DataDescriptionSectionFlags::default(),
        descriptors: vec![d(0, 2, 2)],
        _padding: vec![],
    };
    assert_eq!(DataSpec::from_data_description(&dds, &tables).unwrap_err().kind(), ErrorKind::Fatal);
}

#[test]
fn one_descriptor_alone() {
    let tables = tables();
    assert_eq!(
        ResolvedDescriptor::from_descriptor(&d(0, 1, 1), &tables).unwrap(),
        ResolvedDescriptor::Data(tables.lookup_b(XY { x: 1, y: 1 }).unwrap())
    );
    assert_eq!(
        ResolvedDescriptor::from_descriptor(&d(2, 6, 12), &tables).unwrap(),
        ResolvedDescriptor::Operator(XY { x: 6, y: 12 })
    );
    match ResolvedDescriptor::from_descriptor(&d(3, 1, 1), &tables).unwrap() {
        ResolvedDescriptor::Sequence(entry, elements) => {
            assert_eq!(entry.xy, XY { x: 1, y: 1 });
            assert_eq!(elements.len(), 2);
        }
        other => panic!("unexpected node {:?}", other),
    }
    for alone in [d(0, 2, 2), d(3, 2, 2), d(1, 1, 0), d(1, 1, 2), d(7, 0, 0)] {
        let err = ResolvedDescriptor::from_descriptor(&alone, &tables).unwrap_err();
        assert_eq!(err.kind(), ErrorKind::Fatal);
    }
}

#[test]
fn compression_flag_is_carried_over() {
    let tables = tables();
    let dds = DataDescriptionSection {
        section_length: 9,
        number_of_subsets: 7,
        flags: DataDescriptionSectionFlags { is_observed_data: false, is_compressed: true },
        descriptors: vec![d(0, 1, 1)],
        _padding: vec![],
    };
    let spec = DataSpec::from_data_description(&dds, &tables).unwrap();
    assert_eq!(spec.number_of_subsets, 7);
    assert!(spec.is_compressed);
    assert_eq!(spec.root_descriptors.len(), 1);
}

#[test]
fn descriptor_text() {
    assert_eq!(d(3, 1, 11).to_text(), "Descriptor 301011");
    assert_eq!(d(0, 0, 0).to_text(), "Descriptor 000000");
    assert_eq!(d(1, 63, 255).to_text(), "Descriptor 163255");
}

#[test]
fn descriptor_from_its_word() {
    assert_eq!(Descriptor::from_word(0x0000), d(0, 0, 0));
    assert_eq!(Descriptor::from_word(0xC10B), d(3, 1, 11));
    assert_eq!(Descriptor::from_word(0x4100), d(1, 1, 0));
    assert_eq!(Descriptor::from_word(0x1F01), d(0, 31, 1));
    assert_eq!(Descriptor::from_word(0xFFFF), d(3, 63, 255));
    assert_eq!(Descriptor::from_word(0x8281), d(2, 2, 129));
}

#[test]
fn sequences_nest_as_deep_as_the_table_goes() {
    // sequence k holds sequence k + 1; the last holds one element
    let mut tables = Tables::new();
    tables.insert_b(element(1, 1, 8));
    for k in 0..200u8 {
        tables.insert_d(TableDEntry { xy: XY { x: 2, y: k }, elements: vec![d(3, 2, k + 1)] });
    }
    tables.insert_d(TableDEntry { xy: XY { x: 2, y: 200 }, elements: vec![d(0, 1, 1)] });
    let resolved = resolve_descriptors(&tables, &[d(3, 2, 0)]).unwrap();
    assert_eq!(resolved.len(), 1);
    let mut depth = 0;
    let mut node = &resolved[0];
    while let ResolvedDescriptor::Sequence(entry, elements) = node {
        assert_eq!(entry.xy, XY { x: 2, y: depth as u8 });
        assert_eq!(elements.len(), 1);
        depth += 1;
        node = &elements[0];
    }
    assert_eq!(depth, 201);
    assert_eq!(*node, ResolvedDescriptor::Data(tables.lookup_b(XY { x: 1, y: 1 }).unwrap()));
    match ResolvedDescriptor::from_descriptor(&d(3, 2, 100), &tables).unwrap() {
        ResolvedDescriptor::Sequence(entry, elements) => {
            assert_eq!(entry.xy, XY { x: 2, y: 100 });
            assert_eq!(elements.len(), 1);
        }
        other => panic!("unexpected node {:?}", other),
    }
}

#[test]
fn a_sequence_may_stand_twice_but_not_inside_itself() {
    let mut tables = tables();
    // twice side by side, and once more inside a block and inside another sequence
    tables.insert_d(TableDEntry {
        xy: XY { x: 5, y: 1 },
        elements: vec![d(3, 1, 1), d(3, 1, 1), d(1, 0, 1), d(3, 1, 1), d(3, 1, 2)],
    });
    let resolved = resolve_descriptors(&tables, &[d(3, 5, 1), d(3, 5, 1)]).unwrap();
    assert_eq!(resolved.len(), 2);
    assert_eq!(resolved[0], resolved[1]);
    match &resolved[0] {
        ResolvedDescriptor::Sequence(entry, elements) => {
            assert_eq!(entry.xy, XY { x: 5, y: 1 });
            assert_eq!(elements.len(), 4);
            assert_eq!(elements[0], elements[1]);
            assert!(matches!(&elements[2], ResolvedDescriptor::Replication { y: 1, descriptors, .. }
                if descriptors.len() == 1 && descriptors[0] == elements[0]));
            assert!(matches!(&elements[3], ResolvedDescriptor::Sequence(inner, _) if inner.xy == XY { x: 1, y: 2 }));
        }
        other => panic!("unexpected node {:?}", other),
    }
    // a cycle of two, and a cycle through the block of a replication
    tables.insert_d(TableDEntry { xy: XY { x: 6, y: 1 }, elements: vec![d(0, 1, 1), d(3, 6, 2)] });
    tables.insert_d(TableDEntry { xy: XY { x: 6, y: 2 }, elements: vec![d(3, 6, 1)] });
    tables.insert_d(TableDEntry { xy: XY { x: 6, y: 3 }, elements: vec![d(1, 0, 1), d(3, 6, 3)] });
    for start in [d(3, 6, 1), d(3, 6, 2), d(3, 6, 3), d(3, 9, 9)] {
        let err = resolve_descriptors(&tables, &[d(0, 1, 1), start]).unwrap_err();
        assert_eq!(err.kind(), ErrorKind::Fatal);
        let err = ResolvedDescriptor::from_descriptor(&start, &tables).unwrap_err();
        assert_eq!(err.kind(), ErrorKind::Fatal);
    }
    // the cycle does not stand in the way of what does not reach it
    assert!(resolve_descriptors(&tables, &[d(3, 5, 1), d(3, 1, 2)]).is_ok());
}

#[test]
fn missing_entries_are_named_in_the_message() {
    let tables = tables();
    assert_eq!(
        resolve_descriptors(&tables, &[d(0, 2, 2)]).unwrap_err().to_text(),
        "Fatal error: Table B entry not found for xy: XY { x: 2, y: 2 }"
    );
    assert_eq!(
        resolve_descriptors(&tables, &[d(3, 63, 255)]).unwrap_err().to_text(),
        "Fatal error: Table D entry not found for xy: XY { x: 63, y: 255 }"
    );
    assert_eq!(
        resolve_descriptors(&tables, &[d(4, 0, 10)]).unwrap_err().to_text(),
        "Fatal error: Table B entry not found for xy: XY { x: 0, y: 10 }"
    );
}
