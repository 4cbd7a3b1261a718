use bufr_decoder::{
    ensure_end_section, DataDescriptionSection, DataDescriptionSectionFlags, DataSectionHeader,
    Descriptor, EndSection, ErrorKind, HeaderSections, IdentificationSection,
    IdentificationSectionFlags, IdentificationSectionV3, IndicatorSection, OptionalSection,
};
use bufr_decoder::sections::three_bytes_to_u32;

fn identification_v4(flags: u8, local_use: &[u8]) -> Vec<u8> {
    let mut out = vec![0, 0, (22 + local_use.len()) as u8];
    out.extend_from_slice(&[0, 0, 74, 0, 3, 1, flags, 2, 4, 5, 40, 1, 0x07, 0xE8, 2, 29, 23, 59, 58]);
    out.extend_from_slice(local_use);
    out
}

fn identification_v3(flags: u8, local_use: &[u8]) -> Vec<u8> {
    let mut out = vec![0, 0, (17 + local_use.len()) as u8];
    out.extend_from_slice(&[0, 3, 74, 1, flags, 2, 4, 19, 1, 99, 12, 31, 23, 59]);
    out.extend_from_slice(local_use);
    out
}

fn description(words: &[u16], flags: u8, padding: bool) -> Vec<u8> {
    let length = 7 + 2 * words.len() + padding as usize;
    let mut out = vec![0, 0, length as u8, 0, 0x01, 0x02, flags];
    for w in words {
        out.extend_from_slice(&w.to_be_bytes());
    }
    if padding {
        out.push(0);
    }
    out
}

fn message(edition: u8, identification: &[u8], optional: Option<&[u8]>, description: &[u8]) -> Vec<u8> {
    let mut out = b"BUFR".to_vec();
    out.extend_from_slice(&[0x01, 0x02, 0x03, edition]);
    out.extend_from_slice(identification);
    if let Some(content) = optional {
        out.extend_from_slice(&[0, 0, (4 + content.len()) as u8, 0]);
        out.extend_from_slice(content);
    }
    out.extend_from_slice(description);
    out
}

#[test]
fn three_octets_big_endian() {
    assert_eq!(three_bytes_to_u32((0, 0, 0)), 0);
    assert_eq!(three_bytes_to_u32((1, 2, 3)), 0x010203);
    assert_eq!(three_bytes_to_u32((255, 255, 255)), 0xFF_FFFF);
}

#[test]
fn edition_four_without_optional_section() {
    let data = message(4, &identification_v4(0, &[9, 8]), None, &description(&[0xC10B, 0x0101], 0x80, false));
    let (sections, next) = HeaderSections::read(&data).unwrap();
    assert_eq!(next, data.len());
    assert_eq!(sections.indicator_section, IndicatorSection { total_length: 0x010203, edition_number: 4 });
    assert_eq!(
        sections.identification_section,
        IdentificationSection {
            section_length: 24,
            master_table_number: 0,
            centre: 74,
            sub_centre: 3,
            update_sequence_number: 1,
            flags: IdentificationSectionFlags { has_optional_section: false },
            data_category: 2,
            international_data_sub_category: 4,
            local_data_sub_category: 5,
            master_table_version: 40,
            local_tables_version: 1,
            typical_year: 2024,
            typical_month: 2,
            typical_day: 29,
            typical_hour: 23,
            typical_minute: 59,
            typical_second: 58,
            local_use: vec![9, 8],
        }
    );
    assert_eq!(sections.optional_section, None);
    assert_eq!(
        sections.data_description_section,
        DataDescriptionSection {
            section_length: 11,
            number_of_subsets: 0x0102,
            flags: DataDescriptionSectionFlags { is_observed_data: true, is_compressed: false },
            descriptors: vec![Descriptor { f: 3, x: 1, y: 11 }, Descriptor { f: 0, x: 1, y: 1 }],
            _padding: vec![],
        }
    );
}

#[test]
fn edition_four_with_optional_section_and_padding() {
    let mut data = message(
        4,
        &identification_v4(0x80, &[]),
        Some(&[1, 2, 3]),
        &description(&[0x0101], 0x40, true),
    );
    let header_length = data.len();
    data.extend_from_slice(&[0, 0, 5, 0, 42]);
    let (sections, next) = HeaderSections::read(&data).unwrap();
    assert_eq!(next, header_length);
    assert!(sections.identification_section.flags.has_optional_section);
    assert_eq!(
        sections.optional_section,
        Some(OptionalSection { section_length: 7, optional: vec![1, 2, 3] })
    );
    assert_eq!(
        sections.data_description_section.flags,
        DataDescriptionSectionFlags { is_observed_data: false, is_compressed: true }
    );
    assert_eq!(sections.data_description_section.descriptors, vec![Descriptor { f: 0, x: 1, y: 1 }]);
    assert_eq!(sections.data_description_section._padding, vec![0]);
    assert_eq!(sections.data_description_section.section_length, 10);
}

#[test]
fn edition_three_is_brought_into_the_layout_of_edition_four() {
    let data = message(3, &identification_v3(0, &[7]), None, &description(&[], 0xC0, false));
    let (sections, next) = HeaderSections::read(&data).unwrap();
    assert_eq!(next, data.len());
    assert_eq!(sections.indicator_section.edition_number, 3);
    assert_eq!(
        sections.identification_section,
        IdentificationSection {
            section_length: 18,
            master_table_number: 0,
            centre: 74,
            sub_centre: 3,
            update_sequence_number: 1,
            flags: IdentificationSectionFlags { has_optional_section: false },
            data_category: 2,
            international_data_sub_category: 4,
            local_data_sub_category: 0,
            master_table_version: 19,
            local_tables_version: 1,
            typical_year: 99,
            typical_month: 12,
            typical_day: 31,
            typical_hour: 23,
            typical_minute: 59,
            typical_second: 0,
            local_use: vec![7],
        }
    );
    assert_eq!(
        sections.data_description_section.flags,
        DataDescriptionSectionFlags { is_observed_data: true, is_compressed: true }
    );
    assert!(sections.data_description_section.descriptors.is_empty());
}

#[test]
fn edition_three_with_optional_section() {
    let data = message(3, &identification_v3(0x80, &[]), Some(&[]), &description(&[0x4100], 0, false));
    let (sections, _) = HeaderSections::read(&data).unwrap();
    assert_eq!(sections.optional_section, Some(OptionalSection { section_length: 4, optional: vec![] }));
    assert_eq!(sections.data_description_section.descriptors, vec![Descriptor { f: 1, x: 1, y: 0 }]);
}

#[test]
fn conversion_from_edition_three() {
    let v3 = IdentificationSectionV3 {
        section_length: 18,
        master_table_number: 1,
        sub_centre: 2,
        centre: 3,
        update_sequence_number: 4,
        flags: IdentificationSectionFlags { has_optional_section: true },
        data_category: 5,
        data_sub_category: 6,
        master_table_version: 7,
        local_tables_version: 8,
        typical_year: 9,
        typical_month: 10,
        typical_day: 11,
        typical_hour: 12,
        typical_minute: 13,
        local_use: vec![14],
    };
    let v4 = IdentificationSection::from(v3);
    assert_eq!(
        v4,
        IdentificationSection {
            section_length: 18,
            master_table_number: 1,
            centre: 3,
            sub_centre: 2,
            update_sequence_number: 4,
            flags: IdentificationSectionFlags { has_optional_section: true },
            data_category: 5,
            international_data_sub_category: 6,
            local_data_sub_category: 0,
            master_table_version: 7,
            local_tables_version: 8,
            typical_year: 9,
            typical_month: 10,
            typical_day: 11,
            typical_hour: 12,
            typical_minute: 13,
            typical_second: 0,
            local_use: vec![14],
        }
    );
}

#[test]
fn unsupported_edition_is_fatal() {
    for edition in [0u8, 1, 2, 5, 255] {
        let data = message(edition, &identification_v4(0, &[]), None, &description(&[], 0, false));
        let err = HeaderSections::read(&data).unwrap_err();
        assert_eq!(err.kind(), ErrorKind::Fatal);
    }
    let data = message(5, &identification_v4(0, &[]), None, &description(&[], 0, false));
    assert_eq!(HeaderSections::read(&data).unwrap_err().to_text(), "Fatal error: Unsupported edition number 5");
}

#[test]
fn broken_headers_are_io_errors() {
    let good = message(4, &identification_v4(0x80, &[1]), Some(&[2]), &description(&[0x0101], 0, true));
    assert!(HeaderSections::read(&good).is_ok());
    // every proper prefix ends too early
    for cut in 0..good.len() {
        let err = HeaderSections::read(&good[..cut]).unwrap_err();
        assert_eq!(err.kind(), ErrorKind::Io, "cut at {}", cut);
    }
    // bad magic
    let mut bad = good.clone();
    bad[3] = b'X';
    assert_eq!(HeaderSections::read(&bad).unwrap_err().kind(), ErrorKind::Io);
    // identification section shorter than its fixed part
    let mut bad = good.clone();
    bad[10] = 21;
    assert_eq!(HeaderSections::read(&bad).unwrap_err().kind(), ErrorKind::Io);
    // optional section shorter than its fixed part
    let mut bad = good.clone();
    bad[8 + 23 + 2] = 3;
    assert_eq!(HeaderSections::read(&bad).unwrap_err().kind(), ErrorKind::Io);
    // data description section shorter than its fixed part
    let mut bad = good.clone();
    bad[8 + 23 + 5 + 2] = 6;
    assert_eq!(HeaderSections::read(&bad).unwrap_err().kind(), ErrorKind::Io);
}

#[test]
fn sections_one_by_one() {
    let data = message(4, &identification_v4(0, &[]), None, &description(&[0x0101], 0, false));
    let (indicator, next) = IndicatorSection::read(&data, 0).unwrap();
    assert_eq!(indicator.total_length, 0x010203);
    assert_eq!(next, 8);
    let (identification, next) = IdentificationSection::read(&data, next).unwrap();
    assert_eq!(identification.typical_year, 2024);
    assert_eq!(next, 30);
    let (dds, next) = DataDescriptionSection::read(&data, next).unwrap();
    assert_eq!(dds.number_of_subsets, 0x0102);
    assert_eq!(next, data.len());
    assert_eq!(IndicatorSection::read(&data, 1).unwrap_err().kind(), ErrorKind::Io);
    assert_eq!(IdentificationSection::read(&data, usize::MAX).unwrap_err().kind(), ErrorKind::Io);
    assert_eq!(OptionalSection::read(&data, data.len()).unwrap_err().kind(), ErrorKind::Io);
    let v3 = identification_v3(0x80, &[1, 2]);
    let (section, next) = IdentificationSectionV3::read(&v3, 0).unwrap();
    assert_eq!(next, 19);
    assert_eq!(section.centre, 74);
    assert_eq!(section.sub_centre, 3);
    assert_eq!(section.typical_year, 99);
    assert_eq!(section.local_use, vec![1, 2]);
    assert!(section.flags.has_optional_section);
    let (optional, next) = OptionalSection::read(&[0, 0, 6, 0, 8, 9, 7], 0).unwrap();
    assert_eq!(optional, OptionalSection { section_length: 6, optional: vec![8, 9] });
    assert_eq!(next, 6);
}

#[test]
fn flags_from_their_octet() {
    assert!(IdentificationSectionFlags::from_octet(0x80).has_optional_section);
    assert!(IdentificationSectionFlags::from_octet(0xFF).has_optional_section);
    assert!(!IdentificationSectionFlags::from_octet(0x7F).has_optional_section);
    let cases = [(0x00u8, false, false), (0x40, false, true), (0x80, true, false), (0xC0, true, true), (0x3F, false, false), (0xBF, true, false)];
    for (octet, observed, compressed) in cases {
        assert_eq!(
            DataDescriptionSectionFlags::from_octet(octet),
            DataDescriptionSectionFlags { is_observed_data: observed, is_compressed: compressed }
        );
    }
}

#[test]
fn data_section_header() {
    assert_eq!(
        DataSectionHeader::read(&[0x01, 0x02, 0x03, 0xFF, 0xAA]).unwrap(),
        DataSectionHeader { section_length: 0x010203 }
    );
    assert_eq!(DataSectionHeader::read(&[0, 0, 4]).unwrap_err().kind(), ErrorKind::Io);
}

#[test]
fn end_section_magic() {
    assert_eq!(EndSection::read(b"..7777", 2).unwrap(), (EndSection {}, 6));
    assert_eq!(EndSection::read(b"7777", 1).unwrap_err().kind(), ErrorKind::Io);
    assert_eq!(EndSection::read(b"7778", 0).unwrap_err().kind(), ErrorKind::Io);
    assert_eq!(EndSection::read(b"777", 0).unwrap_err().kind(), ErrorKind::Io);
}

#[test]
fn end_section_of_edition_four() {
    assert!(ensure_end_section(4, b"7777").is_ok());
    assert!(ensure_end_section(4, b"7777 and more").is_ok());
    assert_eq!(ensure_end_section(4, b"777").unwrap_err().kind(), ErrorKind::Io);
    assert_eq!(ensure_end_section(4, b"").unwrap_err().kind(), ErrorKind::Io);
    assert_eq!(ensure_end_section(4, b"7779").unwrap_err().kind(), ErrorKind::Fatal);
    assert_eq!(ensure_end_section(4, b"\x007777").unwrap_err().kind(), ErrorKind::Fatal);
    assert_eq!(ensure_end_section(4, b"7779").unwrap_err().to_text(), "Fatal error: Invalid end section");
}

#[test]
fn end_section_of_edition_three_may_be_padded() {
    assert!(ensure_end_section(3, b"7777").is_ok());
    assert!(ensure_end_section(3, b"\x007777").is_ok());
    assert_eq!(ensure_end_section(3, b"").unwrap_err().kind(), ErrorKind::Io);
    assert_eq!(ensure_end_section(3, b"\x00777").unwrap_err().kind(), ErrorKind::Io);
    assert_eq!(ensure_end_section(3, b"777").unwrap_err().kind(), ErrorKind::Io);
    assert_eq!(ensure_end_section(3, b"\x007778").unwrap_err().kind(), ErrorKind::Fatal);
    assert_eq!(ensure_end_section(3, b"7787").unwrap_err().kind(), ErrorKind::Fatal);
    assert_eq!(ensure_end_section(3, b"\x017777").unwrap_err().kind(), ErrorKind::Fatal);
    assert_eq!(ensure_end_section(3, b"\x00\x007777").unwrap_err().kind(), ErrorKind::Fatal);
}
