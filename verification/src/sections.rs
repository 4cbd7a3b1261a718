//! The header sections of a message (Sections 0 to 3) and its end section
//! (Section 5), decoded from octets.
//!
//! Every number is big-endian. Sections 1 to 3 start with their own length
//! in three octets.
use crate::descriptor::Descriptor;
use crate::error::{Error, ErrorKind};
use crate::text::text_with_number;
use vstd::prelude::*;
use vstd::slice::{slice_subrange, slice_to_vec};
use vstd::std_specs::convert::FromSpecImpl;

verus! {

/// The big-endian number of the two octets at `at`.
pub open spec fn be16(data: Seq<u8>, at: int) -> int {
    data[at] as int * 256 + data[at + 1] as int
}

/// The big-endian number of the three octets at `at`.
pub open spec fn be24(data: Seq<u8>, at: int) -> int {
    data[at] as int * 65536 + data[at + 1] as int * 256 + data[at + 2] as int
}

/// Where a section ends that starts at `at` with its length in three
/// octets: `None` where the length cannot be read, is below the `least`
/// length of such a section, or reaches past the end of `data`.
pub open spec fn section_end(data: Seq<u8>, at: int, least: int) -> Option<int> {
    if 0 <= at && at + 3 <= data.len() && be24(data, at) >= least && at + be24(data, at) <= data.len() {
        Some(at + be24(data, at))
    } else {
        None
    }
}

/// Whether `data` holds the octets of `magic` at `at`.
pub open spec fn has_magic(data: Seq<u8>, at: int, magic: Seq<u8>) -> bool {
    0 <= at && at + magic.len() <= data.len() && data.subrange(at, at + magic.len()) == magic
}

/// `BUFR`, the magic number of the indicator section.
pub open spec fn bufr_magic() -> Seq<u8> {
    seq![66u8, 85u8, 70u8, 82u8]
}

/// Indicator section (Section 0)
#[derive(Debug, Clone, Copy, PartialEq, Eq, Structural)]
pub struct IndicatorSection {
    pub total_length: u32,
    pub edition_number: u8,
}

/// The flags of the identification section.
#[derive(Debug, Default, Clone, Copy, PartialEq, Eq, Structural)]
pub struct IdentificationSectionFlags {
    pub has_optional_section: bool,
}

/// Identification section (Section 1), as edition 4 lays it out.
#[derive(Debug, Clone, PartialEq, Eq)]
pub struct IdentificationSection {
    pub section_length: u32,
    pub master_table_number: u8,
    pub centre: u16,
    pub sub_centre: u16,
    pub update_sequence_number: u8,
    pub flags: IdentificationSectionFlags,
    pub data_category: u8,
    pub international_data_sub_category: u8,
    pub local_data_sub_category: u8,
    pub master_table_version: u8,
    pub local_tables_version: u8,
    pub typical_year: u16,
    pub typical_month: u8,
    pub typical_day: u8,
    pub typical_hour: u8,
    pub typical_minute: u8,
    pub typical_second: u8,
    pub local_use: Vec<u8>,
}

/// Identification section (Section 1), as edition 3 lays it out.
#[derive(Debug, Clone, PartialEq, Eq)]
pub struct IdentificationSectionV3 {
    pub section_length: u32,
    pub master_table_number: u8,
    pub sub_centre: u8,
    pub centre: u8,
    pub update_sequence_number: u8,
    pub flags: IdentificationSectionFlags,
    pub data_category: u8,
    pub data_sub_category: u8,
    pub master_table_version: u8,
    pub local_tables_version: u8,
    pub typical_year: u8,
    pub typical_month: u8,
    pub typical_day: u8,
    pub typical_hour: u8,
    pub typical_minute: u8,
    pub local_use: Vec<u8>,
}

/// Optional section (Section 2)
#[derive(Debug, Clone, PartialEq, Eq)]
pub struct OptionalSection {
    pub section_length: u32,
    pub optional: Vec<u8>,
}

/// The flags of the data description section.
#[derive(Debug, Default, Clone, Copy, PartialEq, Eq, Structural)]
pub struct DataDescriptionSectionFlags {
    pub is_observed_data: bool,
    pub is_compressed: bool,
}

/// Data description section (Section 3)
#[derive(Debug, Clone, PartialEq, Eq)]
pub struct DataDescriptionSection {
    pub section_length: u32,
    pub number_of_subsets: u16,
    pub flags: DataDescriptionSectionFlags,
    pub descriptors: Vec<Descriptor>,
    pub _padding: Vec<u8>,
}

/// End section (Section 5)
#[derive(Debug, Clone, Copy, PartialEq, Eq, Structural)]
pub struct EndSection {}

/// The header sections of a message.
#[derive(Debug, Clone, PartialEq, Eq)]
pub struct HeaderSections {
    pub indicator_section: IndicatorSection,
    pub identification_section: IdentificationSection,
    pub optional_section: Option<OptionalSection>,
    pub data_description_section: DataDescriptionSection,
}

/// The big-endian number of three octets.
pub fn three_bytes_to_u32(bytes: (u8, u8, u8)) -> (n: u32)
    ensures
        n == bytes.0 as int * 65536 + bytes.1 as int * 256 + bytes.2 as int,
{
    bytes.0 as u32 * 65536 + bytes.1 as u32 * 256 + bytes.2 as u32
}

/// The big-endian number of the two octets at `at`.
fn two_bytes_at(data: &[u8], at: usize) -> (n: u16)
    requires
        at + 2 <= data@.len(),
    ensures
        n == be16(data@, at as int),
{
    data[at] as u16 * 256 + data[at + 1] as u16
}

/// The octets of `data` from `from` up to `to`, copied.
fn octets_between(data: &[u8], from: usize, to: usize) -> (v: Vec<u8>)
    requires
        from <= to <= data@.len(),
    ensures
        v@ == data@.subrange(from as int, to as int),
{
    slice_to_vec(slice_subrange(data, from, to))
}

/// Finds the end of the section that starts at `at`, from its length.
fn end_of_section(data: &[u8], at: usize, least: u32) -> (r: Result<usize, Error>)
    ensures
        match section_end(data@, at as int, least as int) {
            Some(end) => r == Ok::<usize, Error>(end as usize) && at + least <= end <= data@.len(),
            None => r matches Err(e) && e.kind_of() == ErrorKind::Io,
        },
{
    if at > data.len() || data.len() - at < 3 {
        return Err(Error::io("unexpected end of data in a section length"));
    }
    let length = three_bytes_to_u32((data[at], data[at + 1], data[at + 2]));
    if length < least {
        return Err(Error::Io(text_with_number("section length is below ", least as u64)));
    }
    if length as usize > data.len() - at {
        return Err(Error::io("unexpected end of data in a section"));
    }
    Ok(at + length as usize)
}

impl IndicatorSection {
    /// Whether an indicator section can be read at `at`: eight octets that
    /// start with `BUFR`.
    pub open spec fn readable(data: Seq<u8>, at: int) -> bool {
        has_magic(data, at, bufr_magic()) && at + 8 <= data.len()
    }

    /// Whether the eight octets at `at` encode this section: the magic
    /// number, the length of the message in three octets, the edition.
    pub open spec fn encoded_at(&self, data: Seq<u8>, at: int) -> bool {
        &&& IndicatorSection::readable(data, at)
        &&& self.total_length == be24(data, at + 4)
        &&& self.edition_number == data[at + 7]
    }

    /// Decodes the section at `at` and says where it ends. Fails with an
    /// I/O error where it is not readable there.
    pub fn read(data: &[u8], at: usize) -> (r: Result<(IndicatorSection, usize), Error>)
        ensures
            match r {
                Ok((section, next)) => section.encoded_at(data@, at as int) && next == at + 8,
                Err(e) => !IndicatorSection::readable(data@, at as int) && e.kind_of() == ErrorKind::Io,
            },
    {
        if at > data.len() || data.len() - at < 8 {
            return Err(Error::io("unexpected end of data in the indicator section"));
        }
        let ghost found = data@.subrange(at as int, at + 4);
        if data[at] != 66 || data[at + 1] != 85 || data[at + 2] != 70 || data[at + 3] != 82 {
            return Err(Error::io("bad magic in the indicator section"));
        }
        assert(found =~= bufr_magic());
        Ok(
            (
                IndicatorSection {
                    total_length: three_bytes_to_u32((data[at + 4], data[at + 5], data[at + 6])),
                    edition_number: data[at + 7],
                },
                at + 8,
            ),
        )
    }
}

impl IdentificationSectionFlags {
    /// The flags that the octet `b` encodes: the top bit says whether an
    /// optional section follows.
    pub open spec fn of_octet(b: u8) -> IdentificationSectionFlags {
        IdentificationSectionFlags { has_optional_section: b >= 128 }
    }

    /// Decodes the flags from their octet.
    pub fn from_octet(b: u8) -> (flags: IdentificationSectionFlags)
        ensures
            flags == IdentificationSectionFlags::of_octet(b),
    {
        IdentificationSectionFlags { has_optional_section: b >= 128 }
    }
}

impl DataDescriptionSectionFlags {
    /// The flags that the octet `b` encodes: the top bit marks observed
    /// data, the bit below it compression.
    pub open spec fn of_octet(b: u8) -> DataDescriptionSectionFlags {
        DataDescriptionSectionFlags { is_observed_data: b >= 128, is_compressed: (b as int / 64) % 2 == 1 }
    }

    /// Decodes the flags from their octet.
    pub fn from_octet(b: u8) -> (flags: DataDescriptionSectionFlags)
        ensures
            flags == DataDescriptionSectionFlags::of_octet(b),
    {
        DataDescriptionSectionFlags { is_observed_data: b >= 128, is_compressed: (b / 64) % 2 == 1 }
    }
}

impl IdentificationSection {
    /// Whether the octets at `at` encode this section in the layout of
    /// edition 4; what lies behind the fixed part is for local use.
    pub open spec fn encoded_at(&self, data: Seq<u8>, at: int) -> bool {
        &&& section_end(data, at, 22) is Some
        &&& self.section_length == be24(data, at)
        &&& self.master_table_number == data[at + 3]
        &&& self.centre == be16(data, at + 4)
        &&& self.sub_centre == be16(data, at + 6)
        &&& self.update_sequence_number == data[at + 8]
        &&& self.flags == IdentificationSectionFlags::of_octet(data[at + 9])
        &&& self.data_category == data[at + 10]
        &&& self.international_data_sub_category == data[at + 11]
        &&& self.local_data_sub_category == data[at + 12]
        &&& self.master_table_version == data[at + 13]
        &&& self.local_tables_version == data[at + 14]
        &&& self.typical_year == be16(data, at + 15)
        &&& self.typical_month == data[at + 17]
        &&& self.typical_day == data[at + 18]
        &&& self.typical_hour == data[at + 19]
        &&& self.typical_minute == data[at + 20]
        &&& self.typical_second == data[at + 21]
        &&& self.local_use@ == data.subrange(at + 22, at + be24(data, at))
    }

    /// Whether the octets at `at` encode this section in the layout of
    /// edition 3: centre, sub-centre and year take one octet each, and the
    /// local sub-category and the second, which edition 3 lacks, are zero.
    pub open spec fn encoded_at_v3(&self, data: Seq<u8>, at: int) -> bool {
        &&& section_end(data, at, 17) is Some
        &&& self.section_length == be24(data, at)
        &&& self.master_table_number == data[at + 3]
        &&& self.sub_centre == data[at + 4]
        &&& self.centre == data[at + 5]
        &&& self.update_sequence_number == data[at + 6]
        &&& self.flags == IdentificationSectionFlags::of_octet(data[at + 7])
        &&& self.data_category == data[at + 8]
        &&& self.international_data_sub_category == data[at + 9]
        &&& self.local_data_sub_category == 0
        &&& self.master_table_version == data[at + 10]
        &&& self.local_tables_version == data[at + 11]
        &&& self.typical_year == data[at + 12]
        &&& self.typical_month == data[at + 13]
        &&& self.typical_day == data[at + 14]
        &&& self.typical_hour == data[at + 15]
        &&& self.typical_minute == data[at + 16]
        &&& self.typical_second == 0
        &&& self.local_use@ == data.subrange(at + 17, at + be24(data, at))
    }

    /// Decodes the section at `at` in the layout of edition 4 and says
    /// where it ends. Fails with an I/O error where the section has no end
    /// in `data`.
    pub fn read(data: &[u8], at: usize) -> (r: Result<(IdentificationSection, usize), Error>)
        ensures
            match section_end(data@, at as int, 22) {
                Some(end) => r matches Ok((section, next)) && section.encoded_at(data@, at as int) && next
                    == end,
                None => r matches Err(e) && e.kind_of() == ErrorKind::Io,
            },
    {
        let end = match end_of_section(data, at, 22) {
            Ok(end) => end,
            Err(e) => {
                return Err(e);
            },
        };
        Ok(
            (
                IdentificationSection {
                    section_length: three_bytes_to_u32((data[at], data[at + 1], data[at + 2])),
                    master_table_number: data[at + 3],
                    centre: two_bytes_at(data, at + 4),
                    sub_centre: two_bytes_at(data, at + 6),
                    update_sequence_number: data[at + 8],
                    flags: IdentificationSectionFlags::from_octet(data[at + 9]),
                    data_category: data[at + 10],
                    international_data_sub_category: data[at + 11],
                    local_data_sub_category: data[at + 12],
                    master_table_version: data[at + 13],
                    local_tables_version: data[at + 14],
                    typical_year: two_bytes_at(data, at + 15),
                    typical_month: data[at + 17],
                    typical_day: data[at + 18],
                    typical_hour: data[at + 19],
                    typical_minute: data[at + 20],
                    typical_second: data[at + 21],
                    local_use: octets_between(data, at + 22, end),
                },
                end,
            ),
        )
    }
}

impl IdentificationSectionV3 {
    /// Whether the octets at `at` encode this section.
    pub open spec fn encoded_at(&self, data: Seq<u8>, at: int) -> bool {
        &&& section_end(data, at, 17) is Some
        &&& self.section_length == be24(data, at)
        &&& self.master_table_number == data[at + 3]
        &&& self.sub_centre == data[at + 4]
        &&& self.centre == data[at + 5]
        &&& self.update_sequence_number == data[at + 6]
        &&& self.flags == IdentificationSectionFlags::of_octet(data[at + 7])
        &&& self.data_category == data[at + 8]
        &&& self.data_sub_category == data[at + 9]
        &&& self.master_table_version == data[at + 10]
        &&& self.local_tables_version == data[at + 11]
        &&& self.typical_year == data[at + 12]
        &&& self.typical_month == data[at + 13]
        &&& self.typical_day == data[at + 14]
        &&& self.typical_hour == data[at + 15]
        &&& self.typical_minute == data[at + 16]
        &&& self.local_use@ == data.subrange(at + 17, at + be24(data, at))
    }

    /// Decodes the section at `at` and says where it ends. Fails with an
    /// I/O error where the section has no end in `data`.
    pub fn read(data: &[u8], at: usize) -> (r: Result<(IdentificationSectionV3, usize), Error>)
        ensures
            match section_end(data@, at as int, 17) {
                Some(end) => r matches Ok((section, next)) && section.encoded_at(data@, at as int) && next
                    == end,
                None => r matches Err(e) && e.kind_of() == ErrorKind::Io,
            },
    {
        let end = match end_of_section(data, at, 17) {
            Ok(end) => end,
            Err(e) => {
                return Err(e);
            },
        };
        Ok(
            (
                IdentificationSectionV3 {
                    section_length: three_bytes_to_u32((data[at], data[at + 1], data[at + 2])),
                    master_table_number: data[at + 3],
                    sub_centre: data[at + 4],
                    centre: data[at + 5],
                    update_sequence_number: data[at + 6],
                    flags: IdentificationSectionFlags::from_octet(data[at + 7]),
                    data_category: data[at + 8],
                    data_sub_category: data[at + 9],
                    master_table_version: data[at + 10],
                    local_tables_version: data[at + 11],
                    typical_year: data[at + 12],
                    typical_month: data[at + 13],
                    typical_day: data[at + 14],
                    typical_hour: data[at + 15],
                    typical_minute: data[at + 16],
                    local_use: octets_between(data, at + 17, end),
                },
                end,
            ),
        )
    }
}

impl From<IdentificationSectionV3> for IdentificationSection {
    fn from(value: IdentificationSectionV3) -> (section: Self) {
        Self {
            section_length: value.section_length,
            master_table_number: value.master_table_number,
            centre: value.centre as u16,
            sub_centre: value.sub_centre as u16,
            update_sequence_number: value.update_sequence_number,
            flags: value.flags,
            data_category: value.data_category,
            international_data_sub_category: value.data_sub_category,
            local_data_sub_category: 0,
            master_table_version: value.master_table_version,
            local_tables_version: value.local_tables_version,
            typical_year: value.typical_year as u16,
            typical_month: value.typical_month,
            typical_day: value.typical_day,
            typical_hour: value.typical_hour,
            typical_minute: value.typical_minute,
            typical_second: 0,
            local_use: value.local_use,
        }
    }
}

impl FromSpecImpl<IdentificationSectionV3> for IdentificationSection {
    open spec fn obeys_from_spec() -> bool {
        true
    }

    /// The section of edition 3 in the layout of edition 4: every field
    /// is kept, the numbers widened, and the two fields that edition 3 lacks
    /// are zero.
    open spec fn from_spec(value: IdentificationSectionV3) -> Self {
        IdentificationSection {
            section_length: value.section_length,
            master_table_number: value.master_table_number,
            centre: value.centre as u16,
            sub_centre: value.sub_centre as u16,
            update_sequence_number: value.update_sequence_number,
            flags: value.flags,
            data_category: value.data_category,
            international_data_sub_category: value.data_sub_category,
            local_data_sub_category: 0,
            master_table_version: value.master_table_version,
            local_tables_version: value.local_tables_version,
            typical_year: value.typical_year as u16,
            typical_month: value.typical_month,
            typical_day: value.typical_day,
            typical_hour: value.typical_hour,
            typical_minute: value.typical_minute,
            typical_second: 0,
            local_use: value.local_use,
        }
    }
}

impl OptionalSection {
    /// Whether the octets at `at` encode this section: the length, one
    /// reserved octet, and the content up to the end of the section.
    pub open spec fn encoded_at(&self, data: Seq<u8>, at: int) -> bool {
        &&& section_end(data, at, 4) is Some
        &&& self.section_length == be24(data, at)
        &&& self.optional@ == data.subrange(at + 4, at + be24(data, at))
    }

    /// Decodes the section at `at` and says where it ends. Fails with an
    /// I/O error where the section has no end in `data`.
    pub fn read(data: &[u8], at: usize) -> (r: Result<(OptionalSection, usize), Error>)
        ensures
            match section_end(data@, at as int, 4) {
                Some(end) => r matches Ok((section, next)) && section.encoded_at(data@, at as int) && next
                    == end,
                None => r matches Err(e) && e.kind_of() == ErrorKind::Io,
            },
    {
        let end = match end_of_section(data, at, 4) {
            Ok(end) => end,
            Err(e) => {
                return Err(e);
            },
        };
        Ok(
            (
                OptionalSection {
                    section_length: three_bytes_to_u32((data[at], data[at + 1], data[at + 2])),
                    optional: octets_between(data, at + 4, end),
                },
                end,
            ),
        )
    }
}

impl DataDescriptionSection {
    /// How many descriptors a section of `length` octets holds: one for
    /// every two octets behind the seven of its fixed part.
    pub open spec fn descriptor_count(length: int) -> int {
        (length - 7) / 2
    }

    /// Whether the octets at `at` encode this section: the length, one
    /// reserved octet, the number of subsets, the flags, the descriptors as
    /// 16-bit words, and at most one octet of padding.
    pub open spec fn encoded_at(&self, data: Seq<u8>, at: int) -> bool {
        let length = be24(data, at);
        let count = DataDescriptionSection::descriptor_count(length);
        &&& section_end(data, at, 7) is Some
        &&& self.section_length == length
        &&& self.number_of_subsets == be16(data, at + 4)
        &&& self.flags == DataDescriptionSectionFlags::of_octet(data[at + 6])
        &&& self.descriptors@ == Seq::new(
            count as nat,
            |k: int| Descriptor::of_word(be16(data, at + 7 + 2 * k) as u16),
        )
        &&& self._padding@ == data.subrange(at + 7 + 2 * count, at + length)
    }

    /// Decodes the section at `at` and says where it ends. Fails with an
    /// I/O error where the section has no end in `data`.
    pub fn read(data: &[u8], at: usize) -> (r: Result<(DataDescriptionSection, usize), Error>)
        ensures
            match section_end(data@, at as int, 7) {
                Some(end) => r matches Ok((section, next)) && section.encoded_at(data@, at as int) && next
                    == end,
                None => r matches Err(e) && e.kind_of() == ErrorKind::Io,
            },
    {
        let end = match end_of_section(data, at, 7) {
            Ok(end) => end,
            Err(e) => {
                return Err(e);
            },
        };
        let section_length = three_bytes_to_u32((data[at], data[at + 1], data[at + 2]));
        let count: usize = (section_length as usize - 7) / 2;
        let mut descriptors: Vec<Descriptor> = Vec::new();
        let mut k: usize = 0;
        while k < count
            invariant
                k <= count,
                at + 7 + 2 * count <= end <= data@.len(),
                descriptors@ == Seq::new(
                    k as nat,
                    |j: int| Descriptor::of_word(be16(data@, at + 7 + 2 * j) as u16),
                ),
            decreases count - k,
        {
            let word = two_bytes_at(data, at + 7 + 2 * k);
            descriptors.push(Descriptor::from_word(word));
            k = k + 1;
        }
        Ok(
            (
                DataDescriptionSection {
                    section_length,
                    number_of_subsets: two_bytes_at(data, at + 4),
                    flags: DataDescriptionSectionFlags::from_octet(data[at + 6]),
                    descriptors,
                    _padding: octets_between(data, at + 7 + 2 * count, end),
                },
                end,
            ),
        )
    }
}

/// `7777`, the magic number of the end section.
pub open spec fn end_magic() -> Seq<u8> {
    seq![55u8, 55u8, 55u8, 55u8]
}

impl EndSection {
    /// Decodes the end section at `at`: four octets `7777`. Fails with an
    /// I/O error where they are not there.
    pub fn read(data: &[u8], at: usize) -> (r: Result<(EndSection, usize), Error>)
        ensures
            match r {
                Ok((section, next)) => has_magic(data@, at as int, end_magic()) && next == at + 4,
                Err(e) => !has_magic(data@, at as int, end_magic()) && e.kind_of() == ErrorKind::Io,
            },
    {
        if at > data.len() || data.len() - at < 4 {
            return Err(Error::io("unexpected end of data in the end section"));
        }
        let ghost found = data@.subrange(at as int, at + 4);
        if data[at] != 55 || data[at + 1] != 55 || data[at + 2] != 55 || data[at + 3] != 55 {
            return Err(Error::io("bad magic in the end section"));
        }
        assert(found =~= end_magic());
        Ok((EndSection {  }, at + 4))
    }
}

/// Where the identification section of the message `data` ends: it
/// starts behind the eight octets of the indicator section, in the layout of
/// the edition that the indicator section names.
pub open spec fn identification_end(data: Seq<u8>) -> Option<int> {
    section_end(
        data,
        8,
        if data[7] == 3 {
            17
        } else {
            22
        },
    )
}

/// Whether the identification section of the message `data` announces an
/// optional section.
pub open spec fn announces_optional(data: Seq<u8>) -> bool {
    if data[7] == 3 {
        data[15] >= 128
    } else {
        data[17] >= 128
    }
}

/// Where the optional section of the message `data` ends, or, where there
/// is none, the identification section.
pub open spec fn optional_end(data: Seq<u8>) -> Option<int> {
    match identification_end(data) {
        None => None,
        Some(end) => if announces_optional(data) {
            section_end(data, end, 4)
        } else {
            Some(end)
        },
    }
}

/// Where the header sections of the message `data` end, which is where
/// its data section starts; or the kind of error that shows on the way.
///
/// Without a readable indicator section that is an I/O error, with an
/// edition other than 3 and 4 a fatal error, and with a later section that
/// has no end in `data` an I/O error again.
pub open spec fn header_end(data: Seq<u8>) -> Result<int, ErrorKind> {
    if !IndicatorSection::readable(data, 0) {
        Err(ErrorKind::Io)
    } else if data[7] != 3 && data[7] != 4 {
        Err(ErrorKind::Fatal)
    } else {
        match optional_end(data) {
            None => Err(ErrorKind::Io),
            Some(end) => match section_end(data, end, 7) {
                None => Err(ErrorKind::Io),
                Some(last) => Ok(last),
            },
        }
    }
}

impl HeaderSections {
    /// Whether the start of `data` encodes these sections, one behind the
    /// other: the indicator section, the identification section in the layout
    /// of its edition, the optional section where the identification section
    /// announces one, and the data description section.
    pub open spec fn encoded_in(&self, data: Seq<u8>) -> bool {
        &&& self.indicator_section.encoded_at(data, 0)
        &&& if data[7] == 3 {
            self.identification_section.encoded_at_v3(data, 8)
        } else {
            self.identification_section.encoded_at(data, 8)
        }
        &&& match self.optional_section {
            Some(optional) => announces_optional(data) && optional.encoded_at(data, identification_end(data)->0),
            None => !announces_optional(data),
        }
        &&& self.data_description_section.encoded_at(data, optional_end(data)->0)
    }

    /// Decodes the header sections from the start of a message and says
    /// where the data section starts.
    ///
    /// Succeeds exactly where [`header_end`] gives an end; otherwise the
    /// error is of the kind that [`header_end`] gives.
    pub fn read(data: &[u8]) -> (r: Result<(HeaderSections, usize), Error>)
        ensures
            match header_end(data@) {
                Ok(end) => r matches Ok((sections, next)) && sections.encoded_in(data@) && next == end,
                Err(kind) => r matches Err(e) && e.kind_of() == kind,
            },
    {
        // Indicator section
        let (indicator_section, after_indicator) = match IndicatorSection::read(data, 0) {
            Ok(read) => read,
            Err(e) => {
                return Err(e);
            },
        };

        // Identification section
        let (identification_section, after_identification) = match indicator_section.edition_number {
            3 => match IdentificationSectionV3::read(data, after_indicator) {
                Ok((section, next)) => (IdentificationSection::from(section), next),
                Err(e) => {
                    return Err(e);
                },
            },
            4 => match IdentificationSection::read(data, after_indicator) {
                Ok(read) => read,
                Err(e) => {
                    return Err(e);
                },
            },
            _ => {
                return Err(
                    Error::Fatal(
                        text_with_number("Unsupported edition number ", indicator_section.edition_number as u64),
                    ),
                );
            },
        };

        // Optional section
        let (optional_section, after_optional) = if identification_section.flags.has_optional_section {
            match OptionalSection::read(data, after_identification) {
                Ok((section, next)) => (Some(section), next),
                Err(e) => {
                    return Err(e);
                },
            }
        } else {
            (None, after_identification)
        };

        // Data description section
        let (data_description_section, end) = match DataDescriptionSection::read(data, after_optional) {
            Ok(read) => read,
            Err(e) => {
                return Err(e);
            },
        };

        Ok(
            (
                HeaderSections {
                    indicator_section,
                    identification_section,
                    optional_section,
                    data_description_section,
                },
                end,
            ),
        )
    }
}

/// Whether `count` octets `7` stand at `at`: an I/O error where `data`
/// ends before them, a fatal error where one of them is another octet.
pub open spec fn sevens_at(data: Seq<u8>, at: int, count: int) -> Result<(), ErrorKind> {
    if at + count > data.len() {
        Err(ErrorKind::Io)
    } else if forall|i: int| at <= i < at + count ==> data[i] == 55 {
        Ok(())
    } else {
        Err(ErrorKind::Fatal)
    }
}

/// Whether `data` starts with the end section of a message of the given
/// edition.
///
/// The end section is `7777`. In edition 3 one octet of zero may stand
/// before it, which pads the data section to an even length; any other octet
/// there is a fatal error.
pub open spec fn end_section_at_start(edition: u8, data: Seq<u8>) -> Result<(), ErrorKind> {
    if edition == 3 {
        if data.len() < 1 {
            Err(ErrorKind::Io)
        } else if data[0] == 0 {
            sevens_at(data, 1, 4)
        } else if data[0] == 55 {
            sevens_at(data, 1, 3)
        } else {
            Err(ErrorKind::Fatal)
        }
    } else {
        sevens_at(data, 0, 4)
    }
}

/// Checks that `count` octets `7` stand at `at`.
fn expect_sevens(data: &[u8], at: usize, count: usize) -> (r: Result<(), Error>)
    requires
        at <= 1,
        count <= 4,
    ensures
        match sevens_at(data@, at as int, count as int) {
            Ok(()) => r is Ok,
            Err(kind) => r matches Err(e) && e.kind_of() == kind,
        },
{
    if at + count > data.len() {
        return Err(Error::io("unexpected end of data in the end section"));
    }
    let mut k: usize = 0;
    while k < count
        invariant
            k <= count <= 4,
            at <= 1,
            at + count <= data@.len(),
            forall|i: int| at <= i < at + k ==> data@[i] == 55,
        decreases count - k,
    {
        if data[at + k] != 55 {
            return Err(Error::fatal("Invalid end section"));
        }
        k = k + 1;
    }
    Ok(())
}

/// Check if the end section appears at the start of `data`, the octets
/// that follow the data section.
///
/// Succeeds exactly where [`end_section_at_start`] does; otherwise the
/// error is of the kind that it gives.
pub fn ensure_end_section(edition: u8, data: &[u8]) -> (r: Result<(), Error>)
    ensures
        match end_section_at_start(edition, data@) {
            Ok(()) => r is Ok,
            Err(kind) => r matches Err(e) && e.kind_of() == kind,
        },
{
    if edition == 3 {
        if data.len() < 1 {
            return Err(Error::io("unexpected end of data in the end section"));
        }
        match data[0] {
            0 => expect_sevens(data, 1, 4),
            55 => expect_sevens(data, 1, 3),
            _ => Err(Error::fatal("Invalid end section")),
        }
    } else {
        expect_sevens(data, 0, 4)
    }
}

} // verus!
