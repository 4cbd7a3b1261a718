//! A streaming decoder for BUFR messages.
//!
//! A message names its fields by descriptors that are looked up in external
//! tables; the data section is a packed bit stream whose layout follows from
//! the resolved descriptors alone. [`HeaderSections`] decodes the byte-aligned
//! header sections, [`DataSpec`] resolves the descriptors of the data
//! description section against the tables, and [`DataReader`] walks the
//! resolved tree over the bit stream, handing out one [`DataEvent`] per call.
use vstd::prelude::*;

pub mod bits;
pub mod descriptor;
pub mod error;
pub mod nesting;
pub mod reader;
pub mod sections;
pub mod stack;
pub mod tables;
pub mod text;
pub mod value;

pub use crate::descriptor::{resolve_descriptors, Descriptor, ResolvedDescriptor, XY};
pub use crate::error::{Error, ErrorKind};
pub use crate::reader::{DataEvent, DataReader, DataSectionHeader, DataSpec};
pub use crate::sections::{
    ensure_end_section, DataDescriptionSection, DataDescriptionSectionFlags, EndSection,
    HeaderSections, IdentificationSection, IdentificationSectionFlags, IdentificationSectionV3,
    IndicatorSection, OptionalSection,
};
pub use crate::stack::{StackEntry, StackEntryType};
pub use crate::tables::{TableBEntry, TableDEntry, Tables};
pub use crate::value::{Value, ValueModel};
