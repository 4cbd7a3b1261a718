//! The decoder of the data section: a stack machine that walks the resolved
//! descriptors over the bit stream and hands out one event per call.
//!
//! [`step`] says, as mathematics, what one call does to the state of a
//! reader and which event it gives; [`DataReader::read_event`] is proved to
//! do exactly that.
use crate::bits::{
    all_ones, be_value, bits_of_bytes, lemma_all_ones_iff_every_bit_set, take_octets, take_uint,
    unread_bits, BitSource,
};
use crate::descriptor::{resolvable, resolve_descriptors, resolves_to, ResolvedDescriptor, XY};
use crate::error::{Error, ErrorKind};
use crate::sections::{three_bytes_to_u32, DataDescriptionSection};
use crate::stack::{
    stack_frames, stack_is_empty, stack_new, stack_pop, stack_push, FrameModel, FrameStack,
    StackEntry, StackEntryType,
};
use crate::tables::{TableBEntry, Tables};
use crate::text::{append_decimal, decimal_digits, text_with_number};
use crate::value::{numeric_value, Value, ValueModel};
use vstd::prelude::*;
use vstd::slice::slice_subrange;
use vstd::string::StringExecFns;
use vstd::utf8::{decode_utf8, valid_utf8};

verus! {

/// What the decoder needs to know of a message: how many subsets it holds,
/// whether they are compressed, and the resolved descriptors of one subset.
///
/// The events number the descriptors of a list in 16 bits. A list of more
/// than 65535 descriptors is therefore refused with a fatal error by the call
/// of [`DataReader::read_event`] that would enter it: for the root
/// descriptors that is the very first call, for the elements of a sequence or
/// the block of a replication the call that reaches it.
#[derive(Debug)]
pub struct DataSpec<'a> {
    pub number_of_subsets: u16,
    pub is_compressed: bool,
    pub root_descriptors: Vec<ResolvedDescriptor<'a>>,
}

impl<'a> DataSpec<'a> {
    /// What the decoder needs of a message, from its data description
    /// section: the number of subsets, the compression flag, and the
    /// descriptors of the section resolved against `tables`.
    ///
    /// Fails with a fatal error exactly where the descriptors are not
    /// [`resolvable`].
    pub fn from_data_description(dds: &DataDescriptionSection, tables: &'a Tables) -> (r: Result<Self, Error>)
        ensures
            r is Ok <==> resolvable(tables, dds.descriptors@),
            r matches Ok(spec) ==> spec.number_of_subsets == dds.number_of_subsets && spec.is_compressed
                == dds.flags.is_compressed && resolves_to(tables, dds.descriptors@, spec.root_descriptors@),
            r matches Err(e) ==> e.kind_of() == ErrorKind::Fatal,
    {
        let root_descriptors = match resolve_descriptors(tables, dds.descriptors.as_slice()) {
            Ok(descriptors) => descriptors,
            Err(e) => {
                return Err(e);
            },
        };
        Ok(
            Self {
                number_of_subsets: dds.number_of_subsets,
                is_compressed: dds.flags.is_compressed,
                root_descriptors,
            },
        )
    }
}

/// The header of the data section (Section 4).
#[derive(Debug, Clone, Copy, PartialEq, Eq, Structural)]
pub struct DataSectionHeader {
    pub section_length: u32,
}

/// One step of the decoding, as the caller sees it.
#[derive(Debug, Clone, PartialEq, Eq)]
pub enum DataEvent {
    SubsetStart(u16),
    SubsetEnd,
    CompressedStart,
    ReplicationStart { idx: u16, count: u16 },
    ReplicationItemStart,
    ReplicationItemEnd,
    ReplicationEnd,
    SequenceStart { idx: u16, xy: XY },
    SequenceEnd,
    OperatorHandled { idx: u16, x: u8, value: i32 },
    Data { idx: u16, xy: XY, value: Value },
    CompressedData { idx: u16, xy: XY, values: Vec<Value> },
    Eof,
}

/// What a [`DataEvent`] holds, as mathematics.
pub enum EventModel {
    SubsetStart(u16),
    SubsetEnd,
    CompressedStart,
    ReplicationStart { idx: u16, count: u16 },
    ReplicationItemStart,
    ReplicationItemEnd,
    ReplicationEnd,
    SequenceStart { idx: u16, xy: XY },
    SequenceEnd,
    OperatorHandled { idx: u16, x: u8, value: i32 },
    Data { idx: u16, xy: XY, value: ValueModel },
    CompressedData { idx: u16, xy: XY, values: Seq<ValueModel> },
    Eof,
}

/// The models of a run of values.
pub open spec fn value_models(values: Seq<Value>) -> Seq<ValueModel> {
    values.map_values(|v: Value| v@)
}

impl View for DataEvent {
    type V = EventModel;

    open spec fn view(&self) -> EventModel {
        match self {
            DataEvent::SubsetStart(i) => EventModel::SubsetStart(*i),
            DataEvent::SubsetEnd => EventModel::SubsetEnd,
            DataEvent::CompressedStart => EventModel::CompressedStart,
            DataEvent::ReplicationStart { idx, count } => EventModel::ReplicationStart {
                idx: *idx,
                count: *count,
            },
            DataEvent::ReplicationItemStart => EventModel::ReplicationItemStart,
            DataEvent::ReplicationItemEnd => EventModel::ReplicationItemEnd,
            DataEvent::ReplicationEnd => EventModel::ReplicationEnd,
            DataEvent::SequenceStart { idx, xy } => EventModel::SequenceStart { idx: *idx, xy: *xy },
            DataEvent::SequenceEnd => EventModel::SequenceEnd,
            DataEvent::OperatorHandled { idx, x, value } => EventModel::OperatorHandled {
                idx: *idx,
                x: *x,
                value: *value,
            },
            DataEvent::Data { idx, xy, value } => EventModel::Data { idx: *idx, xy: *xy, value: value@ },
            DataEvent::CompressedData { idx, xy, values } => EventModel::CompressedData {
                idx: *idx,
                xy: *xy,
                values: value_models(values@),
            },
            DataEvent::Eof => EventModel::Eof,
        }
    }
}

/// The state of a reader, as mathematics.
pub struct ReaderModel<'a> {
    /// The traversal stack, bottom first.
    pub frames: Seq<FrameModel<'a>>,
    /// How many subsets have been started.
    pub subset_idx: u16,
    /// What the last scale operator added to every scale.
    pub scale_offset: i8,
    /// A width operator that waits for the next element.
    pub temporary_operator: Option<XY>,
    /// The bits that are still to be read.
    pub bits: Seq<bool>,
}

/// What one call does: an event and the state after it, or a failure.
///
/// A failure comes with the state after it wherever the reading itself has
/// not failed: the cursor has moved past the descriptor that was refused, and
/// what was read before the refusal stays read. After an I/O error there is no
/// such state, for nothing is known of the bits that are left.
pub enum Step<'a> {
    Event(EventModel, ReaderModel<'a>),
    Failure(ErrorKind, Option<ReaderModel<'a>>),
}

impl<'a> ReaderModel<'a> {
    /// The state of a new reader over `bits`.
    pub open spec fn initial(bits: Seq<bool>) -> ReaderModel<'a> {
        ReaderModel {
            frames: Seq::empty(),
            subset_idx: 0,
            scale_offset: 0,
            temporary_operator: None,
            bits,
        }
    }

    /// This state with another stack.
    pub open spec fn with_frames(self, frames: Seq<FrameModel<'a>>) -> ReaderModel<'a> {
        ReaderModel { frames, ..self }
    }

    /// This state with other unread bits.
    pub open spec fn with_bits(self, bits: Seq<bool>) -> ReaderModel<'a> {
        ReaderModel { bits, ..self }
    }

    /// Every frame is well formed, the bottom frame is that of the root
    /// descriptors of a subset that has been started, and no more subsets
    /// have been started than there are.
    pub open spec fn well_formed(self, spec: &DataSpec<'a>) -> bool {
        &&& forall|i: int| 0 <= i < self.frames.len() ==> (#[trigger] self.frames[i]).well_formed()
        &&& self.frames.len() > 0 ==> self.frames[0].kind == StackEntryType::Sequence && self.subset_idx > 0
        &&& if spec.is_compressed {
            self.subset_idx <= 1
        } else {
            self.subset_idx <= spec.number_of_subsets
        }
    }

    /// Whether every subset has been started: in a compressed message the
    /// one virtual subset.
    pub open spec fn all_started(self, spec: &DataSpec<'a>) -> bool {
        if spec.is_compressed {
            self.subset_idx > 0
        } else {
            self.subset_idx == spec.number_of_subsets
        }
    }
}

/// The width in bits of the next element: that of its Table B entry, unless
/// a width operator waits.
pub open spec fn effective_width(s: ReaderModel, entry: TableBEntry) -> nat {
    match s.temporary_operator {
        Some(op) => op.y as nat,
        None => entry.bits as nat,
    }
}

/// The values of the first `count` subsets of a compressed element with
/// increments of `nbinc` bits, and the bits that are left behind them; `None`
/// where an increment cannot be read.
pub open spec fn take_compressed(
    bits: Seq<bool>,
    count: nat,
    nbinc: nat,
    local_ref: nat,
    width: nat,
    reference: int,
    scale: int,
) -> Option<(Seq<ValueModel>, Seq<bool>)>
    decreases count,
{
    if count == 0 {
        Some((Seq::empty(), bits))
    } else {
        match take_compressed(bits, (count - 1) as nat, nbinc, local_ref, width, reference, scale) {
            None => None,
            Some((values, rest)) => match take_uint(rest, nbinc, 32) {
                None => None,
                Some((inc, left)) => Some(
                    (values.push(numeric_value((local_ref + inc) as int, width, reference, scale)), left),
                ),
            },
        }
    }
}

/// An element (F=0) at index `idx`, in a state `s` whose cursor has moved
/// on.
///
/// A width of at most 32 bits is a number. Uncompressed, one field is read.
/// Compressed, a local reference of that width and a six-bit increment width
/// are read; with an increment width of zero every subset has the value of
/// the local reference, otherwise one increment per subset is read and added
/// to it. A wider field of whole octets is text; octets that are no UTF-8
/// are a fatal error, and text in a compressed message is not supported, both
/// after the octets have been read. Any other width is a fatal error, and no
/// bit is read. A read that fails is an I/O error. A width operator that
/// waits is used up by the element that is decoded, not by one that fails.
pub open spec fn data_step<'a>(spec: &DataSpec<'a>, s: ReaderModel<'a>, idx: u16, entry: TableBEntry) -> Step<'a> {
    let width = effective_width(s, entry);
    let scale = entry.scale + s.scale_offset;
    let reference = entry.reference_value as int;
    let used = ReaderModel { temporary_operator: None, ..s };
    if width <= 32 {
        if !spec.is_compressed {
            match take_uint(s.bits, width, 32) {
                None => Step::Failure(ErrorKind::Io, None),
                Some((raw, rest)) => Step::Event(
                    EventModel::Data { idx, xy: entry.xy, value: numeric_value(raw as int, width, reference, scale) },
                    used.with_bits(rest),
                ),
            }
        } else {
            match take_uint(s.bits, width, 32) {
                None => Step::Failure(ErrorKind::Io, None),
                Some((local_ref, rest)) => match take_uint(rest, 6, 8) {
                    None => Step::Failure(ErrorKind::Io, None),
                    Some((nbinc, left)) => if nbinc == 0 {
                        Step::Event(
                            EventModel::CompressedData {
                                idx,
                                xy: entry.xy,
                                values: Seq::new(
                                    spec.number_of_subsets as nat,
                                    |i: int| numeric_value(local_ref as int, width, reference, scale),
                                ),
                            },
                            used.with_bits(left),
                        )
                    } else {
                        match take_compressed(
                            left,
                            spec.number_of_subsets as nat,
                            nbinc,
                            local_ref,
                            width,
                            reference,
                            scale,
                        ) {
                            None => Step::Failure(ErrorKind::Io, None),
                            Some((values, last)) => Step::Event(
                                EventModel::CompressedData { idx, xy: entry.xy, values },
                                used.with_bits(last),
                            ),
                        }
                    },
                },
            }
        }
    } else if width % 8 == 0 {
        match take_octets(s.bits, width / 8) {
            None => Step::Failure(ErrorKind::Io, None),
            Some((octets, rest)) => if !valid_utf8(octets) {
                Step::Failure(ErrorKind::Fatal, Some(s.with_bits(rest)))
            } else if spec.is_compressed {
                Step::Failure(ErrorKind::NotSupported, Some(s.with_bits(rest)))
            } else {
                Step::Event(
                    EventModel::Data { idx, xy: entry.xy, value: ValueModel::Text(decode_utf8(octets)) },
                    used.with_bits(rest),
                )
            },
        }
    } else {
        Step::Failure(ErrorKind::Fatal, Some(s))
    }
}

/// A replication (F=1) at index `idx`: the number of iterations is `y`, or,
/// where `y` is zero, the next `delayed_bits` bits; a frame over the block is
/// pushed. A block too long for 16-bit indices is a fatal error, before any
/// bit is read.
pub open spec fn replication_step<'a>(
    s: ReaderModel<'a>,
    idx: u16,
    y: u8,
    block: Seq<ResolvedDescriptor<'a>>,
    delayed_bits: u8,
) -> Step<'a> {
    if block.len() > u16::MAX {
        Step::Failure(ErrorKind::Fatal, Some(s))
    } else if y == 0 {
        match take_uint(s.bits, delayed_bits as nat, 16) {
            None => Step::Failure(ErrorKind::Io, None),
            Some((count, rest)) => Step::Event(
                EventModel::ReplicationStart { idx, count: count as u16 },
                s.with_bits(rest).with_frames(s.frames.push(FrameModel::replication(block, count as u16))),
            ),
        }
    } else {
        Step::Event(
            EventModel::ReplicationStart { idx, count: y as u16 },
            s.with_frames(s.frames.push(FrameModel::replication(block, y as u16))),
        )
    }
}

/// An operator (F=2) at index `idx`: X=2 sets the scale offset, to zero for
/// Y=0 and to `Y - 128` otherwise; X=6 leaves a width for the next element;
/// every other operator is not supported, and leaves the state `s` as it
/// is.
pub open spec fn operator_step<'a>(s: ReaderModel<'a>, idx: u16, xy: XY) -> Step<'a> {
    let handled = EventModel::OperatorHandled { idx, x: xy.x, value: xy.y as i32 };
    if xy.x == 2 {
        Step::Event(
            handled,
            ReaderModel {
                scale_offset: if xy.y == 0 {
                    0i8
                } else {
                    (xy.y - 128) as i8
                },
                ..s
            },
        )
    } else if xy.x == 6 {
        Step::Event(handled, ReaderModel { temporary_operator: Some(xy), ..s })
    } else {
        Step::Failure(ErrorKind::NotSupported, Some(s))
    }
}

/// A sequence (F=3) at index `idx`: a frame over its elements is pushed. A
/// sequence too long for 16-bit indices is a fatal error.
pub open spec fn sequence_step<'a>(s: ReaderModel<'a>, idx: u16, xy: XY, elements: Seq<ResolvedDescriptor<'a>>) -> Step<'a> {
    if elements.len() > u16::MAX {
        Step::Failure(ErrorKind::Fatal, Some(s))
    } else {
        Step::Event(
            EventModel::SequenceStart { idx, xy },
            s.with_frames(s.frames.push(FrameModel::sequence(elements))),
        )
    }
}

/// One step with a frame on the stack.
///
/// A replication whose cursor stands behind its block ends the iteration
/// under way, or starts the next one, or, where none remains, ends. A
/// sequence whose cursor stands behind its elements ends: below the root
/// that is the end of a sequence, at the root the end of the subset or, in a
/// compressed message, of the data. Otherwise the descriptor at the cursor
/// is decoded and the cursor moves on.
pub open spec fn frame_step<'a>(spec: &DataSpec<'a>, s: ReaderModel<'a>) -> Step<'a>
    recommends
        s.frames.len() > 0,
{
    let top = s.frames.last();
    let below = s.frames.drop_last();
    if top.exhausted() {
        match top.kind {
            StackEntryType::Replication { remaining, in_item } => if in_item {
                Step::Event(
                    EventModel::ReplicationItemEnd,
                    s.with_frames(
                        below.push(
                            FrameModel {
                                kind: StackEntryType::Replication { remaining, in_item: false },
                                ..top
                            },
                        ),
                    ),
                )
            } else if remaining > 0 {
                Step::Event(
                    EventModel::ReplicationItemStart,
                    s.with_frames(
                        below.push(
                            FrameModel {
                                next: 0,
                                kind: StackEntryType::Replication {
                                    remaining: (remaining - 1) as u16,
                                    in_item: true,
                                },
                                ..top
                            },
                        ),
                    ),
                )
            } else {
                Step::Event(EventModel::ReplicationEnd, s.with_frames(below))
            },
            StackEntryType::Sequence => Step::Event(
                if below.len() > 0 {
                    EventModel::SequenceEnd
                } else if spec.is_compressed {
                    EventModel::Eof
                } else {
                    EventModel::SubsetEnd
                },
                s.with_frames(below),
            ),
        }
    } else {
        let idx = top.next;
        let advanced = s.with_frames(below.push(FrameModel { next: (top.next + 1) as u16, ..top }));
        match top.descriptors[idx as int] {
            ResolvedDescriptor::Data(entry) => data_step(spec, advanced, idx, *entry),
            ResolvedDescriptor::Replication { y, descriptors, delayed_bits } => replication_step(
                advanced,
                idx,
                y,
                descriptors@,
                delayed_bits,
            ),
            ResolvedDescriptor::Operator(xy) => operator_step(advanced, idx, xy),
            ResolvedDescriptor::Sequence(entry, elements) => sequence_step(advanced, idx, entry.xy, elements@),
        }
    }
}

/// One call of [`DataReader::read_event`].
///
/// With an empty stack the data are at their end where every subset has
/// been started; otherwise the next subset starts, with a frame over the
/// root descriptors. With a frame on the stack, see [`frame_step`].
pub open spec fn step<'a>(spec: &DataSpec<'a>, s: ReaderModel<'a>) -> Step<'a> {
    if s.frames.len() == 0 {
        if s.all_started(spec) {
            Step::Event(EventModel::Eof, s)
        } else if spec.root_descriptors@.len() > u16::MAX {
            Step::Failure(ErrorKind::Fatal, Some(s))
        } else {
            Step::Event(
                if spec.is_compressed {
                    EventModel::CompressedStart
                } else {
                    EventModel::SubsetStart(s.subset_idx)
                },
                ReaderModel {
                    frames: seq![FrameModel::sequence(spec.root_descriptors@)],
                    subset_idx: (s.subset_idx + 1) as u16,
                    ..s
                },
            )
        }
    } else {
        frame_step(spec, s)
    }
}

/// Whether the result `r` of a call and the state `after` it are what
/// `expected` asks for. After a failure that comes without a state nothing
/// is asked of the state.
pub open spec fn meets<'a>(expected: Step<'a>, r: Result<DataEvent, Error>, after: ReaderModel<'a>) -> bool {
    match expected {
        Step::Event(ev, next) => r matches Ok(e) && e@ == ev && after == next,
        Step::Failure(kind, state) => {
            &&& r matches Err(e) && e.kind_of() == kind
            &&& state matches Some(next) ==> after == next
        },
    }
}

/// Where the values of some subsets of a compressed element cannot be read,
/// those of more subsets cannot either.
pub proof fn lemma_take_compressed_fails_on(
    bits: Seq<bool>,
    fewer: nat,
    count: nat,
    nbinc: nat,
    local_ref: nat,
    width: nat,
    reference: int,
    scale: int,
)
    requires
        fewer <= count,
        take_compressed(bits, fewer, nbinc, local_ref, width, reference, scale) is None,
    ensures
        take_compressed(bits, count, nbinc, local_ref, width, reference, scale) is None,
    decreases count,
{
    if fewer < count {
        lemma_take_compressed_fails_on(bits, fewer, (count - 1) as nat, nbinc, local_ref, width, reference, scale);
    }
}

/// The values of a compressed element come one for each subset.
pub proof fn lemma_take_compressed_len(
    bits: Seq<bool>,
    count: nat,
    nbinc: nat,
    local_ref: nat,
    width: nat,
    reference: int,
    scale: int,
)
    ensures
        take_compressed(bits, count, nbinc, local_ref, width, reference, scale) matches Some((values, _))
            ==> values.len() == count,
    decreases count,
{
    if count > 0 {
        lemma_take_compressed_len(bits, (count - 1) as nat, nbinc, local_ref, width, reference, scale);
    }
}

/// The values of a compressed element, subset by subset: the increment of
/// subset `j` is spelled by the `j`-th group of `nbinc` bits, and the value of
/// the subset is that of the local reference plus the increment. The values
/// can be read exactly where there is no subset, or the increments fit in 32
/// bits and the bits suffice for all of them.
pub proof fn lemma_take_compressed_by_index(
    bits: Seq<bool>,
    count: nat,
    nbinc: nat,
    local_ref: nat,
    width: nat,
    reference: int,
    scale: int,
)
    ensures
        take_compressed(bits, count, nbinc, local_ref, width, reference, scale) is Some <==> count == 0 || (
        nbinc <= 32 && count * nbinc <= bits.len()),
        take_compressed(bits, count, nbinc, local_ref, width, reference, scale) matches Some((values, rest))
            ==> {
            &&& values.len() == count
            &&& rest == bits.skip((count * nbinc) as int)
            &&& forall|j: int|
                0 <= j < count ==> #[trigger] values[j] == numeric_value(
                    (local_ref + be_value(bits.subrange(j * nbinc, j * nbinc + nbinc))) as int,
                    width,
                    reference,
                    scale,
                )
        },
    decreases count,
{
    if count == 0 {
        assert(0 * nbinc == 0) by (nonlinear_arith);
    } else {
        let fewer = (count - 1) as nat;
        lemma_take_compressed_by_index(bits, fewer, nbinc, local_ref, width, reference, scale);
        assert(fewer * nbinc + nbinc == count * nbinc) by (nonlinear_arith)
            requires
                fewer + 1 == count,
        ;
        assert(fewer * nbinc >= 0) by (nonlinear_arith);
        if let Some((_, rest)) = take_compressed(bits, fewer, nbinc, local_ref, width, reference, scale) {
            if nbinc <= 32 && rest.len() >= nbinc {
                assert(rest.take(nbinc as int) =~= bits.subrange((fewer * nbinc) as int, (fewer * nbinc + nbinc) as int));
            }
        }
    }
}

/// An uncompressed numeric field is missing exactly where every one of
/// its bits is set; otherwise it is an integer exactly where the effective
/// scale, that of the table plus the offset, is zero, and a decimal exactly
/// where it is not.
pub proof fn lemma_numeric_field<'a>(spec: &DataSpec<'a>, s: ReaderModel<'a>, idx: u16, entry: TableBEntry)
    requires
        !spec.is_compressed,
        effective_width(s, entry) <= 32,
    ensures
        data_step(spec, s, idx, entry) matches Step::Event(event, _) ==> event matches EventModel::Data {
            value,
            ..
        } && {
            &&& value is Missing <==> (forall|i: int| 0 <= i < effective_width(s, entry) ==> s.bits[i])
            &&& value is Integer <==> !(value is Missing) && entry.scale + s.scale_offset == 0
            &&& value is Decimal <==> !(value is Missing) && entry.scale + s.scale_offset != 0
        },
{
    let width = effective_width(s, entry);
    if s.bits.len() >= width {
        let field = s.bits.take(width as int);
        lemma_all_ones_iff_every_bit_set(field);
        if forall|i: int| 0 <= i < width ==> s.bits[i] {
            assert forall|i: int| 0 <= i < field.len() implies field[i] by {
                assert(s.bits[i]);
            }
        }
        if forall|i: int| 0 <= i < field.len() ==> field[i] {
            assert forall|i: int| 0 <= i < width implies s.bits[i] by {
                assert(field[i]);
            }
        }
    }
}

/// Every value of a compressed numeric field is missing, an integer or a
/// decimal, and an integer exactly where it is not missing and the effective
/// scale is zero.
pub proof fn lemma_compressed_field<'a>(spec: &DataSpec<'a>, s: ReaderModel<'a>, idx: u16, entry: TableBEntry)
    ensures
        data_step(spec, s, idx, entry) matches Step::Event(EventModel::CompressedData { values, .. }, _)
            ==> forall|j: int|
            0 <= j < values.len() ==> {
                &&& !((#[trigger] values[j]) is Text)
                &&& values[j] is Integer <==> !(values[j] is Missing) && entry.scale + s.scale_offset == 0
            },
{
    let width = effective_width(s, entry);
    if let Some((local_ref, rest)) = take_uint(s.bits, width, 32) {
        if let Some((nbinc, left)) = take_uint(rest, 6, 8) {
            lemma_take_compressed_by_index(
                left,
                spec.number_of_subsets as nat,
                nbinc,
                local_ref,
                width,
                entry.reference_value as int,
                entry.scale + s.scale_offset,
            );
        }
    }
}

/// Reads the increments of a compressed element, one for each of `count`
/// subsets, and gives the value of each subset.
pub fn read_increments(
    reader: &mut BitSource,
    count: u16,
    nbinc: u32,
    local_ref: u32,
    width: u32,
    reference_value: i32,
    table_scale: i8,
    scale_offset: i8,
) -> (r: Result<Vec<Value>, Error>)
    requires
        width <= 32,
    ensures
        match take_compressed(
            old(reader).unread(),
            count as nat,
            nbinc as nat,
            local_ref as nat,
            width as nat,
            reference_value as int,
            table_scale + scale_offset,
        ) {
            Some((values, rest)) => r matches Ok(v) && value_models(v@) == values && final(reader).unread()
                == rest && v@.len() == count,
            None => r matches Err(e) && e.kind_of() == ErrorKind::Io,
        },
{
    let ghost start = reader.unread();
    let mut values: Vec<Value> = Vec::new();
    let mut i: u16 = 0;
    while i < count
        invariant
            i <= count,
            width <= 32,
            values@.len() == i,
            start == old(reader).unread(),
            take_compressed(
                start,
                i as nat,
                nbinc as nat,
                local_ref as nat,
                width as nat,
                reference_value as int,
                table_scale + scale_offset,
            ) == Some((value_models(values@), reader.unread())),
        decreases count - i,
    {
        let inc = match reader.read(nbinc, 32) {
            Ok(v) => v,
            Err(e) => {
                proof {
                    lemma_take_compressed_fails_on(
                        start,
                        (i + 1) as nat,
                        count as nat,
                        nbinc as nat,
                        local_ref as nat,
                        width as nat,
                        reference_value as int,
                        table_scale + scale_offset,
                    );
                }
                return Err(e);
            },
        };
        let value = Value::numeric(
            local_ref as u64 + inc as u64,
            width,
            reference_value,
            table_scale,
            scale_offset,
        );
        values.push(value);
        i = i + 1;
    }
    Ok(values)
}

/// The value of the local reference of a compressed element, once for each
/// of `count` subsets.
pub fn repeat_value(
    count: u16,
    local_ref: u32,
    width: u32,
    reference_value: i32,
    table_scale: i8,
    scale_offset: i8,
) -> (values: Vec<Value>)
    requires
        width <= 32,
    ensures
        value_models(values@) == Seq::new(
            count as nat,
            |i: int|
                numeric_value(local_ref as int, width as nat, reference_value as int, table_scale + scale_offset),
        ),
        values@.len() == count,
{
    let mut values: Vec<Value> = Vec::new();
    let mut i: u16 = 0;
    while i < count
        invariant
            i <= count,
            width <= 32,
            values@.len() == i,
            forall|k: int|
                0 <= k < i ==> (#[trigger] values@[k])@ == numeric_value(
                    local_ref as int,
                    width as nat,
                    reference_value as int,
                    table_scale + scale_offset,
                ),
        decreases count - i,
    {
        values.push(Value::numeric(local_ref as u64, width, reference_value, table_scale, scale_offset));
        i = i + 1;
    }
    values
}

impl DataSectionHeader {
    /// The header that the first four octets of `data` encode: the length
    /// of the section in three octets, big-endian, then one reserved octet.
    pub open spec fn decoded(data: Seq<u8>) -> DataSectionHeader {
        DataSectionHeader { section_length: (data[0] as int * 65536 + data[1] as int * 256 + data[2] as int) as u32 }
    }

    /// Decodes the header from the start of the data section. Fails with an
    /// I/O error where `data` holds fewer than four octets.
    pub fn read(data: &[u8]) -> (r: Result<DataSectionHeader, Error>)
        ensures
            match r {
                Ok(header) => data@.len() >= 4 && header == DataSectionHeader::decoded(data@),
                Err(e) => data@.len() < 4 && e.kind_of() == ErrorKind::Io,
            },
    {
        if data.len() < 4 {
            return Err(Error::io("unexpected end of data in the data section header"));
        }
        Ok(DataSectionHeader { section_length: three_bytes_to_u32((data[0], data[1], data[2])) })
    }
}

/// How many bits have been read after a step, where `before` it so many
/// had been read and `bits` were left: as many more as the step has taken
/// from the bits. After an I/O error the number is not known any more.
pub open spec fn read_after<'a>(before: Option<nat>, bits: Seq<bool>, outcome: Step<'a>) -> Option<nat> {
    match (before, outcome) {
        (Some(n), Step::Event(_, next)) => Some((n + bits.len() - next.bits.len()) as nat),
        (Some(n), Step::Failure(_, Some(next))) => Some((n + bits.len() - next.bits.len()) as nat),
        _ => None,
    }
}

/// A decoder over the data section of one message.
pub struct DataReader<'a> {
    data_spec: &'a DataSpec<'a>,
    current_subset_idx: u16,
    reader: BitSource<'a>,
    stack: FrameStack<'a>,
    temporary_operator: Option<XY>,
    scale_offset: i8,
    /// The octets behind the header of the section.
    payload_len: usize,
    /// The whole octets and the bits of the next octet that have been read
    /// behind the header; `None` after an I/O error.
    position: Option<(usize, u8)>,
}

impl<'a> View for DataReader<'a> {
    type V = ReaderModel<'a>;

    closed spec fn view(&self) -> ReaderModel<'a> {
        ReaderModel {
            frames: stack_frames(self.stack),
            subset_idx: self.current_subset_idx,
            scale_offset: self.scale_offset,
            temporary_operator: self.temporary_operator,
            bits: unread_bits(self.reader),
        }
    }
}

impl<'a> DataReader<'a> {
    /// The message that this reader decodes.
    pub closed spec fn spec(&self) -> &'a DataSpec<'a> {
        self.data_spec
    }

    /// How many bits the reader has read behind the four octets of the
    /// section header; `None` once a read has failed with an I/O error.
    pub closed spec fn bits_read(&self) -> Option<nat> {
        match self.position {
            Some((octets, bits)) => Some((8 * octets + bits) as nat),
            None => None,
        }
    }

    /// The bits read and the bits left are the bits of the section.
    pub closed spec fn counted(&self) -> bool {
        self.position matches Some((octets, bits)) ==> bits < 8 && 8 * octets + bits + unread_bits(
            self.reader,
        ).len() == 8 * self.payload_len
    }

    /// The invariant of a reader: see [`ReaderModel::well_formed`]; and the
    /// count of the bits read is right.
    pub open spec fn wf(&self) -> bool {
        self@.well_formed(self.spec()) && self.counted()
    }

    /// A reader at the start of the data section `data` of a message
    /// described by `spec`.
    ///
    /// The four octets of the section header are skipped; the length they
    /// give is not used. Fails with an I/O error where `data` holds fewer
    /// than four octets.
    pub fn new(data: &'a [u8], spec: &'a DataSpec<'a>) -> (r: Result<DataReader<'a>, Error>)
        ensures
            match r {
                Ok(reader) => data@.len() >= 4 && reader@ == ReaderModel::initial(bits_of_bytes(data@.skip(4)))
                    && reader.spec() == spec && reader.wf() && reader.bits_read() == Some(0nat),
                Err(e) => data@.len() < 4 && e.kind_of() == ErrorKind::Io,
            },
    {
        let _data_section_header = match DataSectionHeader::read(data) {
            Ok(header) => header,
            Err(e) => {
                return Err(e);
            },
        };
        let payload = slice_subrange(data, 4, data.len());
        Ok(
            DataReader {
                data_spec: spec,
                current_subset_idx: 0,
                reader: BitSource::new(payload),
                stack: stack_new(),
                temporary_operator: None,
                scale_offset: 0,
                payload_len: payload.len(),
                position: Some((0, 0)),
            },
        )
    }

    /// How far the reader has read behind the four octets of the section
    /// header: the whole octets, and the bits of the octet after them; `None`
    /// once a read has failed with an I/O error. The end of the section is
    /// where the length in its header puts it, not where the reading stops.
    pub fn position(&self) -> (r: Option<(usize, u8)>)
        requires
            self.wf(),
        ensures
            match self.bits_read() {
                Some(n) => r matches Some((octets, bits)) && bits < 8 && 8 * octets + bits == n,
                None => r is None,
            },
    {
        self.position
    }

    /// Reads `n` bits as a number that has to fit in `limit` bits, and
    /// counts them; after a failure the count is lost.
    fn take_bits(&mut self, n: u32, limit: u32) -> (r: Result<u32, Error>)
        requires
            limit <= 32,
            old(self).counted(),
        ensures
            final(self).counted(),
            final(self).spec() == old(self).spec(),
            match take_uint(old(self)@.bits, n as nat, limit as nat) {
                Some((v, rest)) => {
                    &&& r matches Ok(x) && x == v && x <= all_ones(n as nat)
                    &&& final(self)@ == old(self)@.with_bits(rest)
                    &&& final(self).bits_read() == match old(self).bits_read() {
                        Some(m) => Some(m + n as nat),
                        None => None,
                    }
                },
                None => {
                    &&& r matches Err(e) && e.kind_of() == ErrorKind::Io
                    &&& final(self)@ == old(self)@.with_bits(final(self)@.bits)
                    &&& final(self).bits_read() is None
                },
            },
    {
        match self.reader.read(n, limit) {
            Ok(v) => {
                self.count_bits(n as u64);
                Ok(v)
            },
            Err(e) => {
                self.position = None;
                Err(e)
            },
        }
    }

    /// Reads `count` whole octets and counts their bits; after a failure
    /// the count is lost.
    fn take_octets(&mut self, count: usize) -> (r: Result<Vec<u8>, Error>)
        requires
            count <= 0xFFFF,
            old(self).counted(),
        ensures
            final(self).counted(),
            final(self).spec() == old(self).spec(),
            match take_octets(old(self)@.bits, count as nat) {
                Some((octets, rest)) => {
                    &&& r matches Ok(v) && v@ == octets
                    &&& final(self)@ == old(self)@.with_bits(rest)
                    &&& final(self).bits_read() == match old(self).bits_read() {
                        Some(m) => Some(m + 8 * count as nat),
                        None => None,
                    }
                },
                None => {
                    &&& r matches Err(e) && e.kind_of() == ErrorKind::Io
                    &&& final(self)@ == old(self)@.with_bits(final(self)@.bits)
                    &&& final(self).bits_read() is None
                },
            },
    {
        match self.reader.read_octets(count) {
            Ok(v) => {
                self.count_bits(8 * count as u64);
                Ok(v)
            },
            Err(e) => {
                self.position = None;
                Err(e)
            },
        }
    }

    /// Counts `n` bits that have just been read.
    fn count_bits(&mut self, n: u64)
        requires
            n <= 0xFFFF_FFFF,
            old(self).position matches Some((octets, bits)) ==> bits < 8 && 8 * octets + bits + n + unread_bits(
                old(self).reader,
            ).len() == 8 * old(self).payload_len,
        ensures
            final(self).counted(),
            final(self)@ == old(self)@,
            final(self).spec() == old(self).spec(),
            final(self).bits_read() == match old(self).bits_read() {
                Some(m) => Some(m + n as nat),
                None => None,
            },
    {
        match self.position {
            Some((octets, bits)) => {
                let total: u64 = bits as u64 + n;
                self.position = Some((octets + (total / 8) as usize, (total % 8) as u8));
            },
            None => {},
        }
    }

    /// Decodes the next event.
    ///
    /// The event and the state after it are those of [`step`]. After the
    /// last subset every call gives `Eof`.
    ///
    /// A list of more than 65535 descriptors is refused with a fatal error
    /// by the call that would enter it; where the root descriptors are so
    /// many, that is the first call. After a fatal or a not-supported error
    /// the state is the one that [`step`] gives with the failure: the cursor
    /// has moved past the descriptor that was refused, the scale offset and a
    /// waiting width operator are as before, and no bit is read but those of a
    /// character field that was refused after it had been read. After an I/O
    /// error nothing is promised of the state but the invariant, and
    /// [`DataReader::position`] gives nothing any more.
    pub fn read_event(&mut self) -> (r: Result<DataEvent, Error>)
        requires
            old(self).wf(),
        ensures
            meets(step(old(self).spec(), old(self)@), r, final(self)@),
            final(self).wf(),
            final(self).spec() == old(self).spec(),
            final(self).bits_read() == read_after(
                old(self).bits_read(),
                old(self)@.bits,
                step(old(self).spec(), old(self)@),
            ),
            r matches Ok(DataEvent::CompressedData { values, .. }) ==> old(self).spec().is_compressed
                && values@.len() == old(self).spec().number_of_subsets,
    {
        if stack_is_empty(&self.stack) {
            if self.data_spec.is_compressed {
                if self.current_subset_idx > 0 {
                    return Ok(DataEvent::Eof);
                }
            } else if self.current_subset_idx == self.data_spec.number_of_subsets {
                return Ok(DataEvent::Eof);
            }
            let roots = self.data_spec.root_descriptors.as_slice();
            if roots.len() > u16::MAX as usize {
                return Err(Error::fatal("Too many descriptors in one list"));
            }
            stack_push(&mut self.stack, StackEntry::new_sequence(roots));
            let subset_idx = self.current_subset_idx;
            self.current_subset_idx += 1;
            assert(self@.frames =~= seq![FrameModel::sequence(self.data_spec.root_descriptors@)]);
            if self.data_spec.is_compressed {
                return Ok(DataEvent::CompressedStart);
            } else {
                return Ok(DataEvent::SubsetStart(subset_idx));
            }
        }
        self.process_next_descriptor()
    }

    fn process_next_descriptor(&mut self) -> (r: Result<DataEvent, Error>)
        requires
            old(self).wf(),
            old(self)@.frames.len() > 0,
        ensures
            meets(frame_step(old(self).spec(), old(self)@), r, final(self)@),
            final(self).wf(),
            final(self).spec() == old(self).spec(),
            final(self).bits_read() == read_after(
                old(self).bits_read(),
                old(self)@.bits,
                frame_step(old(self).spec(), old(self)@),
            ),
            r matches Ok(DataEvent::CompressedData { values, .. }) ==> old(self).spec().is_compressed
                && values@.len() == old(self).spec().number_of_subsets,
    {
        let ghost before = self@;
        let top = stack_pop(&mut self.stack).unwrap();
        let ghost below = before.frames.drop_last();
        assert forall|i: int| 0 <= i < below.len() implies (#[trigger] below[i]).well_formed() by {}
        let len = top.descriptors.len();
        if top.next as usize >= len {
            match top.entry_type {
                StackEntryType::Replication { remaining, in_item } => {
                    if in_item {
                        stack_push(
                            &mut self.stack,
                            StackEntry {
                                descriptors: top.descriptors,
                                next: top.next,
                                entry_type: StackEntryType::Replication { remaining, in_item: false },
                            },
                        );
                        proof {
                            lemma_pushed_well_formed(self@, before, self.spec());
                        }
                        return Ok(DataEvent::ReplicationItemEnd);
                    }
                    if remaining > 0 {
                        stack_push(
                            &mut self.stack,
                            StackEntry {
                                descriptors: top.descriptors,
                                next: 0,
                                entry_type: StackEntryType::Replication {
                                    remaining: remaining - 1,
                                    in_item: true,
                                },
                            },
                        );
                        proof {
                            lemma_pushed_well_formed(self@, before, self.spec());
                        }
                        return Ok(DataEvent::ReplicationItemStart);
                    }
                    return Ok(DataEvent::ReplicationEnd);
                },
                StackEntryType::Sequence => {
                    return if !stack_is_empty(&self.stack) {
                        Ok(DataEvent::SequenceEnd)
                    } else if self.data_spec.is_compressed {
                        Ok(DataEvent::Eof)
                    } else {
                        Ok(DataEvent::SubsetEnd)
                    };
                },
            }
        }
        let descriptors: &'a [ResolvedDescriptor<'a>] = top.descriptors;
        let idx = top.next;
        let current = &descriptors[idx as usize];
        stack_push(
            &mut self.stack,
            StackEntry { descriptors, next: idx + 1, entry_type: top.entry_type },
        );
        proof {
            lemma_pushed_well_formed(self@, before, self.spec());
        }
        match current {
            ResolvedDescriptor::Data(b) => self.handle_data_descriptor(idx, b),
            ResolvedDescriptor::Replication { y, descriptors, delayed_bits } => {
                self.handle_replication_descriptor(idx, *y, descriptors.as_slice(), *delayed_bits)
            },
            ResolvedDescriptor::Operator(xy) => self.handle_operator_descriptor(idx, *xy),
            ResolvedDescriptor::Sequence(d, elements) => self.handle_sequence_descriptor(
                idx,
                d.xy,
                elements.as_slice(),
            ),
        }
    }

    // f = 0
    fn handle_data_descriptor(&mut self, idx: u16, b: &TableBEntry) -> (r: Result<DataEvent, Error>)
        requires
            old(self).wf(),
        ensures
            meets(data_step(old(self).spec(), old(self)@, idx, *b), r, final(self)@),
            final(self).wf(),
            final(self).spec() == old(self).spec(),
            final(self).bits_read() == read_after(
                old(self).bits_read(),
                old(self)@.bits,
                data_step(old(self).spec(), old(self)@, idx, *b),
            ),
            r matches Ok(DataEvent::CompressedData { values, .. }) ==> old(self).spec().is_compressed
                && values@.len() == old(self).spec().number_of_subsets,
    {
        let width: u32 = match self.temporary_operator {
            Some(op) => op.y as u32,
            None => b.bits as u32,
        };
        let compressed = self.data_spec.is_compressed;
        if width <= 32 {
            let first = match self.take_bits(width, 32) {
                Ok(v) => v,
                Err(e) => {
                    return Err(e);
                },
            };
            if !compressed {
                let value = Value::numeric(first as u64, width, b.reference_value, b.scale, self.scale_offset);
                self.temporary_operator = None;
                return Ok(DataEvent::Data { idx, xy: b.xy, value });
            }
            let nbinc = match self.take_bits(6, 8) {
                Ok(v) => v,
                Err(e) => {
                    return Err(e);
                },
            };
            let count = self.data_spec.number_of_subsets;
            let values = if nbinc == 0 {
                // All values are the same if nbinc == 0
                repeat_value(count, first, width, b.reference_value, b.scale, self.scale_offset)
            } else {
                let ghost left = self@.bits;
                match read_increments(
                    &mut self.reader,
                    count,
                    nbinc,
                    first,
                    width,
                    b.reference_value,
                    b.scale,
                    self.scale_offset,
                ) {
                    Ok(values) => {
                        proof {
                            vstd::arithmetic::power2::lemma2_to64();
                            lemma_take_compressed_by_index(
                                left,
                                count as nat,
                                nbinc as nat,
                                first as nat,
                                width as nat,
                                b.reference_value as int,
                                b.scale + self.scale_offset,
                            );
                            assert(count * nbinc <= 65535 * 63) by (nonlinear_arith)
                                requires
                                    count <= 65535,
                                    nbinc <= 63,
                            ;
                        }
                        self.count_bits(count as u64 * nbinc as u64);
                        values
                    },
                    Err(e) => {
                        self.position = None;
                        return Err(e);
                    },
                }
            };
            self.temporary_operator = None;
            Ok(DataEvent::CompressedData { idx, xy: b.xy, values })
        } else if width % 8 == 0 {
            let octets = match self.take_octets((width / 8) as usize) {
                Ok(v) => v,
                Err(e) => {
                    return Err(e);
                },
            };
            let value = match Value::text(octets) {
                Some(v) => v,
                None => {
                    return Err(
                        Error::Fatal(
                            text_with_number("Failed to parse character string with bit width ", width as u64),
                        ),
                    );
                },
            };
            if compressed {
                Err(Error::not_supported("Compressed data for characters not implemented yet"))
            } else {
                self.temporary_operator = None;
                Ok(DataEvent::Data { idx, xy: b.xy, value })
            }
        } else {
            Err(Error::Fatal(text_with_number("Unsupported bit width ", width as u64)))
        }
    }

    // f = 1
    fn handle_replication_descriptor(
        &mut self,
        idx: u16,
        y: u8,
        elements: &'a [ResolvedDescriptor<'a>],
        delayed_bits: u8,
    ) -> (r: Result<DataEvent, Error>)
        requires
            old(self).wf(),
            old(self)@.frames.len() > 0,
        ensures
            meets(replication_step(old(self)@, idx, y, elements@, delayed_bits), r, final(self)@),
            final(self).wf(),
            final(self).spec() == old(self).spec(),
            final(self).bits_read() == read_after(
                old(self).bits_read(),
                old(self)@.bits,
                replication_step(old(self)@, idx, y, elements@, delayed_bits),
            ),
            !(r matches Ok(DataEvent::CompressedData { .. })),
    {
        let ghost before = self@;
        if elements.len() > u16::MAX as usize {
            return Err(Error::fatal("Too many descriptors in one list"));
        }
        let count: u16 = match y {
            0 => match self.take_bits(delayed_bits as u32, 16) {
                Ok(v) => {
                    proof {
                        lemma_all_ones_grows(delayed_bits as nat, 16);
                    }
                    v as u16
                },
                Err(e) => {
                    return Err(e);
                },
            },
            _ => y as u16,
        };
        stack_push(&mut self.stack, StackEntry::new_replication(elements, count));
        proof {
            lemma_pushed_well_formed(self@, before, self.spec());
        }
        Ok(DataEvent::ReplicationStart { idx, count })
    }

    // f = 2
    fn handle_operator_descriptor(&mut self, idx: u16, xy: XY) -> (r: Result<DataEvent, Error>)
        requires
            old(self).wf(),
        ensures
            meets(operator_step(old(self)@, idx, xy), r, final(self)@),
            final(self).wf(),
            final(self).spec() == old(self).spec(),
            final(self).bits_read() == old(self).bits_read(),
            !(r matches Ok(DataEvent::CompressedData { .. })),
    {
        if xy.x == 2 {
            if xy.y == 0 {
                self.scale_offset = 0;
            } else {
                self.scale_offset = (xy.y as i16 - 128) as i8;
            }
        } else if xy.x == 6 {
            self.temporary_operator = Some(xy);
        } else {
            return Err(Error::NotSupported(operator_message(xy)));
        }
        Ok(DataEvent::OperatorHandled { idx, x: xy.x, value: xy.y as i32 })
    }

    // f = 3
    fn handle_sequence_descriptor(
        &mut self,
        idx: u16,
        xy: XY,
        elements: &'a [ResolvedDescriptor<'a>],
    ) -> (r: Result<DataEvent, Error>)
        requires
            old(self).wf(),
            old(self)@.frames.len() > 0,
        ensures
            meets(sequence_step(old(self)@, idx, xy, elements@), r, final(self)@),
            final(self).wf(),
            final(self).spec() == old(self).spec(),
            final(self).bits_read() == old(self).bits_read(),
            !(r matches Ok(DataEvent::CompressedData { .. })),
    {
        let ghost before = self@;
        if elements.len() > u16::MAX as usize {
            return Err(Error::fatal("Too many descriptors in one list"));
        }
        stack_push(&mut self.stack, StackEntry::new_sequence(elements));
        proof {
            lemma_pushed_well_formed(self@, before, self.spec());
        }
        Ok(DataEvent::SequenceStart { idx, xy })
    }
}

/// The message of an operator that is not supported: the operator with its
/// X and Y in decimal digits, one to a line.
pub open spec fn operator_message_text(xy: XY) -> Seq<char> {
    "Operator descriptor XY {\n    x: "@ + decimal_digits(xy.x as nat) + ",\n    y: "@ + decimal_digits(
        xy.y as nat,
    ) + ",\n} not supported yet."@
}

/// The message of an operator that is not supported.
fn operator_message(xy: XY) -> (s: String)
    ensures
        s@ == operator_message_text(xy),
{
    let mut s = text_with_number("Operator descriptor XY {\n    x: ", xy.x as u64);
    s.append(",\n    y: ");
    append_decimal(&mut s, xy.y as u64);
    s.append(",\n} not supported yet.");
    s
}

/// A stack stays well formed where a well-formed frame is pushed on frames
/// that were well formed.
proof fn lemma_pushed_well_formed<'a>(after: ReaderModel<'a>, before: ReaderModel<'a>, spec: &DataSpec<'a>)
    requires
        after.frames.len() > 0,
        after.frames.last().well_formed(),
        forall|i: int| 0 <= i < after.frames.len() - 1 ==> (#[trigger] after.frames[i]).well_formed(),
        after.frames[0].kind == StackEntryType::Sequence,
        after.subset_idx == before.subset_idx,
        before.frames.len() > 0,
        before.well_formed(spec),
    ensures
        after.well_formed(spec),
{
}

/// A wider field has a larger greatest number.
pub proof fn lemma_all_ones_grows(narrow: nat, wide: nat)
    requires
        narrow <= wide,
    ensures
        all_ones(narrow) <= all_ones(wide),
{
    vstd::arithmetic::power2::lemma_pow2_pos(narrow);
    if narrow < wide {
        vstd::arithmetic::power2::lemma_pow2_strictly_increases(narrow, wide);
    }
}

} // verus!
