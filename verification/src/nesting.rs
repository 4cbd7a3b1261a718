//! How the events of a reader nest.
//!
//! Subsets, sequences, replications and the iterations of a replication
//! open and close like brackets. [`after_event`] is the one rule of that
//! bracketing; the lemmas of this module prove that every event that a
//! reader gives obeys it, and that nothing is left open at the end of the
//! data.
use crate::bits::take_uint;
use crate::descriptor::ResolvedDescriptor;
use crate::reader::{
    data_step, effective_width, frame_step, lemma_take_compressed_len, step, take_compressed,
    DataSpec, EventModel, ReaderModel, Step,
};
use crate::stack::{FrameModel, StackEntryType};
use crate::tables::TableBEntry;
use vstd::prelude::*;

verus! {

/// Something that an event has opened and no event has closed yet.
pub enum Open {
    /// A subset, opened by `SubsetStart`.
    Subset,
    /// The one virtual subset of a compressed message, opened by
    /// `CompressedStart`.
    Compressed,
    /// A sequence, opened by `SequenceStart`.
    Sequence,
    /// A replication, opened by `ReplicationStart`, of which `remaining`
    /// iterations are still to be started.
    Replication { remaining: u16 },
    /// An iteration of the replication below it, opened by
    /// `ReplicationItemStart`.
    Item,
}

/// Whether content may stand here: inside a subset, and not directly inside
/// a replication, where only iterations stand.
pub open spec fn takes_content(open: Seq<Open>) -> bool {
    open.len() > 0 && !(open.last() is Replication)
}

/// What is open after `event`, given what was `open` before it; `None`
/// where the event may not stand there.
///
/// A subset starts only where nothing is open and ends only where nothing
/// but it is open. A sequence ends only where it is the innermost thing open,
/// and so does an iteration. A replication of `count` iterations starts with
/// `count` iterations to go; an iteration starts only directly inside a
/// replication that has one to go, and takes it; the replication ends only
/// where it has none to go. Values, operators, sequences and replications
/// stand only where content may stand, values of one subset only in an
/// uncompressed message, values of all subsets only in a compressed one.
/// The data end only where nothing is open but, at most, the virtual subset of
/// a compressed message.
pub open spec fn after_event(open: Seq<Open>, event: EventModel) -> Option<Seq<Open>> {
    match event {
        EventModel::SubsetStart(_) => if open.len() == 0 {
            Some(seq![Open::Subset])
        } else {
            None
        },
        EventModel::CompressedStart => if open.len() == 0 {
            Some(seq![Open::Compressed])
        } else {
            None
        },
        EventModel::SubsetEnd => if open.len() == 1 && open[0] is Subset {
            Some(Seq::empty())
        } else {
            None
        },
        EventModel::Eof => if open.len() == 0 || (open.len() == 1 && open[0] is Compressed) {
            Some(Seq::empty())
        } else {
            None
        },
        EventModel::SequenceStart { .. } => if takes_content(open) {
            Some(open.push(Open::Sequence))
        } else {
            None
        },
        EventModel::SequenceEnd => if open.len() > 0 && open.last() is Sequence {
            Some(open.drop_last())
        } else {
            None
        },
        EventModel::ReplicationStart { count, .. } => if takes_content(open) {
            Some(open.push(Open::Replication { remaining: count }))
        } else {
            None
        },
        EventModel::ReplicationItemStart => if open.len() > 0 && open.last() is Replication
            && open.last()->remaining > 0 {
            Some(
                open.drop_last().push(
                    Open::Replication { remaining: (open.last()->remaining - 1) as u16 },
                ).push(Open::Item),
            )
        } else {
            None
        },
        EventModel::ReplicationItemEnd => if open.len() > 0 && open.last() is Item {
            Some(open.drop_last())
        } else {
            None
        },
        EventModel::ReplicationEnd => if open.len() > 0 && open.last() is Replication
            && open.last()->remaining == 0 {
            Some(open.drop_last())
        } else {
            None
        },
        EventModel::Data { .. } => if takes_content(open) && open[0] is Subset {
            Some(open)
        } else {
            None
        },
        EventModel::CompressedData { .. } => if takes_content(open) && open[0] is Compressed {
            Some(open)
        } else {
            None
        },
        EventModel::OperatorHandled { .. } => if takes_content(open) {
            Some(open)
        } else {
            None
        },
    }
}

/// What is open after a run of events that starts with nothing open;
/// `None` where one of the events may not stand where it does.
pub open spec fn nesting_after(events: Seq<EventModel>) -> Option<Seq<Open>>
    decreases events.len(),
{
    if events.len() == 0 {
        Some(Seq::empty())
    } else {
        match nesting_after(events.drop_last()) {
            None => None,
            Some(open) => after_event(open, events.last()),
        }
    }
}

/// What the bottom frame of a stack holds open.
pub open spec fn root_bracket(compressed: bool) -> Open {
    if compressed {
        Open::Compressed
    } else {
        Open::Subset
    }
}

/// What one frame holds open: the bottom frame a subset, a frame of a
/// sequence above it that sequence, a frame of a replication that
/// replication and, while one is under way, its iteration.
pub open spec fn open_by_frame(compressed: bool, frame: FrameModel, bottom: bool) -> Seq<Open> {
    match frame.kind {
        StackEntryType::Sequence => if bottom {
            seq![root_bracket(compressed)]
        } else {
            seq![Open::Sequence]
        },
        StackEntryType::Replication { remaining, in_item } => if in_item {
            seq![Open::Replication { remaining }, Open::Item]
        } else {
            seq![Open::Replication { remaining }]
        },
    }
}

/// What a stack of frames holds open, outermost first.
pub open spec fn open_by(compressed: bool, frames: Seq<FrameModel>) -> Seq<Open>
    decreases frames.len(),
{
    if frames.len() == 0 {
        Seq::empty()
    } else {
        open_by(compressed, frames.drop_last()) + open_by_frame(compressed, frames.last(), frames.len() == 1)
    }
}

/// The events of `calls` calls in a row from the state `s`, and the state
/// after them; `None` where one of the calls fails.
pub open spec fn run<'a>(spec: &DataSpec<'a>, s: ReaderModel<'a>, calls: nat) -> Option<
    (Seq<EventModel>, ReaderModel<'a>),
>
    decreases calls,
{
    if calls == 0 {
        Some((Seq::empty(), s))
    } else {
        match run(spec, s, (calls - 1) as nat) {
            None => None,
            Some((events, reached)) => match step(spec, reached) {
                Step::Failure(..) => None,
                Step::Event(event, next) => Some((events.push(event), next)),
            },
        }
    }
}

/// A stack with a frame on top holds open what the stack below holds open
/// and what the frame holds open.
pub proof fn lemma_open_by_push(compressed: bool, below: Seq<FrameModel>, top: FrameModel)
    ensures
        open_by(compressed, below.push(top)) == open_by(compressed, below) + open_by_frame(
            compressed,
            top,
            below.len() == 0,
        ),
{
    assert(below.push(top).drop_last() =~= below);
}

/// A stack whose bottom frame is that of the root holds the subset open,
/// outermost.
pub proof fn lemma_open_by_root(compressed: bool, frames: Seq<FrameModel>)
    requires
        frames.len() > 0,
        frames[0].kind == StackEntryType::Sequence,
    ensures
        open_by(compressed, frames).len() > 0,
        open_by(compressed, frames)[0] == root_bracket(compressed),
    decreases frames.len(),
{
    if frames.len() > 1 {
        lemma_open_by_root(compressed, frames.drop_last());
    } else {
        assert(open_by(compressed, frames.drop_last()) =~= Seq::<Open>::empty());
    }
}

/// A step keeps the state well formed.
pub proof fn lemma_step_keeps_well_formed<'a>(spec: &DataSpec<'a>, s: ReaderModel<'a>)
    requires
        s.well_formed(spec),
    ensures
        step(spec, s) matches Step::Event(_, next) ==> next.well_formed(spec),
{
    if s.frames.len() > 0 {
        let below = s.frames.drop_last();
        assert forall|i: int| 0 <= i < below.len() implies (#[trigger] below[i]).well_formed() by {}
        if let Step::Event(_, next) = step(spec, s) {
            assert forall|i: int| 0 <= i < next.frames.len() implies (#[trigger] next.frames[i]).well_formed() by {}
        }
    }
}

/// Every event that a step gives may stand where it does: what is open
/// after the step is what [`after_event`] gives for what was open before it.
pub proof fn lemma_step_obeys_nesting<'a>(spec: &DataSpec<'a>, s: ReaderModel<'a>)
    requires
        s.well_formed(spec),
    ensures
        step(spec, s) matches Step::Event(event, next) ==> after_event(
            open_by(spec.is_compressed, s.frames),
            event,
        ) == Some(open_by(spec.is_compressed, next.frames)),
{
    if s.frames.len() == 0 {
        lemma_open_by_push(spec.is_compressed, Seq::empty(), FrameModel::sequence(spec.root_descriptors@));
    } else {
        lemma_frame_step_obeys_nesting(spec, s);
    }
}

/// [`lemma_step_obeys_nesting`] for a state with a frame on the stack.
proof fn lemma_frame_step_obeys_nesting<'a>(spec: &DataSpec<'a>, s: ReaderModel<'a>)
    requires
        s.well_formed(spec),
        s.frames.len() > 0,
    ensures
        frame_step(spec, s) matches Step::Event(event, next) ==> after_event(
            open_by(spec.is_compressed, s.frames),
            event,
        ) == Some(open_by(spec.is_compressed, next.frames)),
{
    let compressed = spec.is_compressed;
    let top = s.frames.last();
    let below = s.frames.drop_last();
    let bottom = below.len() == 0;
    let before = open_by(compressed, s.frames);
    lemma_open_by_push(compressed, below, top);
    lemma_open_by_root(compressed, s.frames);
    if !bottom {
        lemma_open_by_root(compressed, below);
    }
    if let Step::Event(event, next) = frame_step(spec, s) {
        if top.exhausted() {
            if let StackEntryType::Replication { remaining, in_item } = top.kind {
                if in_item {
                    let ended = FrameModel {
                        kind: StackEntryType::Replication { remaining, in_item: false },
                        ..top
                    };
                    lemma_open_by_push(compressed, below, ended);
                } else if remaining > 0 {
                    let started = FrameModel {
                        next: 0,
                        kind: StackEntryType::Replication { remaining: (remaining - 1) as u16, in_item: true },
                        ..top
                    };
                    lemma_open_by_push(compressed, below, started);
                }
            }
        } else {
            let moved = FrameModel { next: (top.next + 1) as u16, ..top };
            let advanced = s.with_frames(below.push(moved));
            lemma_open_by_push(compressed, below, moved);
            assert(takes_content(before));
            match top.descriptors[top.next as int] {
                ResolvedDescriptor::Replication { descriptors, .. } => {
                    let count = event->ReplicationStart_count;
                    lemma_open_by_push(compressed, advanced.frames, FrameModel::replication(descriptors@, count));
                },
                ResolvedDescriptor::Sequence(_, elements) => {
                    lemma_open_by_push(compressed, advanced.frames, FrameModel::sequence(elements@));
                },
                _ => {},
            }
        }
    }
}

/// The events of a reader nest: after any number of calls from a new
/// reader, every event stood where it may stand, and what the events have
/// left open is what the stack of the reader holds open.
///
/// So a subset, a sequence or an iteration that has started ends before
/// anything around it does, and a replication of `count` iterations ends
/// after exactly `count` of them.
pub proof fn lemma_events_nest<'a>(spec: &DataSpec<'a>, bits: Seq<bool>, calls: nat)
    ensures
        run(spec, ReaderModel::initial(bits), calls) matches Some((events, reached)) ==> {
            &&& reached.well_formed(spec)
            &&& events.len() == calls
            &&& nesting_after(events) == Some(open_by(spec.is_compressed, reached.frames))
        },
    decreases calls,
{
    let start = ReaderModel::<'a>::initial(bits);
    if calls > 0 {
        lemma_events_nest(spec, bits, (calls - 1) as nat);
        if let Some((events, reached)) = run(spec, start, (calls - 1) as nat) {
            lemma_step_keeps_well_formed(spec, reached);
            lemma_step_obeys_nesting(spec, reached);
            if let Step::Event(event, next) = step(spec, reached) {
                assert(events.push(event).drop_last() =~= events);
            }
        }
    }
}

/// Where the last event of a new reader is the end of the data, nothing
/// is open: every subset, sequence, replication and iteration that has started
/// has ended.
pub proof fn lemma_nothing_open_at_eof<'a>(spec: &DataSpec<'a>, bits: Seq<bool>, calls: nat)
    ensures
        run(spec, ReaderModel::initial(bits), calls) matches Some((events, reached)) ==> (calls > 0
            && events.last() is Eof ==> nesting_after(events) == Some(Seq::<Open>::empty())
            && reached.frames.len() == 0),
{
    lemma_events_nest(spec, bits, calls);
    if let Some((events, reached)) = run(spec, ReaderModel::<'a>::initial(bits), calls) {
        if calls > 0 && events.last() is Eof {
            if reached.frames.len() > 0 {
                lemma_open_by_root(spec.is_compressed, reached.frames);
            }
        }
    }
}

/// After the end of the data every further call gives the end of the data
/// again and leaves the state as it is.
pub proof fn lemma_eof_repeats<'a>(spec: &DataSpec<'a>, s: ReaderModel<'a>)
    requires
        s.well_formed(spec),
        step(spec, s) matches Step::Event(event, _) && event is Eof,
    ensures
        step(spec, s) matches Step::Event(_, next) && step(spec, next) == Step::Event(EventModel::Eof, next),
{
}

/// The first event of a new reader starts the first subset, or the one
/// virtual subset of a compressed message; where an uncompressed message has
/// no subset, it is the end of the data.
pub proof fn lemma_first_event<'a>(spec: &DataSpec<'a>, bits: Seq<bool>)
    requires
        spec.root_descriptors@.len() <= u16::MAX,
    ensures
        step(spec, ReaderModel::initial(bits)) matches Step::Event(event, _) && event == (if spec.is_compressed {
            EventModel::CompressedStart
        } else if spec.number_of_subsets > 0 {
            EventModel::SubsetStart(0)
        } else {
            EventModel::Eof
        }),
{
}

/// A replication without iterations ends with the very next event.
pub proof fn lemma_empty_replication_ends_at_once<'a>(spec: &DataSpec<'a>, s: ReaderModel<'a>)
    requires
        s.well_formed(spec),
        step(spec, s) matches Step::Event(event, _) && event matches EventModel::ReplicationStart {
            count,
            ..
        } && count == 0,
    ensures
        step(spec, s) matches Step::Event(_, next) && step(spec, next) matches Step::Event(event, after)
            && event is ReplicationEnd && after.frames == next.frames.drop_last(),
{
}

/// Whether `rest` is what is left of `bits` after some of them, from the
/// front, have been read.
pub open spec fn is_rest_of(rest: Seq<bool>, bits: Seq<bool>) -> bool {
    rest.len() <= bits.len() && rest == bits.skip(bits.len() - rest.len())
}

/// What is left after reading from what was left is left of the whole.
proof fn lemma_rest_of_rest(last: Seq<bool>, rest: Seq<bool>, bits: Seq<bool>)
    requires
        is_rest_of(last, rest),
        is_rest_of(rest, bits),
    ensures
        is_rest_of(last, bits),
{
    assert(last =~= bits.skip(bits.len() - last.len()));
}

/// The values of a compressed element are read from the front of the bits.
proof fn lemma_take_compressed_reads_forward(
    bits: Seq<bool>,
    count: nat,
    nbinc: nat,
    local_ref: nat,
    width: nat,
    reference: int,
    scale: int,
)
    ensures
        take_compressed(bits, count, nbinc, local_ref, width, reference, scale) matches Some((_, rest))
            ==> is_rest_of(rest, bits),
    decreases count,
{
    if count == 0 {
        assert(bits =~= bits.skip(0));
    } else {
        lemma_take_compressed_reads_forward(bits, (count - 1) as nat, nbinc, local_ref, width, reference, scale);
        if let Some((_, rest)) = take_compressed(
            bits,
            (count - 1) as nat,
            nbinc,
            local_ref,
            width,
            reference,
            scale,
        ) {
            if let Some((_, last)) = take_uint(rest, nbinc, 32) {
                lemma_rest_of_rest(last, rest, bits);
            }
        }
    }
}

/// A step reads its bits from the front of those that are left: what is
/// left after it is a rest of what was left before it. Only elements and the
/// counts of delayed replications read bits at all.
pub proof fn lemma_step_reads_forward<'a>(spec: &DataSpec<'a>, s: ReaderModel<'a>)
    ensures
        step(spec, s) matches Step::Event(event, next) ==> {
            &&& is_rest_of(next.bits, s.bits)
            &&& !(event is Data || event is CompressedData || event is ReplicationStart) ==> next.bits
                == s.bits
        },
{
    assert(s.bits =~= s.bits.skip(0));
    if s.frames.len() > 0 && !s.frames.last().exhausted() {
        let top = s.frames.last();
        let moved = FrameModel { next: (top.next + 1) as u16, ..top };
        let advanced = s.with_frames(s.frames.drop_last().push(moved));
        if let ResolvedDescriptor::Data(entry) = top.descriptors[top.next as int] {
            lemma_data_step_reads_forward(spec, advanced, top.next, *entry);
        }
    }
}

/// [`lemma_step_reads_forward`] for an element.
proof fn lemma_data_step_reads_forward<'a>(spec: &DataSpec<'a>, s: ReaderModel<'a>, idx: u16, entry: TableBEntry)
    ensures
        data_step(spec, s, idx, entry) matches Step::Event(_, next) ==> is_rest_of(next.bits, s.bits),
{
    let width = effective_width(s, entry);
    if width <= 32 && spec.is_compressed {
        if let Some((local_ref, rest)) = take_uint(s.bits, width, 32) {
            if let Some((nbinc, left)) = take_uint(rest, 6, 8) {
                lemma_rest_of_rest(left, rest, s.bits);
                if nbinc != 0 {
                    let count = spec.number_of_subsets as nat;
                    let reference = entry.reference_value as int;
                    let scale = entry.scale + s.scale_offset;
                    lemma_take_compressed_reads_forward(left, count, nbinc, local_ref, width, reference, scale);
                    if let Some((_, last)) = take_compressed(left, count, nbinc, local_ref, width, reference, scale) {
                        lemma_rest_of_rest(last, left, s.bits);
                    }
                }
            }
        }
    }
}

/// How often a run of events starts and ends each kind of thing, and how
/// many iterations its replications announce.
pub struct Census {
    pub subsets_started: int,
    pub subsets_ended: int,
    pub sequences_started: int,
    pub sequences_ended: int,
    pub replications_started: int,
    pub replications_ended: int,
    pub items_started: int,
    pub items_ended: int,
    /// The sum of the counts of the `ReplicationStart` events.
    pub iterations_announced: int,
}

/// How many things of each kind are open, and how many iterations the open
/// replications have to go.
pub struct Held {
    pub subsets: int,
    pub sequences: int,
    pub replications: int,
    pub items: int,
    pub iterations_to_go: int,
}

impl Census {
    /// The census of no events.
    pub open spec fn zero() -> Census {
        Census {
            subsets_started: 0,
            subsets_ended: 0,
            sequences_started: 0,
            sequences_ended: 0,
            replications_started: 0,
            replications_ended: 0,
            items_started: 0,
            items_ended: 0,
            iterations_announced: 0,
        }
    }

    /// This census with one more event.
    pub open spec fn with(self, event: EventModel) -> Census {
        match event {
            EventModel::SubsetStart(_) => Census { subsets_started: self.subsets_started + 1, ..self },
            EventModel::SubsetEnd => Census { subsets_ended: self.subsets_ended + 1, ..self },
            EventModel::SequenceStart { .. } => Census { sequences_started: self.sequences_started + 1, ..self },
            EventModel::SequenceEnd => Census { sequences_ended: self.sequences_ended + 1, ..self },
            EventModel::ReplicationStart { count, .. } => Census {
                replications_started: self.replications_started + 1,
                iterations_announced: self.iterations_announced + count,
                ..self
            },
            EventModel::ReplicationEnd => Census { replications_ended: self.replications_ended + 1, ..self },
            EventModel::ReplicationItemStart => Census { items_started: self.items_started + 1, ..self },
            EventModel::ReplicationItemEnd => Census { items_ended: self.items_ended + 1, ..self },
            _ => self,
        }
    }

    /// The census of a run of events.
    pub open spec fn of(events: Seq<EventModel>) -> Census
        decreases events.len(),
    {
        if events.len() == 0 {
            Census::zero()
        } else {
            Census::of(events.drop_last()).with(events.last())
        }
    }
}

impl Held {
    /// Nothing open.
    pub open spec fn nothing() -> Held {
        Held { subsets: 0, sequences: 0, replications: 0, items: 0, iterations_to_go: 0 }
    }

    /// This count with one more thing open.
    pub open spec fn with(self, bracket: Open) -> Held {
        match bracket {
            Open::Subset => Held { subsets: self.subsets + 1, ..self },
            Open::Compressed => self,
            Open::Sequence => Held { sequences: self.sequences + 1, ..self },
            Open::Replication { remaining } => Held {
                replications: self.replications + 1,
                iterations_to_go: self.iterations_to_go + remaining,
                ..self
            },
            Open::Item => Held { items: self.items + 1, ..self },
        }
    }

    /// The count of what is open.
    pub open spec fn of(open: Seq<Open>) -> Held
        decreases open.len(),
    {
        if open.len() == 0 {
            Held::nothing()
        } else {
            Held::of(open.drop_last()).with(open.last())
        }
    }
}

/// Whether a census of events accounts for what is left open: of each kind
/// as many more have started than ended as are open, and the iterations
/// announced are those started and those still to go.
pub open spec fn accounts_for(census: Census, held: Held) -> bool {
    &&& census.subsets_started - census.subsets_ended == held.subsets
    &&& census.sequences_started - census.sequences_ended == held.sequences
    &&& census.replications_started - census.replications_ended == held.replications
    &&& census.items_started - census.items_ended == held.items
    &&& census.iterations_announced - census.items_started == held.iterations_to_go
}

/// One more thing open counts as that thing.
proof fn lemma_held_push(open: Seq<Open>, bracket: Open)
    ensures
        Held::of(open.push(bracket)) == Held::of(open).with(bracket),
{
    assert(open.push(bracket).drop_last() =~= open);
}

/// An event that may stand where it does keeps the account.
proof fn lemma_event_keeps_account(census: Census, open: Seq<Open>, event: EventModel)
    requires
        accounts_for(census, Held::of(open)),
        after_event(open, event) is Some,
    ensures
        accounts_for(census.with(event), Held::of(after_event(open, event)->0)),
{
    match event {
        EventModel::SubsetStart(_) => {
            lemma_held_push(open, Open::Subset);
            assert(seq![Open::Subset] =~= open.push(Open::Subset));
        },
        EventModel::CompressedStart => {
            lemma_held_push(open, Open::Compressed);
            assert(seq![Open::Compressed] =~= open.push(Open::Compressed));
        },
        EventModel::SubsetEnd => {
            assert(open.drop_last() =~= Seq::<Open>::empty());
        },
        EventModel::Eof => {
            if open.len() == 1 {
                assert(open.drop_last() =~= Seq::<Open>::empty());
            }
        },
        EventModel::SequenceStart { .. } => {
            lemma_held_push(open, Open::Sequence);
        },
        EventModel::ReplicationStart { count, .. } => {
            lemma_held_push(open, Open::Replication { remaining: count });
        },
        EventModel::ReplicationItemStart => {
            let fewer = Open::Replication { remaining: (open.last()->remaining - 1) as u16 };
            lemma_held_push(open.drop_last(), fewer);
            lemma_held_push(open.drop_last().push(fewer), Open::Item);
        },
        _ => {},
    }
}

/// The census of a run of events that nest accounts for what they leave
/// open.
pub proof fn lemma_census_accounts(events: Seq<EventModel>)
    requires
        nesting_after(events) is Some,
    ensures
        accounts_for(Census::of(events), Held::of(nesting_after(events)->0)),
    decreases events.len(),
{
    if events.len() > 0 {
        lemma_census_accounts(events.drop_last());
        lemma_event_keeps_account(
            Census::of(events.drop_last()),
            nesting_after(events.drop_last())->0,
            events.last(),
        );
    }
}

/// Where the last event of a new reader is the end of the data, as many
/// subsets, sequences, replications and iterations have ended as have
/// started, and the iterations are as many as the replications announced.
pub proof fn lemma_starts_match_ends_at_eof<'a>(spec: &DataSpec<'a>, bits: Seq<bool>, calls: nat)
    ensures
        run(spec, ReaderModel::initial(bits), calls) matches Some((events, _)) ==> (calls > 0
            && events.last() is Eof ==> {
            let census = Census::of(events);
            &&& census.subsets_started == census.subsets_ended
            &&& census.sequences_started == census.sequences_ended
            &&& census.replications_started == census.replications_ended
            &&& census.items_started == census.items_ended
            &&& census.iterations_announced == census.items_started
        }),
{
    lemma_nothing_open_at_eof(spec, bits, calls);
    if let Some((events, _)) = run(spec, ReaderModel::<'a>::initial(bits), calls) {
        if calls > 0 && events.last() is Eof {
            lemma_census_accounts(events);
        }
    }
}

/// The subsets of an uncompressed message start in order: every
/// `SubsetStart` carries the number of subsets that have started before it,
/// which is below the number of subsets; as many subsets have started as the
/// state counts; and where the last event is the end of the data, every
/// subset has started. A compressed message has no `SubsetStart`.
pub proof fn lemma_subsets_are_numbered<'a>(spec: &DataSpec<'a>, bits: Seq<bool>, calls: nat)
    ensures
        run(spec, ReaderModel::initial(bits), calls) matches Some((events, reached)) ==> {
            &&& Census::of(events).subsets_started == if spec.is_compressed {
                0
            } else {
                reached.subset_idx as int
            }
            &&& forall|i: int|
                0 <= i < events.len() ==> ((#[trigger] events[i]) matches EventModel::SubsetStart(k) ==> k
                    == Census::of(events.take(i)).subsets_started && k < spec.number_of_subsets)
            &&& !spec.is_compressed && calls > 0 && events.last() is Eof ==> Census::of(
                events,
            ).subsets_started == spec.number_of_subsets
        },
    decreases calls,
{
    let start = ReaderModel::<'a>::initial(bits);
    if calls > 0 {
        lemma_subsets_are_numbered(spec, bits, (calls - 1) as nat);
        lemma_events_nest(spec, bits, (calls - 1) as nat);
        if let Some((before, reached)) = run(spec, start, (calls - 1) as nat) {
            if let Step::Event(event, next) = step(spec, reached) {
                let events = before.push(event);
                assert(events.drop_last() =~= before);
                assert forall|i: int| 0 <= i < events.len() implies ((#[trigger] events[i]) matches EventModel::SubsetStart(
                    k,
                ) ==> k == Census::of(events.take(i)).subsets_started && k < spec.number_of_subsets) by {
                    if i < before.len() {
                        assert(events.take(i) =~= before.take(i));
                        assert(events[i] == before[i]);
                    } else {
                        assert(events.take(i) =~= before);
                    }
                }
            }
        }
    }
}

/// The values of a compressed element come one for each subset, and only a
/// compressed message has them; the values of one subset come only in an
/// uncompressed message.
pub proof fn lemma_compressed_values_count<'a>(spec: &DataSpec<'a>, s: ReaderModel<'a>)
    ensures
        step(spec, s) matches Step::Event(EventModel::CompressedData { values, .. }, _)
            ==> spec.is_compressed && values.len() == spec.number_of_subsets,
        step(spec, s) matches Step::Event(EventModel::Data { .. }, _) ==> !spec.is_compressed,
{
    if s.frames.len() > 0 && !s.frames.last().exhausted() {
        let top = s.frames.last();
        let moved = FrameModel { next: (top.next + 1) as u16, ..top };
        let advanced = s.with_frames(s.frames.drop_last().push(moved));
        if let ResolvedDescriptor::Data(entry) = top.descriptors[top.next as int] {
            let width = effective_width(advanced, *entry);
            if let Some((local_ref, rest)) = take_uint(advanced.bits, width, 32) {
                if let Some((nbinc, left)) = take_uint(rest, 6, 8) {
                    lemma_take_compressed_len(
                        left,
                        spec.number_of_subsets as nat,
                        nbinc,
                        local_ref,
                        width,
                        entry.reference_value as int,
                        entry.scale + advanced.scale_offset,
                    );
                }
            }
        }
    }
}

} // verus!
