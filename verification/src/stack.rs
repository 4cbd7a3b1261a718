//! The traversal stack of the decoder.
//!
//! The frames live in a `smallvec::SmallVec` with room for eight of them
//! before it allocates. What the crate assumes of it is stated over
//! [`stack_frames`], the frames that a stack holds, bottom first.
use crate::descriptor::ResolvedDescriptor;
use vstd::prelude::*;

verus! {

/// What tells the two kinds of frame apart.
#[derive(Debug, Clone, Copy, PartialEq, Eq, Structural)]
pub enum StackEntryType {
    /// The elements of a sequence, or the root descriptors of a subset.
    Sequence,
    /// The block of a replication: `remaining` iterations are still to be
    /// started, and `in_item` holds while one is under way.
    Replication { remaining: u16, in_item: bool },
}

/// One frame: a list of descriptors and a cursor into it.
#[derive(Debug)]
pub struct StackEntry<'a> {
    pub descriptors: &'a [ResolvedDescriptor<'a>],
    /// Index of the descriptor to decode next.
    pub next: u16,
    pub entry_type: StackEntryType,
}

/// What a frame holds, as mathematics.
pub struct FrameModel<'a> {
    pub descriptors: Seq<ResolvedDescriptor<'a>>,
    pub next: u16,
    pub kind: StackEntryType,
}

impl<'a> FrameModel<'a> {
    /// A frame at the start of a sequence.
    pub open spec fn sequence(descriptors: Seq<ResolvedDescriptor<'a>>) -> FrameModel<'a> {
        FrameModel { descriptors, next: 0, kind: StackEntryType::Sequence }
    }

    /// A frame of a replication of `count` iterations, none started yet: the
    /// cursor stands behind the block, so that the next step starts the first
    /// iteration or, where there is none, ends the replication.
    pub open spec fn replication(descriptors: Seq<ResolvedDescriptor<'a>>, count: u16) -> FrameModel<'a> {
        FrameModel {
            descriptors,
            next: descriptors.len() as u16,
            kind: StackEntryType::Replication { remaining: count, in_item: false },
        }
    }

    /// The cursor is inside the list or just behind it, every index fits in
    /// 16 bits, and a replication between two iterations has its cursor
    /// behind the block.
    pub open spec fn well_formed(&self) -> bool {
        &&& self.next <= self.descriptors.len() <= u16::MAX
        &&& self.kind matches StackEntryType::Replication { in_item, .. } ==> in_item || self.next
            == self.descriptors.len()
    }

    /// Whether the cursor stands behind the last descriptor.
    pub open spec fn exhausted(&self) -> bool {
        self.next >= self.descriptors.len()
    }
}

impl<'a> View for StackEntry<'a> {
    type V = FrameModel<'a>;

    open spec fn view(&self) -> FrameModel<'a> {
        FrameModel { descriptors: self.descriptors@, next: self.next, kind: self.entry_type }
    }
}

impl<'a> StackEntry<'a> {
    /// A frame at the start of a sequence.
    pub fn new_sequence(descriptors: &'a [ResolvedDescriptor<'a>]) -> (e: Self)
        ensures
            e@ == FrameModel::sequence(descriptors@),
    {
        Self { descriptors, next: 0, entry_type: StackEntryType::Sequence }
    }

    /// A frame of a replication of `count` iterations, none started yet.
    pub fn new_replication(descriptors: &'a [ResolvedDescriptor<'a>], count: u16) -> (e: Self)
        requires
            descriptors@.len() <= u16::MAX,
        ensures
            e@ == FrameModel::replication(descriptors@, count),
            e@.well_formed(),
    {
        Self {
            descriptors,
            next: descriptors.len() as u16,
            entry_type: StackEntryType::Replication { remaining: count, in_item: false },
        }
    }
}

/// A `smallvec::SmallVec` of frames with inline room for eight. Verus sees
/// nothing inside it; [`stack_frames`] names what it holds.
#[verifier::external_body]
pub struct FrameStack<'a> {
    inner: smallvec::SmallVec<[StackEntry<'a>; 8]>,
}

/// The frames that `stack` holds, bottom first.
pub uninterp spec fn stack_frames(stack: FrameStack) -> Seq<FrameModel>;

/// `SmallVec::new`: the new stack is empty.
#[verifier::external_body]
pub(crate) fn stack_new<'a>() -> (stack: FrameStack<'a>)
    ensures
        stack_frames(stack) == Seq::<FrameModel>::empty(),
{
    FrameStack { inner: smallvec::SmallVec::new() }
}

/// `SmallVec::push`: the frame goes on top.
#[verifier::external_body]
pub(crate) fn stack_push<'a>(stack: &mut FrameStack<'a>, entry: StackEntry<'a>)
    ensures
        stack_frames(*final(stack)) == stack_frames(*old(stack)).push(entry@),
{
    stack.inner.push(entry)
}

/// `SmallVec::pop`: the top frame comes off, or nothing where the stack is
/// empty.
#[verifier::external_body]
pub(crate) fn stack_pop<'a>(stack: &mut FrameStack<'a>) -> (top: Option<StackEntry<'a>>)
    ensures
        top is Some <==> stack_frames(*old(stack)).len() > 0,
        top matches Some(e) ==> e@ == stack_frames(*old(stack)).last() && stack_frames(*final(stack))
            == stack_frames(*old(stack)).drop_last(),
        top is None ==> stack_frames(*final(stack)) == stack_frames(*old(stack)),
{
    stack.inner.pop()
}

/// `SmallVec::is_empty`.
#[verifier::external_body]
pub(crate) fn stack_is_empty(stack: &FrameStack) -> (empty: bool)
    ensures
        empty <==> stack_frames(*stack).len() == 0,
{
    stack.inner.is_empty()
}

} // verus!
