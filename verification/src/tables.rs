//! The reference tables that descriptors are resolved against.
use crate::descriptor::{Descriptor, XY};
use std::collections::HashMap;
use vstd::prelude::*;

verus! {

/// An element definition of Table B.
#[derive(Debug, Clone, PartialEq, Eq)]
pub struct TableBEntry {
    pub xy: XY,
    pub description: String,
    pub unit: String,
    /// Power of ten by which the decoded integer is divided.
    pub scale: i8,
    /// Offset added to the raw field.
    pub reference_value: i32,
    /// Width of the field in bits.
    pub bits: u16,
}

/// A sequence definition of Table D.
#[derive(Debug, Clone, PartialEq, Eq)]
pub struct TableDEntry {
    pub xy: XY,
    /// The descriptors that the sequence stands for, in order.
    pub elements: Vec<Descriptor>,
}

/// Tables B and D, each keyed by [`XY::code`].
#[derive(Debug, Clone)]
pub struct Tables {
    pub table_b: HashMap<u16, TableBEntry>,
    pub table_d: HashMap<u16, TableDEntry>,
}

impl Tables {
    /// Whether Table B defines the element `xy`.
    pub open spec fn has_b(&self, xy: XY) -> bool {
        self.table_b@.contains_key(xy.code())
    }

    /// Whether Table D defines the sequence `xy`.
    pub open spec fn has_d(&self, xy: XY) -> bool {
        self.table_d@.contains_key(xy.code())
    }

    /// Two empty tables.
    pub fn new() -> (t: Tables)
        ensures
            t.table_b@ == Map::<u16, TableBEntry>::empty(),
            t.table_d@ == Map::<u16, TableDEntry>::empty(),
    {
        Tables { table_b: HashMap::new(), table_d: HashMap::new() }
    }

    /// Files `entry` in Table B under its own `xy`, replacing an earlier
    /// entry of that `xy`.
    pub fn insert_b(&mut self, entry: TableBEntry)
        ensures
            final(self).table_b@ == old(self).table_b@.insert(entry.xy.code(), entry),
            final(self).table_d@ == old(self).table_d@,
    {
        broadcast use vstd::std_specs::hash::group_hash_axioms;

        let key = entry.xy.code();
        self.table_b.insert(key, entry);
    }

    /// Files `entry` in Table D under its own `xy`, replacing an earlier
    /// entry of that `xy`.
    pub fn insert_d(&mut self, entry: TableDEntry)
        ensures
            final(self).table_d@ == old(self).table_d@.insert(entry.xy.code(), entry),
            final(self).table_b@ == old(self).table_b@,
    {
        broadcast use vstd::std_specs::hash::group_hash_axioms;

        let key = entry.xy.code();
        self.table_d.insert(key, entry);
    }

    /// The Table B entry of `xy`, if there is one.
    pub fn lookup_b(&self, xy: XY) -> (r: Option<&TableBEntry>)
        ensures
            r is Some <==> self.has_b(xy),
            r matches Some(e) ==> *e == self.table_b@[xy.code()],
    {
        broadcast use vstd::std_specs::hash::group_hash_axioms;

        let key = xy.code();
        self.table_b.get(&key)
    }

    /// The Table D entry of `xy`, if there is one.
    pub fn lookup_d(&self, xy: XY) -> (r: Option<&TableDEntry>)
        ensures
            r is Some <==> self.has_d(xy),
            r matches Some(e) ==> *e == self.table_d@[xy.code()],
    {
        broadcast use vstd::std_specs::hash::group_hash_axioms;

        let key = xy.code();
        self.table_d.get(&key)
    }
}

} // verus!
