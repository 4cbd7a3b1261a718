//! Descriptors (FXY) and their resolution against the tables.
use crate::error::{Error, ErrorKind};
use crate::tables::{TableBEntry, TableDEntry, Tables};
use crate::text::{append_decimal, append_zero_padded, decimal_digits, zero_padded};
use vstd::prelude::*;
use vstd::slice::slice_subrange;
use vstd::string::StringExecFns;

verus! {

/// A raw descriptor: `f` in 0..=3, `x` in 0..=63, `y` in 0..=255.
#[derive(Hash, Debug, Copy, Clone, Eq, PartialEq, Structural)]
pub struct Descriptor {
    pub f: u8,
    pub x: u8,
    pub y: u8,
}

/// The X and Y parts of a descriptor.
#[derive(Hash, Debug, Clone, Copy, Eq, PartialEq, Structural)]
pub struct XY {
    pub x: u8,
    pub y: u8,
}

/// A descriptor resolved against the tables: a node of the tree that the
/// decoder walks.
#[derive(Debug, PartialEq, Eq)]
pub enum ResolvedDescriptor<'a> {
    /// An element (F=0) with its Table B entry.
    Data(&'a TableBEntry),
    /// A replication (F=1) with its block, the resolved `y` descriptors that
    /// stood behind it: `y` is also the number of iterations, or zero where
    /// that number is read from the data, in a field of `delayed_bits` bits.
    Replication { y: u8, descriptors: Vec<ResolvedDescriptor<'a>>, delayed_bits: u8 },
    /// An operator (F=2).
    Operator(XY),
    /// A sequence (F=3) with its Table D entry and its resolved elements.
    Sequence(&'a TableDEntry, Vec<ResolvedDescriptor<'a>>),
}

impl XY {
    /// The pair as one number, `x` in the high octet.
    pub open spec fn code_of(&self) -> u16 {
        (self.x as int * 256 + self.y as int) as u16
    }

    /// The pair as one number, `x` in the high octet: the key of the tables.
    #[verifier::when_used_as_spec(code_of)]
    pub fn code(&self) -> (c: u16)
        ensures
            c == self.code_of(),
            c == self.x as int * 256 + self.y as int,
    {
        self.x as u16 * 256 + self.y as u16
    }
}

impl Descriptor {
    /// The descriptor that the big-endian word `word` encodes: F in the top
    /// two bits, then X in six bits, then Y in eight.
    pub open spec fn of_word(word: u16) -> Descriptor {
        Descriptor {
            f: (word as int / 16384) as u8,
            x: ((word as int / 256) % 64) as u8,
            y: (word as int % 256) as u8,
        }
    }

    /// Decodes a descriptor from its 16-bit word.
    pub fn from_word(word: u16) -> (d: Descriptor)
        ensures
            d == Descriptor::of_word(word),
            d.f <= 3,
            d.x <= 63,
    {
        Descriptor { f: (word / 16384) as u8, x: ((word / 256) % 64) as u8, y: (word % 256) as u8 }
    }

    /// The text of the descriptor: the word `Descriptor`, then F in one
    /// digit, X in two and Y in three.
    pub open spec fn text_of(&self) -> Seq<char> {
        "Descriptor "@ + zero_padded(self.f as nat, 1) + zero_padded(self.x as nat, 2) + zero_padded(
            self.y as nat,
            3,
        )
    }

    /// Renders the descriptor as text, as in `Descriptor 301011`.
    pub fn to_text(&self) -> (s: String)
        ensures
            s@ == self.text_of(),
    {
        let mut s = String::from_str("Descriptor ");
        append_zero_padded(&mut s, self.f as u64, 1);
        append_zero_padded(&mut s, self.x as u64, 2);
        append_zero_padded(&mut s, self.y as u64, 3);
        s
    }

    /// The X and Y parts.
    pub open spec fn xy_of(&self) -> XY {
        XY { x: self.x, y: self.y }
    }

    /// The X and Y parts.
    #[verifier::when_used_as_spec(xy_of)]
    pub fn xy(&self) -> (r: XY)
        ensures
            r == self.xy_of(),
    {
        XY { x: self.x, y: self.y }
    }
}

/// How many sequences of Table D are not among the `open` ones: so many
/// sequences, at most, can still nest inside one another.
pub open spec fn room(tables: &Tables, open: Set<u16>) -> nat {
    tables.table_d@.dom().difference(open).len()
}

/// Opening one more sequence of Table D leaves less room.
pub proof fn lemma_room_shrinks(tables: &Tables, open: Set<u16>, key: u16)
    requires
        tables.table_d@.contains_key(key),
        !open.contains(key),
    ensures
        room(tables, open.insert(key)) < room(tables, open),
{
    let keys = tables.table_d@.dom();
    vstd::std_specs::hash::axiom_hashmap_view_finite_dom(tables.table_d);
    vstd::set::axiom_set_difference_finite(keys, open);
    vstd::set::axiom_set_remove_len(keys.difference(open), key);
    assert(keys.difference(open.insert(key)) =~= keys.difference(open).remove(key));
}

/// The width in bits of the count that the delayed replication descriptor
/// `d` announces: 1 for `0 31 000`, 8 for `0 31 001` and `0 31 011`, 16 for
/// `0 31 002` and `0 31 012`; `None` for every other descriptor.
pub open spec fn delayed_count_width(d: Descriptor) -> Option<u8> {
    if d.f != 0 || d.x != 31 {
        None
    } else if d.y == 0 {
        Some(1u8)
    } else if d.y == 1 || d.y == 11 {
        Some(8u8)
    } else if d.y == 2 || d.y == 12 {
        Some(16u8)
    } else {
        None
    }
}

/// How many raw descriptors the descriptor `d` takes up in its list: a
/// replication takes itself and the `y` descriptors of its block, every other
/// descriptor itself.
pub open spec fn span_of(d: Descriptor) -> int {
    if d.f == 1 {
        1 + d.y
    } else {
        1
    }
}

/// How many raw descriptors the node `node` took up in its list.
pub open spec fn span(node: ResolvedDescriptor) -> int {
    match node {
        ResolvedDescriptor::Replication { y, .. } => 1 + y,
        _ => 1,
    }
}

/// Whether the descriptor at `at` can be resolved, inside the expansions
/// of the sequences whose keys are `open`.
///
/// An element needs its Table B entry. A sequence needs its Table D entry,
/// and the elements of that entry have to be resolvable with the sequence
/// open; a sequence that stands inside its own expansion, so that Table D
/// holds a cycle, cannot be resolved, and that is the one way in which the
/// depth of nesting matters. A replication needs the `y` descriptors of its
/// block behind it, resolvable as a list of their own, and, where `y` is zero,
/// a delayed replication descriptor right behind it. An operator needs
/// nothing. F above 3 cannot be resolved.
pub open spec fn node_resolvable(tables: &Tables, descs: Seq<Descriptor>, at: int, open: Set<u16>) -> bool
    recommends
        0 <= at < descs.len(),
    decreases room(tables, open), descs.len(), 0nat,
{
    let d = descs[at];
    if !(0 <= at < descs.len()) {
        false
    } else if d.f == 0 {
        tables.has_b(d.xy_of())
    } else if d.f == 1 {
        &&& at + 1 + d.y <= descs.len()
        &&& list_resolvable(tables, descs.subrange(at + 1, at + 1 + d.y), 0, open)
        &&& d.y == 0 ==> at + 1 < descs.len() && delayed_count_width(descs[at + 1]) is Some
    } else if d.f == 2 {
        true
    } else if d.f == 3 {
        let key = d.xy_of().code();
        if tables.has_d(d.xy_of()) && !open.contains(key) {
            proof {
                lemma_room_shrinks(tables, open, key);
            }
            list_resolvable(tables, tables.table_d@[key].elements@, 0, open.insert(key))
        } else {
            false
        }
    } else {
        false
    }
}

/// Whether every descriptor of `descs` from `at` on can be resolved, inside
/// the expansions of the sequences whose keys are `open`.
pub open spec fn list_resolvable(tables: &Tables, descs: Seq<Descriptor>, at: int, open: Set<u16>) -> bool
    decreases room(tables, open), descs.len(), (descs.len() - at + 1) as nat,
{
    if at < 0 || at >= descs.len() {
        at == descs.len()
    } else {
        &&& at + span_of(descs[at]) <= descs.len()
        &&& node_resolvable(tables, descs, at, open)
        &&& list_resolvable(tables, descs, at + span_of(descs[at]), open)
    }
}

/// Whether `node` is what the descriptor at `at` resolves to, inside the
/// expansions of the sequences whose keys are `open`.
///
/// An element holds its Table B entry, a sequence its Table D entry and the
/// resolved elements of that entry, an operator its X and Y. A replication
/// holds `y`, the resolved `y` descriptors behind it and, where `y` is zero,
/// the width that the descriptor right behind it announces for the count;
/// that descriptor stays in the list and is resolved as an element of its
/// own.
pub open spec fn node_resolves(
    tables: &Tables,
    descs: Seq<Descriptor>,
    at: int,
    node: ResolvedDescriptor,
    open: Set<u16>,
) -> bool
    recommends
        0 <= at < descs.len(),
    decreases room(tables, open), descs.len(), 0nat,
{
    let d = descs[at];
    if !(0 <= at < descs.len()) {
        false
    } else {
        match node {
            ResolvedDescriptor::Data(entry) => d.f == 0 && tables.has_b(d.xy_of()) && *entry
                == tables.table_b@[d.xy_of().code()],
            ResolvedDescriptor::Operator(xy) => d.f == 2 && xy == d.xy_of(),
            ResolvedDescriptor::Sequence(entry, elements) => {
                let key = d.xy_of().code();
                if d.f == 3 && tables.has_d(d.xy_of()) && !open.contains(key) {
                    proof {
                        lemma_room_shrinks(tables, open, key);
                    }
                    *entry == tables.table_d@[key] && list_resolves(
                        tables,
                        entry.elements@,
                        entry.elements@.len() as int,
                        elements@,
                        elements@.len() as int,
                        open.insert(key),
                    )
                } else {
                    false
                }
            },
            ResolvedDescriptor::Replication { y, descriptors, delayed_bits } => {
                &&& d.f == 1
                &&& y == d.y
                &&& at + 1 + y <= descs.len()
                &&& list_resolves(
                    tables,
                    descs.subrange(at + 1, at + 1 + y),
                    y as int,
                    descriptors@,
                    descriptors@.len() as int,
                    open,
                )
                &&& if y == 0 {
                    at + 1 < descs.len() && delayed_count_width(descs[at + 1]) == Some(delayed_bits)
                } else {
                    delayed_bits == 0
                }
            },
        }
    }
}

/// Whether the first `count` nodes of `out` are what the first `upto`
/// descriptors of `descs` resolve to, node by node and in order.
pub open spec fn list_resolves(
    tables: &Tables,
    descs: Seq<Descriptor>,
    upto: int,
    out: Seq<ResolvedDescriptor>,
    count: int,
    open: Set<u16>,
) -> bool
    decreases room(tables, open), descs.len(), (if count > 0 { count + 1 } else { 1 }) as nat,
{
    if count <= 0 || count > out.len() {
        count == 0 && upto == 0
    } else {
        let node = out[count - 1];
        let start = upto - span(node);
        &&& 0 <= start
        &&& upto <= descs.len()
        &&& node_resolves(tables, descs, start, node, open)
        &&& list_resolves(tables, descs, start, out, count - 1, open)
    }
}

/// Whether `out` is what the whole list `descs` resolves to.
pub open spec fn resolves_to(tables: &Tables, descs: Seq<Descriptor>, out: Seq<ResolvedDescriptor>) -> bool {
    list_resolves(tables, descs, descs.len() as int, out, out.len() as int, Set::empty())
}

/// Whether the whole list `descs` can be resolved: every element and
/// sequence that it reaches is in its table, no sequence contains itself,
/// every replication has its block and every delayed replication its count
/// descriptor. Sequences may nest to any depth.
pub open spec fn resolvable(tables: &Tables, descs: Seq<Descriptor>) -> bool {
    list_resolvable(tables, descs, 0, Set::empty())
}

/// Whether `rank` puts every sequence of Table D above the sequences that
/// stand among its elements. A table that has such a ranking holds no
/// cycle.
pub open spec fn ranks_sequences(tables: &Tables, rank: spec_fn(u16) -> nat) -> bool {
    forall|key: u16, i: int|
        #![trigger tables.table_d@[key].elements@[i]]
        tables.table_d@.contains_key(key) && 0 <= i < tables.table_d@[key].elements@.len()
            && tables.table_d@[key].elements@[i].f == 3 ==> rank(
            tables.table_d@[key].elements@[i].xy_of().code(),
        ) < rank(key)
}

/// Whether `rank` puts every sequence of the list `descs` below `bound`.
pub open spec fn sequences_below(descs: Seq<Descriptor>, rank: spec_fn(u16) -> nat, bound: nat) -> bool {
    forall|i: int| 0 <= i < descs.len() && (#[trigger] descs[i]).f == 3 ==> rank(descs[i].xy_of().code()) < bound
}

/// Whether everything that the descriptor at `at` needs is there: what
/// [`node_resolvable`] asks, but for the question whether a sequence contains
/// itself. The expansion of a sequence is looked into where its rank is below
/// `bound`.
pub open spec fn node_present(
    tables: &Tables,
    descs: Seq<Descriptor>,
    at: int,
    rank: spec_fn(u16) -> nat,
    bound: nat,
) -> bool
    recommends
        0 <= at < descs.len(),
    decreases bound, descs.len(), 0nat,
{
    let d = descs[at];
    if !(0 <= at < descs.len()) {
        false
    } else if d.f == 0 {
        tables.has_b(d.xy_of())
    } else if d.f == 1 {
        &&& at + 1 + d.y <= descs.len()
        &&& list_present(tables, descs.subrange(at + 1, at + 1 + d.y), 0, rank, bound)
        &&& d.y == 0 ==> at + 1 < descs.len() && delayed_count_width(descs[at + 1]) is Some
    } else if d.f == 2 {
        true
    } else if d.f == 3 {
        let key = d.xy_of().code();
        &&& tables.has_d(d.xy_of())
        &&& rank(key) < bound ==> list_present(tables, tables.table_d@[key].elements@, 0, rank, rank(key))
    } else {
        false
    }
}

/// Whether everything that the descriptors of `descs` from `at` on need is
/// there.
pub open spec fn list_present(
    tables: &Tables,
    descs: Seq<Descriptor>,
    at: int,
    rank: spec_fn(u16) -> nat,
    bound: nat,
) -> bool
    decreases bound, descs.len(), (descs.len() - at + 1) as nat,
{
    if at < 0 || at >= descs.len() {
        at == descs.len()
    } else {
        &&& at + span_of(descs[at]) <= descs.len()
        &&& node_present(tables, descs, at, rank, bound)
        &&& list_present(tables, descs, at + span_of(descs[at]), rank, bound)
    }
}

/// With a Table D that holds no cycle, whatever has all that it needs can
/// be resolved, however deep its sequences nest: inside open sequences that
/// are all ranked at `bound` or above, the descriptor at `at`, and the list
/// from `at` on, of a list whose sequences are ranked below `bound`.
pub proof fn lemma_without_cycles_present_resolves(
    tables: &Tables,
    descs: Seq<Descriptor>,
    at: int,
    rank: spec_fn(u16) -> nat,
    bound: nat,
    open: Set<u16>,
)
    requires
        ranks_sequences(tables, rank),
        sequences_below(descs, rank, bound),
        forall|key: u16| open.contains(key) ==> rank(key) >= bound,
    ensures
        node_present(tables, descs, at, rank, bound) ==> node_resolvable(tables, descs, at, open),
        list_present(tables, descs, at, rank, bound) ==> list_resolvable(tables, descs, at, open),
    decreases bound, descs.len(), (descs.len() - at + 1) as nat,
{
    if 0 <= at < descs.len() {
        let d = descs[at];
        if node_present(tables, descs, at, rank, bound) {
            if d.f == 1 {
                let block = descs.subrange(at + 1, at + 1 + d.y);
                assert forall|i: int| 0 <= i < block.len() && (#[trigger] block[i]).f == 3 implies rank(
                    block[i].xy_of().code(),
                ) < bound by {
                    assert(block[i] == descs[at + 1 + i]);
                }
                lemma_without_cycles_present_resolves(tables, block, 0, rank, bound, open);
            } else if d.f == 3 {
                let key = d.xy_of().code();
                let elements = tables.table_d@[key].elements@;
                assert(rank(key) < bound);
                assert forall|i: int| 0 <= i < elements.len() && (#[trigger] elements[i]).f == 3 implies rank(
                    elements[i].xy_of().code(),
                ) < rank(key) by {
                    assert(tables.table_d@[key].elements@[i].f == 3);
                }
                lemma_without_cycles_present_resolves(tables, elements, 0, rank, rank(key), open.insert(key));
            }
            assert(node_resolvable(tables, descs, at, open));
        }
        if list_present(tables, descs, at, rank, bound) {
            lemma_without_cycles_present_resolves(tables, descs, at + span_of(d), rank, bound, open);
            assert(list_resolvable(tables, descs, at + span_of(d), open));
        }
    }
}

/// With a Table D that holds no cycle, a list that has all that it needs
/// can be resolved.
pub proof fn lemma_without_cycles_lists_resolve(
    tables: &Tables,
    descs: Seq<Descriptor>,
    rank: spec_fn(u16) -> nat,
    bound: nat,
)
    requires
        ranks_sequences(tables, rank),
        sequences_below(descs, rank, bound),
        list_present(tables, descs, 0, rank, bound),
    ensures
        resolvable(tables, descs),
{
    lemma_without_cycles_present_resolves(tables, descs, 0, rank, bound, Set::empty());
}

/// An open sequence only ever refuses: what can be resolved inside some
/// open sequences can be resolved inside fewer of them, and so with none
/// open. The descriptor at `at` and the list from `at` on are both meant.
pub proof fn lemma_fewer_open_refuse_less(
    tables: &Tables,
    descs: Seq<Descriptor>,
    at: int,
    open: Set<u16>,
    fewer: Set<u16>,
)
    requires
        fewer.subset_of(open),
    ensures
        node_resolvable(tables, descs, at, open) ==> node_resolvable(tables, descs, at, fewer),
        list_resolvable(tables, descs, at, open) ==> list_resolvable(tables, descs, at, fewer),
    decreases room(tables, open), descs.len(), (descs.len() - at + 1) as nat,
{
    if 0 <= at < descs.len() {
        let d = descs[at];
        if node_resolvable(tables, descs, at, open) {
            if d.f == 1 {
                lemma_fewer_open_refuse_less(tables, descs.subrange(at + 1, at + 1 + d.y), 0, open, fewer);
            } else if d.f == 3 {
                let key = d.xy_of().code();
                lemma_room_shrinks(tables, open, key);
                lemma_fewer_open_refuse_less(
                    tables,
                    tables.table_d@[key].elements@,
                    0,
                    open.insert(key),
                    fewer.insert(key),
                );
            }
        }
        if list_resolvable(tables, descs, at, open) {
            assert(node_resolvable(tables, descs, at, fewer));
            lemma_fewer_open_refuse_less(tables, descs, at + span_of(d), open, fewer);
            assert(list_resolvable(tables, descs, at + span_of(d), fewer));
        }
    }
}

/// What the first nodes of a list resolve is not changed by a node behind
/// them.
pub proof fn lemma_list_resolves_ignores_rest(
    tables: &Tables,
    descs: Seq<Descriptor>,
    upto: int,
    out: Seq<ResolvedDescriptor>,
    longer: Seq<ResolvedDescriptor>,
    count: int,
    open: Set<u16>,
)
    requires
        0 <= count <= out.len() <= longer.len(),
        forall|i: int| 0 <= i < count ==> out[i] == longer[i],
    ensures
        list_resolves(tables, descs, upto, out, count, open) == list_resolves(
            tables,
            descs,
            upto,
            longer,
            count,
            open,
        ),
    decreases count,
{
    if count > 0 {
        let node = out[count - 1];
        lemma_list_resolves_ignores_rest(tables, descs, upto - span(node), out, longer, count - 1, open);
    }
}

impl XY {
    /// The pair as it stands in a message: `XY { x: 1, y: 2 }`, each number
    /// in decimal digits.
    pub open spec fn text_of(&self) -> Seq<char> {
        "XY { x: "@ + decimal_digits(self.x as nat) + ", y: "@ + decimal_digits(self.y as nat) + " }"@
    }
}

/// The text of an X and Y pair in a message: `prefix`, then the pair as
/// [`XY::text_of`] writes it.
fn xy_text(prefix: &str, xy: XY) -> (s: String)
    ensures
        s@ == prefix@ + xy.text_of(),
{
    let mut s = String::from_str(prefix);
    s.append("XY { x: ");
    append_decimal(&mut s, xy.x as u64);
    s.append(", y: ");
    append_decimal(&mut s, xy.y as u64);
    s.append(" }");
    s
}

/// The width of the count that `d` announces, where it is a delayed
/// replication descriptor.
pub fn delayed_width(d: &Descriptor) -> (w: Option<u8>)
    ensures
        w == delayed_count_width(*d),
{
    if d.f != 0 || d.x != 31 {
        None
    } else if d.y == 0 {
        Some(1)
    } else if d.y == 1 || d.y == 11 {
        Some(8)
    } else if d.y == 2 || d.y == 12 {
        Some(16)
    } else {
        None
    }
}

/// Whether `key` is one of the keys on `path`.
fn on_path(path: &Vec<u16>, key: u16) -> (found: bool)
    ensures
        found == path@.contains(key),
{
    let mut i: usize = 0;
    while i < path.len()
        invariant
            i <= path@.len(),
            forall|j: int| 0 <= j < i ==> path@[j] != key,
        decreases path@.len() - i,
    {
        if path[i] == key {
            return true;
        }
        i = i + 1;
    }
    false
}

/// The keys of `path` with `key` behind them.
fn path_with(path: &Vec<u16>, key: u16) -> (longer: Vec<u16>)
    ensures
        longer@ == path@.push(key),
{
    let mut longer: Vec<u16> = Vec::new();
    let mut i: usize = 0;
    while i < path.len()
        invariant
            i <= path@.len(),
            longer@ == path@.take(i as int),
        decreases path@.len() - i,
    {
        longer.push(path[i]);
        i = i + 1;
        assert(longer@ =~= path@.take(i as int));
    }
    longer.push(key);
    assert(longer@ =~= path@.push(key));
    longer
}

/// Resolves the descriptor at `at` of `descs`, which stands inside the
/// expansions of the sequences whose keys are on `path`.
fn resolve_node<'a>(tables: &'a Tables, descs: &[Descriptor], at: usize, path: &Vec<u16>) -> (r: Result<
    ResolvedDescriptor<'a>,
    Error,
>)
    requires
        at < descs@.len(),
    ensures
        r is Ok <==> node_resolvable(tables, descs@, at as int, path@.to_set()),
        r matches Ok(node) ==> node_resolves(tables, descs@, at as int, node, path@.to_set()),
        r matches Err(e) ==> e.kind_of() == ErrorKind::Fatal,
    decreases room(tables, path@.to_set()), descs@.len(), 0nat,
{
    let desc = &descs[at];
    match desc.f {
        0 => {
            let Some(b) = tables.lookup_b(desc.xy()) else {
                return Err(Error::Fatal(xy_text("Table B entry not found for xy: ", desc.xy())));
            };
            Ok(ResolvedDescriptor::Data(b))
        },
        1 => {
            let y = desc.y;
            let first = at + 1;
            if y as usize > descs.len() - first {
                return Err(Error::fatal("Replicated block runs past the end of the list"));
            }
            let block = slice_subrange(descs, first, first + y as usize);
            let descriptors = match resolve_list(tables, block, path) {
                Ok(descriptors) => descriptors,
                Err(e) => {
                    return Err(e);
                },
            };
            let delayed_bits = if y == 0 {
                if first >= descs.len() {
                    return Err(Error::fatal("Delayed replication without a count descriptor"));
                }
                match delayed_width(&descs[first]) {
                    Some(w) => w,
                    None => {
                        return Err(Error::fatal("Delayed replication without a count descriptor"));
                    },
                }
            } else {
                0
            };
            Ok(ResolvedDescriptor::Replication { y, descriptors, delayed_bits })
        },
        2 => Ok(ResolvedDescriptor::Operator(desc.xy())),
        3 => {
            let Some(d) = tables.lookup_d(desc.xy()) else {
                return Err(Error::Fatal(xy_text("Table D entry not found for xy: ", desc.xy())));
            };
            let key = desc.xy().code();
            if on_path(path, key) {
                return Err(Error::fatal("Sequence contains itself"));
            }
            let inner = path_with(path, key);
            proof {
                path@.lemma_push_to_set_commute(key);
                lemma_room_shrinks(tables, path@.to_set(), key);
            }
            let resolved_elements = match resolve_list(tables, d.elements.as_slice(), &inner) {
                Ok(elements) => elements,
                Err(e) => {
                    return Err(e);
                },
            };
            Ok(ResolvedDescriptor::Sequence(d, resolved_elements))
        },
        _ => Err(Error::Fatal(xy_text("Table B entry not found for xy: ", desc.xy()))),
    }
}

/// Resolves the whole list `descs`, which stands inside the expansions of
/// the sequences whose keys are on `path`.
fn resolve_list<'a>(tables: &'a Tables, descs: &[Descriptor], path: &Vec<u16>) -> (r: Result<
    Vec<ResolvedDescriptor<'a>>,
    Error,
>)
    ensures
        r is Ok <==> list_resolvable(tables, descs@, 0, path@.to_set()),
        r matches Ok(out) ==> list_resolves(
            tables,
            descs@,
            descs@.len() as int,
            out@,
            out@.len() as int,
            path@.to_set(),
        ),
        r matches Err(e) ==> e.kind_of() == ErrorKind::Fatal,
    decreases room(tables, path@.to_set()), descs@.len(), 1nat,
{
    let mut out: Vec<ResolvedDescriptor<'a>> = Vec::new();
    let mut i: usize = 0;
    while i < descs.len()
        invariant
            i <= descs@.len(),
            list_resolvable(tables, descs@, 0, path@.to_set()) == list_resolvable(
                tables,
                descs@,
                i as int,
                path@.to_set(),
            ),
            list_resolves(tables, descs@, i as int, out@, out@.len() as int, path@.to_set()),
        decreases descs@.len() - i,
    {
        let node = match resolve_node(tables, descs, i, path) {
            Ok(node) => node,
            Err(e) => {
                return Err(e);
            },
        };
        let taken: usize = match &node {
            ResolvedDescriptor::Replication { y, .. } => 1 + *y as usize,
            _ => 1,
        };
        let ghost before = out@;
        out.push(node);
        proof {
            lemma_list_resolves_ignores_rest(
                tables,
                descs@,
                i as int,
                before,
                out@,
                before.len() as int,
                path@.to_set(),
            );
        }
        i = i + taken;
    }
    Ok(out)
}

/// Resolves a list of raw descriptors against the tables.
///
/// The result holds one node for each descriptor outside a replicated
/// block, in order; see [`node_resolves`]. Sequences may nest to any depth.
/// Fails with a fatal error exactly where the list is not [`resolvable`]:
/// where an entry is missing, a replication lacks its block or its count
/// descriptor, or a sequence of Table D contains itself.
pub fn resolve_descriptors<'a>(tables: &'a Tables, descriptors: &[Descriptor]) -> (r: Result<
    Vec<ResolvedDescriptor<'a>>,
    Error,
>)
    ensures
        r is Ok <==> resolvable(tables, descriptors@),
        r matches Ok(out) ==> resolves_to(tables, descriptors@, out@),
        r matches Err(e) ==> e.kind_of() == ErrorKind::Fatal,
{
    let path: Vec<u16> = Vec::new();
    assert(path@.to_set() =~= Set::<u16>::empty());
    resolve_list(tables, descriptors, &path)
}

impl<'a> ResolvedDescriptor<'a> {
    /// Resolves one descriptor that stands alone.
    ///
    /// A replication cannot be resolved alone: its block and, where its
    /// count is delayed, the descriptor of the count stand behind it in a
    /// list. Fails with a fatal error exactly where the list of this one
    /// descriptor is not [`resolvable`].
    pub fn from_descriptor(desc: &Descriptor, tables: &'a Tables) -> (r: Result<Self, Error>)
        ensures
            r is Ok <==> resolvable(tables, seq![*desc]),
            r matches Ok(node) ==> resolves_to(tables, seq![*desc], seq![node]),
            r matches Err(e) ==> e.kind_of() == ErrorKind::Fatal,
    {
        let mut alone: Vec<Descriptor> = Vec::new();
        alone.push(*desc);
        let path: Vec<u16> = Vec::new();
        assert(path@.to_set() =~= Set::<u16>::empty());
        let r = resolve_node(tables, alone.as_slice(), 0, &path);
        proof {
            let descs = seq![*desc];
            let open = Set::<u16>::empty();
            assert(list_resolvable(tables, descs, span_of(descs[0]), open) <==> span_of(descs[0]) == 1);
            if r is Ok {
                assert(list_resolves(tables, descs, 0, seq![r->Ok_0], 0, open));
            }
        }
        r
    }
}

} // verus!
