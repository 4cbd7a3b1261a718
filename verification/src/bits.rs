//! The bit reader: big-endian, most significant bit first, over a byte slice.
//!
//! The reading itself is done by `bitstream_io`. What the crate assumes of it
//! is stated over [`unread_bits`], the bits that a reader has not handed out
//! yet, in the order in which it will hand them out.
use crate::error::{Error, ErrorKind};
use bitstream_io::BitRead;
use vstd::arithmetic::power2::{lemma_pow2_unfold, pow2};
use vstd::prelude::*;

verus! {

/// The eight bits of an octet, most significant first.
pub open spec fn byte_bits(b: u8) -> Seq<bool> {
    Seq::new(8, |k: int| (b as int / pow2((7 - k) as nat) as int) % 2 == 1)
}

/// The bits of a run of octets: those of the first octet, then those of the
/// second, and so on.
pub open spec fn bits_of_bytes(bytes: Seq<u8>) -> Seq<bool> {
    Seq::new(8 * bytes.len(), |i: int| byte_bits(bytes[i / 8])[i % 8])
}

/// The unsigned number that a run of bits spells, most significant first.
pub open spec fn be_value(bits: Seq<bool>) -> nat
    decreases bits.len(),
{
    if bits.len() == 0 {
        0
    } else {
        2 * be_value(bits.drop_last()) + if bits.last() {
            1nat
        } else {
            0nat
        }
    }
}

/// The `count` octets that the first `8 * count` bits spell.
pub open spec fn octets_of_bits(bits: Seq<bool>, count: nat) -> Seq<u8> {
    Seq::new(count, |j: int| be_value(bits.subrange(8 * j, 8 * j + 8)) as u8)
}

/// The largest number of `width` bits: every bit set.
pub open spec fn all_ones(width: nat) -> nat {
    (pow2(width) - 1) as nat
}

/// Reading `n` bits as an unsigned number into a type of `limit` bits: the
/// number and the bits that are left, or `None` where `n` exceeds `limit`
/// or the bits run out.
pub open spec fn take_uint(bits: Seq<bool>, n: nat, limit: nat) -> Option<(nat, Seq<bool>)> {
    if n > limit || bits.len() < n {
        None
    } else {
        Some((be_value(bits.take(n as int)), bits.skip(n as int)))
    }
}

/// Reading `count` whole octets: the octets and the bits that are left, or
/// `None` where the bits run out.
pub open spec fn take_octets(bits: Seq<bool>, count: nat) -> Option<(Seq<u8>, Seq<bool>)> {
    if bits.len() < 8 * count {
        None
    } else {
        Some((octets_of_bits(bits, count), bits.skip((8 * count) as int)))
    }
}

/// A run of bits spells less than two to the power of its length.
pub proof fn lemma_be_value_bound(bits: Seq<bool>)
    ensures
        be_value(bits) <= all_ones(bits.len()),
        pow2(bits.len()) >= 1,
    decreases bits.len(),
{
    if bits.len() == 0 {
        vstd::arithmetic::power2::lemma2_to64();
    } else {
        lemma_be_value_bound(bits.drop_last());
        lemma_pow2_unfold(bits.len());
    }
}

/// A run of bits spells the largest number of its width exactly when every
/// one of its bits is set.
pub proof fn lemma_all_ones_iff_every_bit_set(bits: Seq<bool>)
    ensures
        be_value(bits) == all_ones(bits.len()) <==> (forall|i: int| 0 <= i < bits.len() ==> bits[i]),
    decreases bits.len(),
{
    if bits.len() == 0 {
        vstd::arithmetic::power2::lemma2_to64();
    } else {
        let front = bits.drop_last();
        lemma_all_ones_iff_every_bit_set(front);
        lemma_be_value_bound(front);
        lemma_pow2_unfold(bits.len());
        if be_value(bits) == all_ones(bits.len()) {
            assert forall|i: int| 0 <= i < bits.len() implies bits[i] by {
                if i < front.len() {
                    assert(front[i]);
                }
            }
        }
        if forall|i: int| 0 <= i < bits.len() ==> bits[i] {
            assert forall|i: int| 0 <= i < front.len() implies front[i] by {}
        }
    }
}

/// The eight bits of an octet spell that octet.
pub proof fn lemma_byte_bits_spell_the_byte(b: u8)
    ensures
        be_value(byte_bits(b)) == b,
{
    vstd::arithmetic::power2::lemma2_to64();
    let bits = byte_bits(b);
    let n = b as int;
    assert(be_value(bits.take(0)) == n / 256);
    assert(bits.take(1).drop_last() =~= bits.take(0));
    assert(be_value(bits.take(1)) == n / 128);
    assert(bits.take(2).drop_last() =~= bits.take(1));
    assert(be_value(bits.take(2)) == n / 64);
    assert(bits.take(3).drop_last() =~= bits.take(2));
    assert(be_value(bits.take(3)) == n / 32);
    assert(bits.take(4).drop_last() =~= bits.take(3));
    assert(be_value(bits.take(4)) == n / 16);
    assert(bits.take(5).drop_last() =~= bits.take(4));
    assert(be_value(bits.take(5)) == n / 8);
    assert(bits.take(6).drop_last() =~= bits.take(5));
    assert(be_value(bits.take(6)) == n / 4);
    assert(bits.take(7).drop_last() =~= bits.take(6));
    assert(be_value(bits.take(7)) == n / 2);
    assert(bits.take(8).drop_last() =~= bits.take(7));
    assert(bits[7] == ((n / (pow2(0) as int)) % 2 == 1));
}

/// Reading whole octets from the first bit of a run of octets gives those
/// octets back.
pub proof fn lemma_octets_of_their_bits(bytes: Seq<u8>, count: nat)
    requires
        count <= bytes.len(),
    ensures
        octets_of_bits(bits_of_bytes(bytes), count) == bytes.take(count as int),
        take_octets(bits_of_bytes(bytes), count) == Some(
            (bytes.take(count as int), bits_of_bytes(bytes.skip(count as int))),
        ),
{
    let bits = bits_of_bytes(bytes);
    assert forall|j: int| 0 <= j < count implies octets_of_bits(bits, count)[j] == bytes[j] by {
        let group = bits.subrange(8 * j, 8 * j + 8);
        assert(group =~= byte_bits(bytes[j]));
        lemma_byte_bits_spell_the_byte(bytes[j]);
    }
    let rest = bits.skip((8 * count) as int);
    let other = bits_of_bytes(bytes.skip(count as int));
    assert forall|i: int| 0 <= i < rest.len() implies rest[i] == other[i] by {}
}

/// A bit reader of `bitstream_io` over a byte slice, big-endian. Verus sees
/// nothing inside it; [`unread_bits`] names what it still holds.
#[verifier::external_body]
pub struct BitSource<'a> {
    inner: bitstream_io::BitReader<&'a [u8], bitstream_io::BigEndian>,
}

/// The bits that `source` has not handed out yet, next bit first.
pub uninterp spec fn unread_bits(source: BitSource) -> Seq<bool>;

/// `std::io::Error`, the error of the bit reader. Verus carries it through
/// without looking inside.
#[verifier::external_type_specification]
#[verifier::external_body]
pub struct ExIoError(std::io::Error);

/// `bitstream_io::BitReader::endian` with `BigEndian`: the new reader holds
/// every bit of `data`, the most significant bit of the first octet first.
#[verifier::external_body]
fn open_bits<'a>(data: &'a [u8]) -> (source: BitSource<'a>)
    ensures
        unread_bits(source) == bits_of_bytes(data@),
{
    BitSource { inner: bitstream_io::BitReader::endian(data, bitstream_io::BigEndian) }
}

/// `bitstream_io::BitRead::read::<u32>`: up to 32 bits come out as one
/// unsigned number, most significant bit first, and leave the reader. The call
/// fails, without a promise on what is left, where more than 32 bits are asked
/// for or fewer than `n` bits are left.
#[verifier::external_body]
fn read_bits(source: &mut BitSource, n: u32) -> (r: Result<u32, std::io::Error>)
    ensures
        r is Ok <==> n <= 32 && n <= unread_bits(*old(source)).len(),
        r matches Ok(v) ==> v == be_value(unread_bits(*old(source)).take(n as int))
            && unread_bits(*final(source)) == unread_bits(*old(source)).skip(n as int),
{
    source.inner.read::<u32>(n)
}

/// `bitstream_io::BitRead::read_to_vec`: `count` whole octets come out,
/// each spelled by the next eight bits, whether or not the reader stands at
/// an octet boundary. The call fails, without a promise on what is left, where
/// fewer than `8 * count` bits are left.
#[verifier::external_body]
fn read_bytes(source: &mut BitSource, count: usize) -> (r: Result<Vec<u8>, std::io::Error>)
    ensures
        r is Ok <==> 8 * count <= unread_bits(*old(source)).len(),
        r matches Ok(v) ==> v@ == octets_of_bits(unread_bits(*old(source)), count as nat)
            && unread_bits(*final(source)) == unread_bits(*old(source)).skip(8 * count),
{
    source.inner.read_to_vec(count)
}

/// The `Display` text of a `std::io::Error`. Nothing is claimed of it.
#[verifier::external_body]
fn io_error_text(e: &std::io::Error) -> String {
    format!("{}", e)
}

impl<'a> BitSource<'a> {
    /// The bits that are still to be read.
    pub open spec fn unread(&self) -> Seq<bool> {
        unread_bits(*self)
    }

    /// A reader at the first bit of `data`.
    pub fn new(data: &'a [u8]) -> (source: BitSource<'a>)
        ensures
            source.unread() == bits_of_bytes(data@),
    {
        open_bits(data)
    }

    /// Reads `n` bits as an unsigned number that has to fit in `limit` bits.
    ///
    /// Fails with an I/O error where `n` exceeds `limit` or the input ends
    /// before `n` bits; nothing is then known of the reader.
    pub fn read(&mut self, n: u32, limit: u32) -> (r: Result<u32, Error>)
        requires
            limit <= 32,
        ensures
            match take_uint(old(self).unread(), n as nat, limit as nat) {
                Some((v, rest)) => r matches Ok(x) && x == v && x <= all_ones(n as nat) && final(self).unread() == rest,
                None => r matches Err(e) && e.kind_of() == ErrorKind::Io,
            },
    {
        if n > limit {
            return Err(Error::io("excessive bits for type read"));
        }
        proof {
            if n <= self.unread().len() {
                lemma_be_value_bound(self.unread().take(n as int));
            }
        }
        match read_bits(self, n) {
            Ok(v) => Ok(v),
            Err(e) => Err(Error::Io(io_error_text(&e))),
        }
    }

    /// Reads `count` whole octets, aligned or not.
    ///
    /// Fails with an I/O error where the input ends before `8 * count` bits;
    /// nothing is then known of the reader.
    pub fn read_octets(&mut self, count: usize) -> (r: Result<Vec<u8>, Error>)
        ensures
            match take_octets(old(self).unread(), count as nat) {
                Some((octets, rest)) => r matches Ok(v) && v@ == octets && final(self).unread() == rest,
                None => r matches Err(e) && e.kind_of() == ErrorKind::Io,
            },
    {
        match read_bytes(self, count) {
            Ok(v) => Ok(v),
            Err(e) => Err(Error::Io(io_error_text(&e))),
        }
    }
}

} // verus!
