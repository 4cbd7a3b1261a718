//! Decoded values: the missing marker, integers, scaled decimals and text.
use crate::bits::{all_ones, be_value, lemma_all_ones_iff_every_bit_set};
use crate::text::{
    append_decimal, append_zeros, decimal_text, push_char, scaled_decimal, signed_decimal,
};
use vstd::arithmetic::power2::{lemma2_to64, lemma_pow2_strictly_increases};
use vstd::bits::lemma_u64_shl_is_mul;
use vstd::prelude::*;
use vstd::string::{StrSliceExecFns, StringExecFns};
use vstd::utf8::{decode_utf8, valid_utf8};

verus! {

/// One decoded field.
#[derive(Debug, Clone, PartialEq, Eq)]
pub enum Value {
    /// Every bit of the field was set.
    Missing,
    /// `Decimal(m, e)` stands for `m * 10^e`: the exponent is the negated
    /// scale of the element.
    Decimal(i32, i8),
    /// A field of scale zero.
    Integer(i32),
    /// A character field.
    String(String),
}

/// What a [`Value`] holds, as mathematics.
pub enum ValueModel {
    Missing,
    Decimal(i32, i8),
    Integer(i32),
    Text(Seq<char>),
}

impl View for Value {
    type V = ValueModel;

    open spec fn view(&self) -> ValueModel {
        match self {
            Value::Missing => ValueModel::Missing,
            Value::Decimal(m, e) => ValueModel::Decimal(*m, *e),
            Value::Integer(v) => ValueModel::Integer(*v),
            Value::String(s) => ValueModel::Text(s@),
        }
    }
}

/// `v` narrowed to 32 bits in two's complement: the one number of an `i32`
/// that differs from `v` by a multiple of `2^32`.
pub open spec fn narrow_i32(v: int) -> i32 {
    let low = v % 0x1_0000_0000;
    if low >= 0x8000_0000 {
        (low - 0x1_0000_0000) as i32
    } else {
        low as i32
    }
}

/// `v` narrowed to 8 bits in two's complement.
pub open spec fn narrow_i8(v: int) -> i8 {
    let low = v % 256;
    if low >= 128 {
        (low - 256) as i8
    } else {
        low as i8
    }
}

/// The value of a numeric field of `width` bits that reads `raw`, for an
/// element with the given reference value and effective scale.
///
/// A field with every bit set is missing. Otherwise the reference value is
/// added and the sum narrowed to 32 bits; a scale of zero gives an integer,
/// any other scale a decimal whose exponent is the negated scale, narrowed to
/// 8 bits.
pub open spec fn numeric_value(raw: int, width: nat, reference: int, scale: int) -> ValueModel {
    if raw == all_ones(width) {
        ValueModel::Missing
    } else if scale == 0 {
        ValueModel::Integer(narrow_i32(raw + reference))
    } else {
        ValueModel::Decimal(narrow_i32(raw + reference), narrow_i8(-scale))
    }
}

/// The text of a value: `Missing`, the integer, the decimal with as many
/// digits behind the point as its exponent is below zero, or the string in
/// double quotes.
pub open spec fn value_text(v: ValueModel) -> Seq<char> {
    match v {
        ValueModel::Missing => "Missing"@,
        ValueModel::Decimal(m, e) => scaled_decimal(m as int, e as int),
        ValueModel::Integer(i) => signed_decimal(i as int),
        ValueModel::Text(t) => seq!['"'] + t + seq!['"'],
    }
}

/// A numeric field gives an integer exactly where its effective scale is
/// zero and it is not missing, and a decimal exactly where its effective scale
/// is not zero and it is not missing.
pub proof fn lemma_integer_iff_scale_zero(raw: int, width: nat, reference: int, scale: int)
    ensures
        numeric_value(raw, width, reference, scale) is Integer <==> scale == 0 && raw != all_ones(width),
        numeric_value(raw, width, reference, scale) is Decimal <==> scale != 0 && raw != all_ones(width),
        !(numeric_value(raw, width, reference, scale) is Text),
{
}

/// A numeric field is missing exactly where every one of its bits is set,
/// whatever its reference value and scale.
pub proof fn lemma_missing_iff_every_bit_set(bits: Seq<bool>, reference: int, scale: int)
    ensures
        numeric_value(be_value(bits) as int, bits.len(), reference, scale) is Missing <==> (forall|i: int|
            0 <= i < bits.len() ==> bits[i]),
{
    lemma_all_ones_iff_every_bit_set(bits);
}

/// `std::string::FromUtf8Error`, the error of `String::from_utf8`. Verus
/// carries it through without looking inside.
#[verifier::external_type_specification]
#[verifier::external_body]
pub struct ExFromUtf8Error(std::string::FromUtf8Error);

/// `String::from_utf8`: succeeds exactly on well-formed UTF-8, with the
/// characters that the octets encode.
#[verifier::external_body]
fn string_from_utf8(octets: Vec<u8>) -> (r: Result<String, std::string::FromUtf8Error>)
    ensures
        r is Ok <==> valid_utf8(octets@),
        r matches Ok(s) ==> s@ == decode_utf8(octets@),
{
    String::from_utf8(octets)
}

/// The largest number of `width` bits, the pattern that marks a missing
/// field.
pub fn missing_pattern(width: u32) -> (m: u64)
    requires
        width <= 32,
    ensures
        m == all_ones(width as nat),
        m <= 0xFFFF_FFFF,
{
    proof {
        lemma2_to64();
        if width < 32 {
            lemma_pow2_strictly_increases(width as nat, 32);
        }
        lemma_u64_shl_is_mul(1, width as u64);
    }
    (1u64 << (width as u64)) - 1
}

impl Value {
    /// The value of a numeric field of `width` bits that reads `raw`.
    ///
    /// The effective scale is `table_scale + scale_offset`. The result is
    /// `Missing` exactly when every bit of the field is set, and an
    /// `Integer` exactly when it is not missing and the effective scale is
    /// zero.
    pub fn numeric(raw: u64, width: u32, reference_value: i32, table_scale: i8, scale_offset: i8) -> (v: Value)
        requires
            width <= 32,
        ensures
            v@ == numeric_value(raw as int, width as nat, reference_value as int, table_scale + scale_offset),
            v is Missing <==> raw == all_ones(width as nat),
            v is Integer <==> raw != all_ones(width as nat) && table_scale + scale_offset == 0,
            v is Decimal <==> raw != all_ones(width as nat) && table_scale + scale_offset != 0,
    {
        if raw == missing_pattern(width) {
            return Value::Missing;
        }
        let low: i64 = (raw % 0x1_0000_0000) as i64;
        let sum: i64 = low + reference_value as i64;
        let narrowed: i32 = if sum > 0x7FFF_FFFF {
            (sum - 0x1_0000_0000) as i32
        } else if sum < -0x8000_0000 {
            (sum + 0x1_0000_0000) as i32
        } else {
            sum as i32
        };
        let scale: i16 = table_scale as i16 + scale_offset as i16;
        if scale == 0 {
            Value::Integer(narrowed)
        } else {
            let negated: i16 = -scale;
            let exponent: i8 = if negated > 127 {
                (negated - 256) as i8
            } else if negated < -128 {
                (negated + 256) as i8
            } else {
                negated as i8
            };
            Value::Decimal(narrowed, exponent)
        }
    }

    /// The value of a character field: the text that `octets` encode in
    /// UTF-8, or `None` where they are not well-formed UTF-8.
    pub fn text(octets: Vec<u8>) -> (r: Option<Value>)
        ensures
            r is Some <==> valid_utf8(octets@),
            r matches Some(v) ==> v@ == ValueModel::Text(decode_utf8(octets@)),
    {
        match string_from_utf8(octets) {
            Ok(s) => Some(Value::String(s)),
            Err(_) => None,
        }
    }

    /// Renders the value as text.
    ///
    /// A decimal `Decimal(m, e)` is written exactly, as `m * 10^e`: with
    /// `-e` digits behind the point where `e` is negative, as an integer
    /// otherwise.
    pub fn to_text(&self) -> (s: String)
        ensures
            s@ == value_text(self@),
    {
        match self {
            Value::Missing => String::from_str("Missing"),
            Value::Integer(v) => decimal_text(*v as i64),
            Value::Decimal(m, e) => decimal_with_exponent(*m, *e),
            Value::String(t) => {
                let mut s = String::new();
                push_char(&mut s, '"');
                s.append(t.as_str());
                push_char(&mut s, '"');
                s
            },
        }
    }
}

/// The exact text of `mantissa * 10^exponent`.
pub fn decimal_with_exponent(mantissa: i32, exponent: i8) -> (s: String)
    ensures
        s@ == scaled_decimal(mantissa as int, exponent as int),
{
    let magnitude: u64 = if mantissa < 0 {
        (-(mantissa as i64)) as u64
    } else {
        mantissa as u64
    };
    let mut digits = String::new();
    append_decimal(&mut digits, magnitude);
    let len = digits.as_str().unicode_len();
    let mut s = String::new();
    if exponent >= 0 {
        if mantissa == 0 {
            return digits;
        }
        if mantissa < 0 {
            push_char(&mut s, '-');
        }
        s.append(digits.as_str());
        append_zeros(&mut s, exponent as usize);
        s
    } else {
        let places: usize = (-(exponent as i16)) as usize;
        if mantissa < 0 {
            push_char(&mut s, '-');
        }
        if len > places {
            let split = len - places;
            s.append(digits.as_str().substring_char(0, split));
            push_char(&mut s, '.');
            s.append(digits.as_str().substring_char(split, len));
            s
        } else {
            push_char(&mut s, '0');
            push_char(&mut s, '.');
            append_zeros(&mut s, places - len);
            s.append(digits.as_str());
            s
        }
    }
}

} // verus!
