//! Decimal text: the digits of numbers, written without floating point.
use vstd::prelude::*;
use vstd::string::{StrSliceExecFns, StringExecFns};

verus! {

/// The character of the decimal digit `d`.
pub open spec fn digit_char(d: nat) -> char {
    ((48 + d) as u8) as char
}

/// The decimal digits of `n`, most significant first, without leading zeros.
pub open spec fn decimal_digits(n: nat) -> Seq<char>
    decreases n,
{
    if n < 10 {
        seq![digit_char(n)]
    } else {
        decimal_digits(n / 10).push(digit_char(n % 10))
    }
}

/// `count` zeros.
pub open spec fn zeros(count: nat) -> Seq<char> {
    Seq::new(count, |i: int| '0')
}

/// The decimal digits of `n`, with zeros before them where they are fewer
/// than `width`.
pub open spec fn zero_padded(n: nat, width: nat) -> Seq<char> {
    let digits = decimal_digits(n);
    if digits.len() >= width {
        digits
    } else {
        zeros((width - digits.len()) as nat) + digits
    }
}

/// The magnitude of `v`.
pub open spec fn magnitude(v: int) -> nat {
    if v < 0 {
        (-v) as nat
    } else {
        v as nat
    }
}

/// The decimal text of `v`: a minus sign where it is negative, then the
/// digits of its magnitude.
pub open spec fn signed_decimal(v: int) -> Seq<char> {
    if v < 0 {
        seq!['-'] + decimal_digits(magnitude(v))
    } else {
        decimal_digits(magnitude(v))
    }
}

/// The text of `mantissa * 10^exponent` with no digit dropped and none
/// invented: for an exponent of zero or more the integer itself, for a
/// negative exponent exactly `-exponent` digits behind the point and at least
/// one before it.
pub open spec fn scaled_decimal(mantissa: int, exponent: int) -> Seq<char> {
    let sign = if mantissa < 0 {
        seq!['-']
    } else {
        Seq::<char>::empty()
    };
    let digits = decimal_digits(magnitude(mantissa));
    if exponent >= 0 {
        if mantissa == 0 {
            digits
        } else {
            sign + digits + zeros(exponent as nat)
        }
    } else {
        let places = (-exponent) as nat;
        let padded = if digits.len() > places {
            digits
        } else {
            zeros((places + 1 - digits.len()) as nat) + digits
        };
        let split = padded.len() - places;
        sign + padded.take(split) + seq!['.'] + padded.skip(split)
    }
}

/// Ten to the power `e`.
pub open spec fn pow10(e: nat) -> nat
    decreases e,
{
    if e == 0 {
        1
    } else {
        10 * pow10((e - 1) as nat)
    }
}

/// The number that a run of decimal digits spells.
pub open spec fn digits_value(digits: Seq<char>) -> int
    decreases digits.len(),
{
    if digits.len() == 0 {
        0
    } else {
        10 * digits_value(digits.drop_last()) + (digits.last() as int - 48)
    }
}

/// The digits of a number spell that number.
pub proof fn lemma_digits_spell_the_number(n: nat)
    ensures
        digits_value(decimal_digits(n)) == n,
        decimal_digits(n).len() >= 1,
    decreases n,
{
    if n < 10 {
        assert(seq![digit_char(n)].drop_last() =~= Seq::<char>::empty());
        assert(digits_value(Seq::<char>::empty()) == 0);
    } else {
        lemma_digits_spell_the_number(n / 10);
        assert(decimal_digits(n / 10).push(digit_char(n % 10)).drop_last() =~= decimal_digits(n / 10));
    }
}

/// Two runs of digits, one behind the other, spell the first number moved
/// up by the length of the second, plus the second.
pub proof fn lemma_digits_value_of_two_runs(front: Seq<char>, back: Seq<char>)
    ensures
        digits_value(front + back) == digits_value(front) * pow10(back.len()) + digits_value(back),
    decreases back.len(),
{
    if back.len() == 0 {
        assert(digits_value(front) * pow10(0) == digits_value(front)) by (nonlinear_arith)
            requires
                pow10(0) == 1,
        ;
    } else {
        let shorter = back.drop_last();
        lemma_digits_value_of_two_runs(front, shorter);
        assert((front + back).drop_last() =~= front + shorter);
        let high = digits_value(front);
        let unit = pow10(shorter.len());
        assert(10 * (high * unit) == high * (10 * unit)) by (nonlinear_arith);
    }
}

/// Zeros spell zero.
pub proof fn lemma_zeros_spell_zero(count: nat)
    ensures
        digits_value(zeros(count)) == 0,
    decreases count,
{
    if count > 0 {
        lemma_zeros_spell_zero((count - 1) as nat);
        assert(zeros(count).drop_last() =~= zeros((count - 1) as nat));
    }
}

/// The text of `mantissa * 10^exponent` reads back as that number.
///
/// Behind the sign of a negative mantissa, and for an exponent of zero or
/// more, the text is a run of digits that spells the magnitude of the
/// mantissa times that power of ten. For a negative exponent the text holds a
/// point with exactly `-exponent` digits behind it and at least one before it,
/// and the digits before and behind the point, read as one run, spell the
/// magnitude of the mantissa.
pub proof fn lemma_scaled_decimal_reads_back(mantissa: int, exponent: int)
    ensures
        ({
            let text = scaled_decimal(mantissa, exponent);
            let unsigned = if mantissa < 0 {
                text.skip(1)
            } else {
                text
            };
            let places = -exponent;
            let point = unsigned.len() - places - 1;
            &&& mantissa < 0 ==> text.len() > 0 && text[0] == '-'
            &&& exponent >= 0 ==> digits_value(unsigned) == magnitude(mantissa) * pow10(exponent as nat)
            &&& exponent < 0 ==> {
                &&& point >= 1
                &&& unsigned[point] == '.'
                &&& digits_value(unsigned.take(point) + unsigned.skip(point + 1)) == magnitude(mantissa)
            }
        }),
{
    let text = scaled_decimal(mantissa, exponent);
    let digits = decimal_digits(magnitude(mantissa));
    lemma_digits_spell_the_number(magnitude(mantissa));
    if exponent >= 0 {
        if mantissa == 0 {
            assert(0 * pow10(exponent as nat) == 0) by (nonlinear_arith);
        } else {
            let unsigned = digits + zeros(exponent as nat);
            if mantissa < 0 {
                assert(text.skip(1) =~= unsigned);
            }
            lemma_digits_value_of_two_runs(digits, zeros(exponent as nat));
            lemma_zeros_spell_zero(exponent as nat);
        }
    } else {
        let places = (-exponent) as nat;
        let padded = if digits.len() > places {
            digits
        } else {
            zeros((places + 1 - digits.len()) as nat) + digits
        };
        let split = padded.len() - places;
        let unsigned = padded.take(split) + seq!['.'] + padded.skip(split);
        if mantissa < 0 {
            assert(text.skip(1) =~= unsigned);
        }
        assert(unsigned.take(split) + unsigned.skip(split + 1) =~= padded);
        if digits.len() <= places {
            lemma_digits_value_of_two_runs(zeros((places + 1 - digits.len()) as nat), digits);
            lemma_zeros_spell_zero((places + 1 - digits.len()) as nat);
            assert(0 * pow10(digits.len()) == 0) by (nonlinear_arith);
        }
    }
}

/// `String::push`: the character is appended.
#[verifier::external_body]
pub(crate) fn push_char(s: &mut String, c: char)
    ensures
        final(s)@ == old(s)@.push(c),
{
    s.push(c)
}

/// Appends the decimal digits of `n` to `s`.
pub fn append_decimal(s: &mut String, n: u64)
    ensures
        final(s)@ == old(s)@ + decimal_digits(n as nat),
    decreases n,
{
    if n >= 10 {
        append_decimal(s, n / 10);
    }
    let d: u8 = (n % 10) as u8;
    let c: char = (48u8 + d) as char;
    push_char(s, c);
}

/// Appends `count` zeros to `s`.
pub fn append_zeros(s: &mut String, count: usize)
    ensures
        final(s)@ == old(s)@ + zeros(count as nat),
{
    let mut i: usize = 0;
    while i < count
        invariant
            i <= count,
            s@ == old(s)@ + zeros(i as nat),
        decreases count - i,
    {
        push_char(s, '0');
        i = i + 1;
    }
}

/// Appends the decimal digits of `n` to `s`, with zeros before them where
/// they are fewer than `width`.
pub fn append_zero_padded(s: &mut String, n: u64, width: usize)
    ensures
        final(s)@ == old(s)@ + zero_padded(n as nat, width as nat),
{
    let mut digits = String::new();
    append_decimal(&mut digits, n);
    let len = digits.as_str().unicode_len();
    if len < width {
        append_zeros(s, width - len);
    }
    s.append(digits.as_str());
}

/// `prefix` followed by the decimal digits of `n`.
pub fn text_with_number(prefix: &str, n: u64) -> (s: String)
    ensures
        s@ == prefix@ + decimal_digits(n as nat),
{
    let mut s = String::from_str(prefix);
    append_decimal(&mut s, n);
    s
}

/// The decimal text of `v`.
pub fn decimal_text(v: i64) -> (s: String)
    ensures
        s@ == signed_decimal(v as int),
{
    let mut s = String::new();
    if v < 0 {
        push_char(&mut s, '-');
        let magnitude: u64 = if v == i64::MIN {
            9223372036854775808u64
        } else {
            (-v) as u64
        };
        append_decimal(&mut s, magnitude);
    } else {
        append_decimal(&mut s, v as u64);
    }
    s
}

} // verus!
