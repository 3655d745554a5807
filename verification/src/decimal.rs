//! Reading amounts and odds that arrive as text.
//!
//! Two forms are read. A count of base units is a run of decimal digits. A
//! decimal is a run of digits, optionally followed by a point and one to six
//! more digits; it is read in millionths. No sign, no exponent, no spaces.

use vstd::prelude::*;
use vstd::utf8::encode_utf8;

verus! {

/// Base units in one millionth of a unit of money: a unit has 24 decimal
/// places on the chain and six in the ledger.
pub const BASE_UNITS_PER_MILLIONTH: u128 = 1_000_000_000_000_000_000;

/// The byte of the decimal point.
pub const POINT: u8 = 46;

/// Whether the byte is a decimal digit.
pub open spec fn is_digit(byte: u8) -> bool {
    48 <= byte <= 57
}

/// Whether the bytes are decimal digits throughout.
pub open spec fn all_digits(text: Seq<u8>) -> bool {
    forall|i: int| 0 <= i < text.len() ==> is_digit(#[trigger] text[i])
}

/// The number that the digits spell.
pub open spec fn digits_value(text: Seq<u8>) -> int
    decreases text.len(),
{
    if text.len() == 0 {
        0
    } else {
        10 * digits_value(text.drop_last()) + (text.last() - 48)
    }
}

/// Ten to the power of `exponent`.
pub open spec fn pow10(exponent: int) -> int
    decreases exponent,
{
    if exponent <= 0 {
        1
    } else {
        10 * pow10(exponent - 1)
    }
}

/// The number that a non-empty run of digits spells.
pub open spec fn whole_number(text: Seq<u8>) -> Option<int> {
    if text.len() > 0 && all_digits(text) {
        Some(digits_value(text))
    } else {
        None
    }
}

/// Where the first decimal point stands, or the length of the text if it
/// has none.
pub open spec fn point_position(text: Seq<u8>) -> int
    decreases text.len(),
{
    if text.len() == 0 || text[0] == POINT {
        0
    } else {
        1 + point_position(text.drop_first())
    }
}

/// The decimal that the text spells, in millionths: digits, and optionally
/// a point followed by one to six digits.
pub open spec fn decimal_millionths(text: Seq<u8>) -> Option<int> {
    let point: int = point_position(text);
    let whole: Seq<u8> = text.take(point);
    if point == text.len() {
        match whole_number(whole) {
            Some(units) => Some(1_000_000 * units),
            None => None,
        }
    } else {
        let fraction: Seq<u8> = text.skip(point + 1);
        if fraction.len() <= 6 {
            match (whole_number(whole), whole_number(fraction)) {
                (Some(units), Some(part)) => Some(
                    1_000_000 * units + part * pow10(6 - fraction.len()),
                ),
                _ => None,
            }
        } else {
            None
        }
    }
}

/// An amount in millionths, read from a decimal: `None` if the text is no
/// decimal or spells more than 64 bits hold.
pub open spec fn decimal_amount(text: Seq<char>) -> Option<u64> {
    match decimal_millionths(encode_utf8(text)) {
        Some(value) => if value <= u64::MAX {
            Some(value as u64)
        } else {
            None
        },
        None => None,
    }
}

/// An amount in millionths, read from a count of base units and rounded
/// down: `None` if the text is no run of digits or spells more than 64 bits
/// of millionths.
pub open spec fn base_unit_amount(text: Seq<char>) -> Option<u64> {
    match whole_number(encode_utf8(text)) {
        Some(value) => if value / (BASE_UNITS_PER_MILLIONTH as int) <= u64::MAX {
            Some((value / (BASE_UNITS_PER_MILLIONTH as int)) as u64)
        } else {
            None
        },
        None => None,
    }
}

/// A balance in base units as funds in millionths: rounded down, and at
/// most what 64 bits hold.
pub open spec fn funds_of(balance: u128) -> u64 {
    if balance / BASE_UNITS_PER_MILLIONTH <= u64::MAX {
        (balance / BASE_UNITS_PER_MILLIONTH) as u64
    } else {
        u64::MAX
    }
}

/// Turns a balance in base units into funds in millionths.
pub fn funds_in_millionths(balance: u128) -> (r: u64)
    ensures
        r == funds_of(balance),
{
    let millionths: u128 = balance / BASE_UNITS_PER_MILLIONTH;
    if millionths <= u64::MAX as u128 {
        millionths as u64
    } else {
        u64::MAX
    }
}

/// A longer run of digits spells no smaller a number.
proof fn lemma_digits_grow(text: Seq<u8>, count: int)
    requires
        all_digits(text),
        0 <= count <= text.len(),
    ensures
        0 <= digits_value(text.take(count)) <= digits_value(text),
    decreases text.len() - count,
{
    lemma_digits_nonnegative(text.take(count));
    if count < text.len() {
        lemma_digits_grow(text, count + 1);
        assert(text.take(count + 1).drop_last() =~= text.take(count));
        assert(is_digit(text[count]));
    } else {
        assert(text.take(count) =~= text);
    }
}

proof fn lemma_digits_nonnegative(text: Seq<u8>)
    requires
        all_digits(text),
    ensures
        0 <= digits_value(text),
    decreases text.len(),
{
    if text.len() > 0 {
        assert(is_digit(text[text.len() - 1]));
        lemma_digits_nonnegative(text.drop_last());
    }
}

/// The powers of ten up to a million.
proof fn lemma_pow10_small(exponent: int)
    requires
        0 <= exponent <= 6,
    ensures
        pow10(exponent) == if exponent == 0 {
            1int
        } else if exponent == 1 {
            10
        } else if exponent == 2 {
            100
        } else if exponent == 3 {
            1_000
        } else if exponent == 4 {
            10_000
        } else if exponent == 5 {
            100_000
        } else {
            1_000_000
        },
    decreases exponent,
{
    if exponent > 0 {
        lemma_pow10_small(exponent - 1);
    }
}

/// A run of digits spells less than ten to the power of its length.
proof fn lemma_digits_below_power(text: Seq<u8>)
    requires
        all_digits(text),
    ensures
        0 <= digits_value(text) < pow10(text.len() as int),
    decreases text.len(),
{
    if text.len() > 0 {
        assert(is_digit(text[text.len() - 1]));
        lemma_digits_below_power(text.drop_last());
    }
}

/// A decimal is at least its whole part.
proof fn lemma_decimal_exceeds_its_units(text: Seq<u8>)
    ensures
        decimal_millionths(text) matches Some(value) ==> whole_number(
            text.take(point_position(text)),
        ) matches Some(units) && value >= 1_000_000 * units,
{
    let point: int = point_position(text);
    if point != text.len() {
        let fraction: Seq<u8> = text.skip(point + 1);
        if fraction.len() <= 6 && whole_number(fraction) is Some {
            lemma_digits_below_power(fraction);
            lemma_pow10_small(6 - fraction.len());
            let part: int = digits_value(fraction);
            let scale: int = pow10(6 - fraction.len());
            assert(part * scale >= 0) by (nonlinear_arith)
                requires
                    part >= 0,
                    scale >= 0,
            ;
        }
    }
}

/// The number that the digits `text[from..to]` spell, if they are digits,
/// there is at least one, and the number does not exceed `limit`.
fn read_digits(text: &[u8], from: usize, to: usize, limit: u128) -> (r: Option<u128>)
    requires
        from <= to <= text@.len(),
    ensures
        r matches Some(value) ==> whole_number(text@.subrange(from as int, to as int)) == Some(
            value as int,
        ) && value <= limit,
        r is None ==> match whole_number(text@.subrange(from as int, to as int)) {
            Some(value) => value > limit,
            None => true,
        },
{
    if from == to {
        return None;
    }
    let ghost digits: Seq<u8> = text@.subrange(from as int, to as int);
    let mut value: u128 = 0;
    let mut i: usize = from;
    assert(digits.take(0) =~= Seq::<u8>::empty());
    while i < to
        invariant
            from <= i <= to <= text@.len(),
            digits == text@.subrange(from as int, to as int),
            all_digits(digits.take(i - from)),
            value == digits_value(digits.take(i - from)),
            value <= limit,
        decreases to - i,
    {
        let byte: u8 = text[i];
        assert(byte == digits[i - from]);
        assert(digits.take(i - from + 1).drop_last() =~= digits.take(i - from));
        if byte < 48 || byte > 57 {
            return None;
        }
        let digit: u128 = (byte - 48) as u128;
        proof {
            if all_digits(digits) {
                lemma_digits_grow(digits, i - from + 1);
            }
        }
        if digit > limit || value > (limit - digit) / 10 {
            return None;
        }
        value = 10 * value + digit;
        i = i + 1;
    }
    assert(digits.take(to - from) =~= digits);
    Some(value)
}

/// Reads a run of digits as a count of base units and returns the amount
/// in millionths, rounded down.
pub fn parse_base_units(text: &str) -> (r: Option<u64>)
    ensures
        r == base_unit_amount(text@),
{
    let bytes: &[u8] = text.as_bytes();
    assert(bytes@.subrange(0, bytes@.len() as int) =~= bytes@);
    match read_digits(bytes, 0, bytes.len(), u128::MAX) {
        Some(value) => {
            let millionths: u128 = value / BASE_UNITS_PER_MILLIONTH;
            if millionths <= u64::MAX as u128 {
                Some(millionths as u64)
            } else {
                None
            }
        },
        None => None,
    }
}

/// Reads a decimal and returns it in millionths.
pub fn parse_decimal(text: &str) -> (r: Option<u64>)
    ensures
        r == decimal_amount(text@),
{
    let bytes: &[u8] = text.as_bytes();
    let length: usize = bytes.len();
    let mut point: usize = 0;
    assert(bytes@.skip(0) =~= bytes@);
    while point < length && bytes[point] != POINT
        invariant
            point <= length == bytes@.len(),
            point_position(bytes@) == point + point_position(bytes@.skip(point as int)),
        decreases length - point,
    {
        assert(bytes@.skip(point as int).drop_first() =~= bytes@.skip(point + 1));
        point = point + 1;
    }
    assert(point_position(bytes@) == point);
    assert(bytes@.subrange(0, point as int) =~= bytes@.take(point as int));
    proof {
        lemma_decimal_exceeds_its_units(bytes@);
    }
    // More whole units than this are more millionths than 64 bits hold.
    let units: u128 = match read_digits(bytes, 0, point, 18_446_744_073_709) {
        Some(units) => units,
        None => {
            return None;
        },
    };
    if point == length {
        return Some((1_000_000 * units) as u64);
    }
    assert(bytes@.subrange(point + 1, length as int) =~= bytes@.skip(point + 1));
    if length - point - 1 > 6 {
        return None;
    }
    let ghost fraction: Seq<u8> = bytes@.skip(point + 1);
    proof {
        if all_digits(fraction) {
            lemma_digits_below_power(fraction);
            lemma_pow10_small(fraction.len() as int);
        }
    }
    let mut part: u128 = match read_digits(bytes, point + 1, length, 999_999) {
        Some(part) => part,
        None => {
            return None;
        },
    };
    let ghost spelled: int = part as int;
    let mut places: usize = length - point - 1;
    proof {
        lemma_pow10_small(0);
    }
    while places < 6
        invariant
            length - point - 1 <= places <= 6,
            part == spelled * pow10(places - (length - point - 1)),
            part < pow10(places as int),
        decreases 6 - places,
    {
        proof {
            lemma_pow10_small(places as int);
            let scale: int = pow10(places - (length - point - 1));
            assert(10 * (spelled * scale) == spelled * (10 * scale)) by (nonlinear_arith);
        }
        part = 10 * part;
        places = places + 1;
    }
    proof {
        lemma_pow10_small(6);
    }
    let value: u128 = 1_000_000 * units + part;
    if value <= u64::MAX as u128 {
        Some(value as u64)
    } else {
        None
    }
}

} // verus!
