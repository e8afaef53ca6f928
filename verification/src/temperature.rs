//! The fixed-point temperature literal: an optional minus sign, integer digits,
//! a point and one fractional digit.

use vstd::prelude::*;
use crate::scan::{find, find_from, lemma_find_from, lemma_find_from_unique};

verus! {

/// The minus sign.
pub const MINUS: u8 = 45;

/// The point between the integer digits and the tenths digit.
pub const POINT: u8 = 46;

/// The digit zero.
pub const ZERO: u8 = 48;

/// The digit nine.
pub const NINE: u8 = 57;

/// The most integer digits a literal may have: with one more, the tenths
/// would not fit 64 bits.
pub const MAX_INTEGER_DIGITS: usize = 17;

/// The largest magnitude a literal can denote, in tenths.
pub const MAX_TENTHS: i64 = 999_999_999_999_999_999;

/// Whether `byte` is a decimal digit.
pub open spec fn is_digit(byte: u8) -> bool {
    ZERO <= byte <= NINE
}

/// The number that a digit stands for.
pub open spec fn digit_value(byte: u8) -> int {
    byte - ZERO
}

/// The number that a run of decimal digits denotes, most significant first.
pub open spec fn digits_value(digits: Seq<u8>) -> int
    decreases digits.len(),
{
    if digits.len() == 0 {
        0
    } else {
        digits_value(digits.drop_last()) * 10 + digit_value(digits.last())
    }
}

/// Whether `digits` holds decimal digits only.
pub open spec fn all_digits(digits: Seq<u8>) -> bool {
    forall|k: int| 0 <= k < digits.len() ==> is_digit(#[trigger] digits[k])
}

/// The `n`-th power of ten.
pub open spec fn pow10(n: nat) -> nat
    decreases n,
{
    if n == 0 {
        1
    } else {
        10 * pow10((n - 1) as nat)
    }
}

/// Whether `bytes` opens with a minus sign.
pub open spec fn is_negative(bytes: Seq<u8>) -> bool {
    bytes.len() > 0 && bytes[0] == MINUS
}

/// Where the integer digits begin.
pub open spec fn digits_start(bytes: Seq<u8>) -> int {
    if is_negative(bytes) {
        1
    } else {
        0
    }
}

/// Where the point stands: the first one after the sign.
pub open spec fn point_index(bytes: Seq<u8>) -> int {
    find_from(bytes, POINT, digits_start(bytes))
}

/// The integer digits of the literal.
pub open spec fn integer_digits(bytes: Seq<u8>) -> Seq<u8> {
    bytes.subrange(digits_start(bytes), point_index(bytes))
}

/// `bytes` begins with a temperature literal; what follows the tenths digit is
/// not looked at.
pub open spec fn starts_with_temperature(bytes: Seq<u8>) -> bool {
    &&& point_index(bytes) + 1 < bytes.len()
    &&& 1 <= point_index(bytes) - digits_start(bytes) <= MAX_INTEGER_DIGITS
    &&& all_digits(integer_digits(bytes))
    &&& is_digit(bytes[point_index(bytes) + 1])
}

/// The length of the literal that `bytes` begins with.
pub open spec fn temperature_len(bytes: Seq<u8>) -> int {
    point_index(bytes) + 2
}

/// `bytes` is a temperature literal and nothing more.
pub open spec fn is_temperature(bytes: Seq<u8>) -> bool {
    starts_with_temperature(bytes) && bytes.len() == temperature_len(bytes)
}

/// The temperature that the literal at the start of `bytes` denotes, in tenths
/// of a degree.
pub open spec fn temperature_tenths(bytes: Seq<u8>) -> int {
    let magnitude = digits_value(integer_digits(bytes)) * 10 + digit_value(
        bytes[point_index(bytes) + 1],
    );
    if is_negative(bytes) {
        -magnitude
    } else {
        magnitude
    }
}

/// A run of `n` digits denotes a number below the `n`-th power of ten.
pub proof fn lemma_digits_value_bound(digits: Seq<u8>)
    requires
        all_digits(digits),
    ensures
        0 <= digits_value(digits) < pow10(digits.len()),
    decreases digits.len(),
{
    if digits.len() > 0 {
        let front = digits.drop_last();
        lemma_digits_value_bound(front);
    }
}

/// A greater power of ten is no less.
pub proof fn lemma_pow10_monotonic(a: nat, b: nat)
    requires
        a <= b,
    ensures
        pow10(a) <= pow10(b),
    decreases b,
{
    if a < b {
        lemma_pow10_monotonic(a, (b - 1) as nat);
    }
}

/// Every literal denotes a temperature within `MAX_TENTHS` of zero.
pub proof fn lemma_temperature_bound(bytes: Seq<u8>)
    requires
        starts_with_temperature(bytes),
    ensures
        -MAX_TENTHS <= temperature_tenths(bytes) <= MAX_TENTHS,
{
    let digits = integer_digits(bytes);
    lemma_digits_value_bound(digits);
    lemma_pow10_monotonic(digits.len(), 17);
    assert(pow10(17) == 100_000_000_000_000_000) by {
        reveal_with_fuel(pow10, 18);
    }
}

/// Bytes that begin with a literal denote what the literal denotes, whatever
/// follows it.
pub proof fn lemma_temperature_prefix(literal: Seq<u8>, bytes: Seq<u8>)
    requires
        starts_with_temperature(literal),
        literal.len() <= bytes.len(),
        bytes.subrange(0, literal.len() as int) == literal,
    ensures
        starts_with_temperature(bytes),
        temperature_tenths(bytes) == temperature_tenths(literal),
        temperature_len(bytes) == temperature_len(literal),
{
    assert forall|k: int| 0 <= k < literal.len() implies bytes[k] == literal[k] by {
        assert(bytes.subrange(0, literal.len() as int)[k] == bytes[k]);
    }
    lemma_find_from(literal, POINT, digits_start(literal));
    lemma_find_from_unique(bytes, POINT, digits_start(bytes), point_index(literal));
    assert(integer_digits(bytes) =~= integer_digits(literal));
}

/// The length of the temperature literal that `bytes` begins with, if it
/// begins with one.
pub fn literal_len(bytes: &[u8]) -> (out: Option<usize>)
    ensures
        out.is_some() == starts_with_temperature(bytes@),
        out.is_some() ==> out.unwrap() == temperature_len(bytes@),
{
    let n = bytes.len();
    if n == 0 {
        return None;
    }
    let start: usize = if bytes[0] == MINUS { 1 } else { 0 };
    let point = find(bytes, POINT, start);
    proof {
        lemma_find_from(bytes@, POINT, start as int);
    }
    if point >= n - 1 || point == start || point - start > MAX_INTEGER_DIGITS {
        return None;
    }
    let ghost digits = integer_digits(bytes@);
    let mut i: usize = start;
    while i < point
        invariant
            start <= i <= point < bytes@.len(),
            point == point_index(bytes@),
            digits == integer_digits(bytes@),
            digits == bytes@.subrange(start as int, point as int),
            forall|k: int| 0 <= k < i - start ==> is_digit(#[trigger] digits[k]),
        decreases point - i,
    {
        if bytes[i] < ZERO || bytes[i] > NINE {
            proof {
                assert(!is_digit(digits[i - start]));
            }
            return None;
        }
        i += 1;
    }
    if bytes[point + 1] < ZERO || bytes[point + 1] > NINE {
        return None;
    }
    Some(point + 2)
}

/// Reads the temperature literal at the start of `bytes` and returns it in
/// tenths of a degree: `-12.3` gives -123.
///
/// The digits before the point are weighed by their position, most significant
/// first; the digit after the point counts once; the sign is applied last.
#[inline]
pub fn custom_parse_float(bytes: &[u8]) -> (tenths: i64)
    requires
        starts_with_temperature(bytes@),
    ensures
        tenths == temperature_tenths(bytes@),
        -MAX_TENTHS <= tenths <= MAX_TENTHS,
{
    let negative = bytes[0] == MINUS;
    let start: usize = if negative { 1 } else { 0 };
    let point = find(bytes, POINT, start);
    proof {
        lemma_temperature_bound(bytes@);
    }
    let ghost digits = integer_digits(bytes@);
    let mut magnitude: i64 = 0;
    let mut i: usize = start;
    while i < point
        invariant
            start <= i <= point < bytes@.len(),
            digits == bytes@.subrange(start as int, point as int),
            all_digits(digits),
            point - start <= MAX_INTEGER_DIGITS,
            magnitude == digits_value(digits.take(i - start)),
            0 <= magnitude < pow10((i - start) as nat),
        decreases point - i,
    {
        proof {
            let before = digits.take(i - start);
            let after = digits.take(i + 1 - start);
            assert(after.drop_last() == before);
            assert(after.last() == bytes@[i as int]);
            assert(pow10(16) == 10_000_000_000_000_000) by {
                reveal_with_fuel(pow10, 17);
            }
        }
        magnitude = magnitude * 10 + (bytes[i] - ZERO) as i64;
        i += 1;
    }
    proof {
        assert(digits.take(point - start) == digits);
    }
    let tenths = magnitude * 10 + (bytes[point + 1] - ZERO) as i64;
    if negative {
        -tenths
    } else {
        tenths
    }
}

} // verus!
