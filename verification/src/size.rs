//! Byte counts as text: `15M`, `2.5G`, `512`.
//!
//! A size is read as a decimal number with an optional unit letter behind
//! it. A lower-case letter counts in powers of 1024, an upper-case letter in
//! powers of 1000. A size is written with the upper-case letters only.

use vstd::prelude::*;
use vstd::arithmetic::div_mod::{lemma_div_denominator, lemma_hoist_over_denominator};
use vstd::arithmetic::power::{lemma_pow0, lemma_pow1, lemma_pow_adds, lemma_pow_positive, pow};
use vstd::slice::slice_subrange;
use crate::decimal::{
    all_digits, char_of_digit, decimal_digits, decimal_value, digit_char, digit_of, digit_value,
    is_digit, lemma_decimal_value_bound, lemma_decimal_value_concat, push_decimal,
};
use crate::text::{chars_of, string_of, trim, trimmed};

verus! {

/// Why a text is not a size.
#[derive(Debug, Clone, Copy, PartialEq, Eq)]
pub enum SizeError {
    /// The text is empty, its number is no decimal number, or the letter
    /// behind the number is no unit.
    InvalidFormat,
}

/// How many bytes one unit of the letter `c` holds; nothing where `c` is no
/// unit letter.
pub open spec fn multiplier_of(c: char) -> Option<u64> {
    if c == 'k' {
        Some(1024u64)
    } else if c == 'K' {
        Some(1000u64)
    } else if c == 'm' {
        Some(1_048_576u64)
    } else if c == 'M' {
        Some(1_000_000u64)
    } else if c == 'g' {
        Some(1_073_741_824u64)
    } else if c == 'G' {
        Some(1_000_000_000u64)
    } else {
        None
    }
}

/// Where the decimal point of `s` stands; the length of `s` if it has none.
pub open spec fn point_at(s: Seq<char>) -> int
    decreases s.len(),
{
    if s.len() == 0 || s[0] == '.' {
        0
    } else {
        1 + point_at(s.drop_first())
    }
}

/// The digits before the decimal point.
pub open spec fn whole_part(number: Seq<char>) -> Seq<char> {
    number.take(point_at(number))
}

/// The digits behind the decimal point.
pub open spec fn fraction_part(number: Seq<char>) -> Seq<char> {
    if point_at(number) < number.len() {
        number.skip(point_at(number) + 1)
    } else {
        Seq::empty()
    }
}

/// Whether `number` is a decimal number: digits, with at most one decimal
/// point among them, before them or behind them, and at least one digit.
pub open spec fn is_number(number: Seq<char>) -> bool {
    &&& all_digits(whole_part(number))
    &&& all_digits(fraction_part(number))
    &&& whole_part(number).len() + fraction_part(number).len() > 0
}

/// `value` divided by the power of ten with `places` zeros, rounded down.
pub open spec fn shifted_down(value: nat, places: nat) -> nat {
    (value as int / pow(10, places)) as nat
}

/// The number times `multiplier`, without what is left behind the point.
pub open spec fn scaled_value(number: Seq<char>, multiplier: nat) -> nat {
    shifted_down(
        decimal_value(whole_part(number) + fraction_part(number)) * multiplier,
        fraction_part(number).len(),
    )
}

/// `value`, or the largest byte count where `value` is beyond it.
pub open spec fn saturated(value: nat) -> u64 {
    if value > u64::MAX {
        u64::MAX
    } else {
        value as u64
    }
}

/// The number of the size `t`, a text with no white space around it, and
/// the bytes that one unit of it holds.
pub open spec fn split_unit(t: Seq<char>) -> (Seq<char>, u64) {
    match multiplier_of(t.last()) {
        Some(multiplier) => (t.drop_last(), multiplier),
        None => (t, 1u64),
    }
}

/// The byte count that `text` denotes; nothing where it denotes none.
pub open spec fn parsed(text: Seq<char>) -> Option<u64> {
    let t = trimmed(text);
    if t.len() == 0 {
        None
    } else {
        let (number, multiplier) = split_unit(t);
        if is_number(number) {
            Some(saturated(scaled_value(number, multiplier as nat)))
        } else {
            None
        }
    }
}

/// The decimal point stands at `p` if a point stands there and none before.
pub proof fn lemma_point_at_is(s: Seq<char>, p: int)
    requires
        0 <= p <= s.len(),
        p < s.len() ==> s[p] == '.',
        forall|i: int| 0 <= i < p ==> #[trigger] s[i] != '.',
    ensures
        point_at(s) == p,
    decreases s.len(),
{
    if s.len() == 0 || s[0] == '.' {
        if p > 0 {
            assert(s[0] != '.');
        }
    } else {
        let rest = s.drop_first();
        assert forall|i: int| 0 <= i < p - 1 implies #[trigger] rest[i] != '.' by {
            assert(rest[i] == s[i + 1]);
        }
        lemma_point_at_is(rest, p - 1);
    }
}

/// The unit that the letter `c` names.
pub fn unit_multiplier(c: char) -> (multiplier: Option<u64>)
    ensures
        multiplier == multiplier_of(c),
{
    if c == 'k' {
        Some(1024)
    } else if c == 'K' {
        Some(1000)
    } else if c == 'm' {
        Some(1_048_576)
    } else if c == 'M' {
        Some(1_000_000)
    } else if c == 'g' {
        Some(1_073_741_824)
    } else if c == 'G' {
        Some(1_000_000_000)
    } else {
        None
    }
}

/// Two to the power 64: the first value that no byte count can hold.
pub const BEYOND: u128 = 0x1_0000_0000_0000_0000u128;

/// Reads digits as a number. The result is exact below `BEYOND` and is
/// `BEYOND` from there on; there is none where a character is no digit.
pub fn whole_value(digits: &[char]) -> (value: Option<u128>)
    ensures
        value is Some == all_digits(digits@),
        value matches Some(v) ==> v == if decimal_value(digits@) < BEYOND {
            decimal_value(digits@)
        } else {
            BEYOND as nat
        },
{
    let mut value: u128 = 0;
    let mut i: usize = 0;
    assert(digits@.take(0) =~= Seq::<char>::empty());
    while i < digits.len()
        invariant
            i <= digits.len(),
            all_digits(digits@.take(i as int)),
            value <= BEYOND,
            value == if decimal_value(digits@.take(i as int)) < BEYOND {
                decimal_value(digits@.take(i as int))
            } else {
                BEYOND as nat
            },
        decreases digits.len() - i,
    {
        let c = digits[i];
        if !('0' <= c && c <= '9') {
            assert(!is_digit(digits@[i as int]));
            return None;
        }
        proof {
            let longer = digits@.take(i + 1);
            assert(longer.drop_last() =~= digits@.take(i as int));
            assert(longer.last() == c);
            assert forall|k: int| 0 <= k < longer.len() implies is_digit(#[trigger] longer[k]) by {
                if k < i {
                    assert(longer[k] == digits@.take(i as int)[k]);
                }
            }
        }
        let next: u128 = value * 10 + digit_of(c) as u128;
        value = if next < BEYOND { next } else { BEYOND };
        i = i + 1;
    }
    assert(digits@.take(digits@.len() as int) =~= digits@);
    Some(value)
}

/// The digits `[d] + rest` behind a decimal point, times `multiplier`: the
/// first digit's share and that of the rest, moved one place down.
pub proof fn lemma_fraction_step(digits: Seq<char>, multiplier: nat)
    requires
        digits.len() > 0,
        all_digits(digits),
    ensures
        shifted_down(decimal_value(digits) * multiplier, digits.len()) == (digit_value(digits[0])
            * multiplier + shifted_down(
            decimal_value(digits.drop_first()) * multiplier,
            digits.drop_first().len(),
        )) / 10,
{
    let rest = digits.drop_first();
    let first = seq![digits[0]];
    let d = digit_value(digits[0]) as int;
    let r = decimal_value(rest) as int;
    let m = multiplier as int;
    let p = pow(10, rest.len());
    assert(first + rest =~= digits);
    lemma_decimal_value_concat(first, rest);
    assert(first.drop_last() =~= Seq::<char>::empty());
    assert(decimal_value(first.drop_last()) == 0);
    assert(first.last() == digits[0]);
    assert(decimal_value(first) == d);
    lemma_pow_positive(10, rest.len());
    lemma_pow_adds(10, rest.len(), 1);
    lemma_pow1(10);
    assert(pow(10, digits.len()) == p * 10);
    assert((d * p + r) * m == r * m + (d * m) * p) by (nonlinear_arith);
    assert(r * m >= 0) by (nonlinear_arith)
        requires
            r >= 0,
            m >= 0,
    ;
    assert((d * p + r) * m >= 0) by (nonlinear_arith)
        requires
            d >= 0,
            p > 0,
            r >= 0,
            m >= 0,
    ;
    lemma_hoist_over_denominator(r * m, d * m, p as nat);
    lemma_div_denominator((d * p + r) * m, p, 10);
    lemma_fraction_below_unit(rest, multiplier);
    assert(decimal_value(digits) * multiplier == (d * p + r) * m);
    assert(decimal_value(rest) * multiplier == r * m);
}

/// What stands behind the decimal point never adds a whole unit.
pub proof fn lemma_fraction_below_unit(digits: Seq<char>, multiplier: nat)
    requires
        all_digits(digits),
    ensures
        shifted_down(decimal_value(digits) * multiplier, digits.len()) == (decimal_value(digits)
            * multiplier) as int / pow(10, digits.len()),
        shifted_down(decimal_value(digits) * multiplier, digits.len()) <= multiplier,
        multiplier > 0 ==> shifted_down(decimal_value(digits) * multiplier, digits.len())
            < multiplier,
{
    let r = decimal_value(digits) as int;
    let m = multiplier as int;
    let p = pow(10, digits.len());
    lemma_decimal_value_bound(digits);
    lemma_pow_positive(10, digits.len());
    assert(0 <= r * m / p && (m > 0 ==> r * m / p < m) && (m == 0 ==> r * m / p == 0))
        by (nonlinear_arith)
        requires
            0 <= r < p,
            0 <= m,
    ;
    assert(decimal_value(digits) * multiplier == r * m);
}

/// Reads digits that stand behind a decimal point, as a share of
/// `multiplier`, rounded down. There is none where a character is no digit.
pub fn fraction_value(digits: &[char], multiplier: u64) -> (value: Option<u64>)
    requires
        multiplier <= u32::MAX,
    ensures
        value is Some == all_digits(digits@),
        value matches Some(v) ==> v == shifted_down(
            decimal_value(digits@) * multiplier as nat,
            digits@.len(),
        ),
{
    let mut i: usize = 0;
    while i < digits.len()
        invariant
            i <= digits.len(),
            forall|k: int| 0 <= k < i ==> is_digit(#[trigger] digits@[k]),
        decreases digits.len() - i,
    {
        let c = digits[i];
        if !('0' <= c && c <= '9') {
            return None;
        }
        i = i + 1;
    }
    let mut value: u64 = 0;
    let mut j: usize = digits.len();
    proof {
        assert(digits@.skip(j as int) =~= Seq::<char>::empty());
        assert(decimal_value(digits@.skip(j as int)) == 0);
        assert(0nat * multiplier as nat == 0);
        lemma_pow0(10);
    }
    while j > 0
        invariant
            j <= digits.len(),
            all_digits(digits@),
            multiplier <= u32::MAX,
            value <= multiplier,
            value == shifted_down(
                decimal_value(digits@.skip(j as int)) * multiplier as nat,
                (digits.len() - j) as nat,
            ),
        decreases j,
    {
        j = j - 1;
        proof {
            let tail = digits@.skip(j as int);
            assert(tail.drop_first() =~= digits@.skip(j + 1));
            assert(all_digits(tail)) by {
                assert forall|k: int| 0 <= k < tail.len() implies is_digit(#[trigger] tail[k]) by {
                    assert(tail[k] == digits@[j + k]);
                }
            }
            lemma_fraction_step(tail, multiplier as nat);
            lemma_fraction_below_unit(tail, multiplier as nat);
        }
        value = (digit_of(digits[j]) as u64 * multiplier + value) / 10;
    }
    assert(digits@.skip(0) =~= digits@);
    Some(value)
}

/// A number with a decimal point is its whole part times the unit, and the
/// share of the unit that stands behind the point.
pub proof fn lemma_scaled_value_splits(whole: Seq<char>, fraction: Seq<char>, multiplier: nat)
    requires
        all_digits(fraction),
    ensures
        shifted_down(decimal_value(whole + fraction) * multiplier, fraction.len())
            == decimal_value(whole) * multiplier + shifted_down(
            decimal_value(fraction) * multiplier,
            fraction.len(),
        ),
{
    let w = decimal_value(whole) as int;
    let f = decimal_value(fraction) as int;
    let m = multiplier as int;
    let p = pow(10, fraction.len());
    lemma_decimal_value_concat(whole, fraction);
    lemma_pow_positive(10, fraction.len());
    lemma_fraction_below_unit(fraction, multiplier);
    assert((w * p + f) * m == f * m + (w * m) * p) by (nonlinear_arith);
    assert(w * m >= 0) by (nonlinear_arith)
        requires
            w >= 0,
            m >= 0,
    ;
    lemma_hoist_over_denominator(f * m, w * m, p as nat);
    assert(decimal_value(whole + fraction) * multiplier == (w * p + f) * m);
    assert(decimal_value(fraction) * multiplier == f * m);
    assert(decimal_value(whole) * multiplier == w * m);
}

/// Reads a decimal number and gives it in units of `multiplier`, rounded
/// down, and held to the largest byte count where it is beyond that. There
/// is none where `number` is no decimal number.
pub fn parse_number(number: &[char], multiplier: u64) -> (value: Option<u64>)
    requires
        1 <= multiplier <= u32::MAX,
    ensures
        value == if is_number(number@) {
            Some(saturated(scaled_value(number@, multiplier as nat)))
        } else {
            None
        },
{
    let mut point: usize = 0;
    while point < number.len() && number[point] != '.'
        invariant
            point <= number.len(),
            forall|i: int| 0 <= i < point ==> #[trigger] number@[i] != '.',
        decreases number.len() - point,
    {
        point = point + 1;
    }
    proof {
        lemma_point_at_is(number@, point as int);
    }
    let whole = slice_subrange(number, 0, point);
    let fraction = if point < number.len() {
        slice_subrange(number, point + 1, number.len())
    } else {
        slice_subrange(number, point, point)
    };
    assert(whole@ =~= whole_part(number@));
    assert(fraction@ =~= fraction_part(number@));
    if whole.len() == 0 && fraction.len() == 0 {
        return None;
    }
    match whole_value(whole) {
        None => None,
        Some(units) => match fraction_value(fraction, multiplier) {
            None => None,
            Some(share) => {
                proof {
                    lemma_scaled_value_splits(whole@, fraction@, multiplier as nat);
                    lemma_fraction_below_unit(fraction@, multiplier as nat);
                    let w = decimal_value(whole@) as int;
                    let m = multiplier as int;
                    assert(units * m <= BEYOND * m) by (nonlinear_arith)
                        requires
                            units <= BEYOND,
                            m >= 0,
                    ;
                    assert(BEYOND * m <= BEYOND * 0x1_0000_0000) by (nonlinear_arith)
                        requires
                            m <= 0x1_0000_0000,
                    ;
                    assert(w >= BEYOND ==> w * m >= BEYOND) by (nonlinear_arith)
                        requires
                            m >= 1,
                    ;
                }
                let total: u128 = units * (multiplier as u128) + share as u128;
                if total > u64::MAX as u128 {
                    Some(u64::MAX)
                } else {
                    Some(total as u64)
                }
            },
        },
    }
}

/// Reads a size from its characters.
pub fn parse_chars(chars: &[char]) -> (result: Result<u64, SizeError>)
    ensures
        result == match parsed(chars@) {
            Some(bytes) => Ok::<u64, SizeError>(bytes),
            None => Err(SizeError::InvalidFormat),
        },
{
    let (start, end) = trim(chars);
    if start == end {
        return Err(SizeError::InvalidFormat);
    }
    let ghost t = chars@.subrange(start as int, end as int);
    assert(t.last() == chars@[end - 1]);
    let (stop, multiplier) = match unit_multiplier(chars[end - 1]) {
        Some(multiplier) => (end - 1, multiplier),
        None => (end, 1),
    };
    let number = slice_subrange(chars, start, stop);
    assert(number@ =~= split_unit(t).0);
    match parse_number(number, multiplier) {
        Some(bytes) => Ok(bytes),
        None => Err(SizeError::InvalidFormat),
    }
}

/// Reads a size such as `15M`, `2.5g` or `512`: a decimal number, and behind
/// it at most one of the letters `k`, `m`, `g` (powers of 1024) or `K`, `M`,
/// `G` (powers of 1000). White space around the size is passed over. What is
/// left of a byte is dropped.
pub fn parse_size(text: &str) -> (result: Result<u64, SizeError>)
    ensures
        result == match parsed(text@) {
            Some(bytes) => Ok::<u64, SizeError>(bytes),
            None => Err(SizeError::InvalidFormat),
        },
{
    let chars = chars_of(text);
    parse_chars(chars.as_slice())
}

/// A thousand bytes, the unit `K`.
pub const KILO: u64 = 1_000;

/// A million bytes, the unit `M`.
pub const MEGA: u64 = 1_000_000;

/// A thousand million bytes, the unit `G`.
pub const GIGA: u64 = 1_000_000_000;

/// `bytes` in hundredths of `unit`, rounded to the nearest; of two that are
/// equally near, the even one.
pub open spec fn rounded_hundredths(bytes: nat, unit: nat) -> nat {
    let whole = 100 * bytes / unit;
    let rest = 100 * bytes % unit;
    if 2 * rest > unit || (2 * rest == unit && whole % 2 == 1) {
        whole + 1
    } else {
        whole
    }
}

/// A number of hundredths, written with two digits behind the decimal point.
pub open spec fn two_decimals(hundredths: nat) -> Seq<char> {
    decimal_digits(hundredths / 100) + seq![
        '.',
        digit_char(hundredths / 10 % 10),
        digit_char(hundredths % 10),
    ]
}

/// The text that stands for `bytes`: in thousand millions with the letter
/// `G`, in millions with `M` or in thousands with `K`, whichever is the
/// largest unit that `bytes` reaches, with two decimals; below a thousand the
/// plain number.
pub open spec fn formatted(bytes: u64) -> Seq<char> {
    if bytes >= GIGA {
        two_decimals(rounded_hundredths(bytes as nat, GIGA as nat)).push('G')
    } else if bytes >= MEGA {
        two_decimals(rounded_hundredths(bytes as nat, MEGA as nat)).push('M')
    } else if bytes >= KILO {
        two_decimals(rounded_hundredths(bytes as nat, KILO as nat)).push('K')
    } else {
        decimal_digits(bytes as nat)
    }
}

/// Gives `bytes` in hundredths of `unit`, rounded to the nearest.
pub fn hundredths_of(bytes: u64, unit: u64) -> (hundredths: u128)
    requires
        unit > 0,
    ensures
        hundredths == rounded_hundredths(bytes as nat, unit as nat),
{
    let scaled: u128 = bytes as u128 * 100;
    let whole: u128 = scaled / unit as u128;
    let rest: u128 = scaled % unit as u128;
    assert(whole <= scaled) by (nonlinear_arith)
        requires
            whole == scaled / unit as u128,
            unit > 0,
    ;
    if 2 * rest > unit as u128 || (2 * rest == unit as u128 && whole % 2 == 1) {
        whole + 1
    } else {
        whole
    }
}

/// Appends a number of hundredths, written with two decimals, and the
/// letter of its unit.
pub fn push_two_decimals(out: &mut Vec<char>, hundredths: u128, unit_letter: char)
    ensures
        final(out)@ == old(out)@ + two_decimals(hundredths as nat).push(unit_letter),
{
    push_decimal(out, hundredths / 100);
    out.push('.');
    out.push(char_of_digit((hundredths / 10 % 10) as u8));
    out.push(char_of_digit((hundredths % 10) as u8));
    out.push(unit_letter);
    assert(out@ =~= old(out)@ + two_decimals(hundredths as nat).push(unit_letter));
}

/// Appends the text that stands for `bytes`.
pub fn push_size(out: &mut Vec<char>, bytes: u64)
    ensures
        final(out)@ == old(out)@ + formatted(bytes),
{
    if bytes >= GIGA {
        push_two_decimals(out, hundredths_of(bytes, GIGA), 'G');
    } else if bytes >= MEGA {
        push_two_decimals(out, hundredths_of(bytes, MEGA), 'M');
    } else if bytes >= KILO {
        push_two_decimals(out, hundredths_of(bytes, KILO), 'K');
    } else {
        push_decimal(out, bytes as u128);
    }
}

/// Writes a size for a reader: `15.00M`, `1.50K`, `999`.
pub fn format_size(bytes: u64) -> (text: String)
    ensures
        text@ == formatted(bytes),
{
    let mut out: Vec<char> = Vec::new();
    push_size(&mut out, bytes);
    assert(out@ =~= formatted(bytes));
    string_of(out.as_slice())
}

} // verus!
