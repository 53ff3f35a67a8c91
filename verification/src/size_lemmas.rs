//! What holds of sizes that are written and read again.

use vstd::prelude::*;
use vstd::arithmetic::div_mod::lemma_fundamental_div_mod;
use vstd::arithmetic::power::{lemma_pow0, lemma_pow1, lemma_pow_adds, pow};
use crate::decimal::{
    all_digits, decimal_digits, decimal_value, digit_char, digit_value, is_digit,
    lemma_decimal_digits_value, lemma_decimal_value_concat,
};
use crate::size::{
    formatted, fraction_part, is_number, lemma_point_at_is, multiplier_of, parsed,
    rounded_hundredths, saturated, scaled_value, split_unit, two_decimals, whole_part, GIGA,
    KILO, MEGA,
};
use crate::text::{is_space, lemma_trimmed_of_tight};

verus! {

/// The unit in which `bytes` is written: the largest that it reaches, one
/// byte below a thousand.
pub open spec fn unit_of(bytes: u64) -> u64 {
    if bytes >= GIGA {
        GIGA
    } else if bytes >= MEGA {
        MEGA
    } else if bytes >= KILO {
        KILO
    } else {
        1
    }
}

/// A plain number reads as itself.
pub proof fn lemma_plain_number_reads_back(bytes: u64)
    ensures
        parsed(decimal_digits(bytes as nat)) == Some(bytes),
{
    let t = decimal_digits(bytes as nat);
    lemma_decimal_digits_value(bytes as nat);
    assert(is_digit(t[0]) && is_digit(t[t.len() - 1]));
    lemma_trimmed_of_tight(t);
    assert(multiplier_of(t.last()) is None);
    assert(split_unit(t) == (t, 1u64));
    assert forall|i: int| 0 <= i < t.len() implies #[trigger] t[i] != '.' by {
        assert(is_digit(t[i]));
    }
    lemma_point_at_is(t, t.len() as int);
    assert(whole_part(t) =~= t);
    assert(fraction_part(t) =~= Seq::<char>::empty());
    assert(whole_part(t) + fraction_part(t) =~= t);
    lemma_pow0(10);
    assert(decimal_value(t) * 1 == bytes);
    assert(scaled_value(t, 1) == bytes);
}

/// Hundredths of a unit, written with two decimals and the unit's letter,
/// read as that many hundredths of the unit.
pub proof fn lemma_two_decimals_read_back(hundredths: nat, letter: char, unit: u64)
    requires
        multiplier_of(letter) == Some(unit),
        unit % 100 == 0,
    ensures
        parsed(two_decimals(hundredths).push(letter)) == Some(
            saturated(hundredths * (unit / 100) as nat),
        ),
{
    let whole = decimal_digits(hundredths / 100);
    let tenths = digit_char(hundredths / 10 % 10);
    let last = digit_char(hundredths % 10);
    let fraction = seq![tenths, last];
    let number = two_decimals(hundredths);
    let t = number.push(letter);
    lemma_decimal_digits_value(hundredths / 100);
    assert(t[0] == whole[0] && is_digit(whole[0]));
    assert(t.last() == letter && !is_space(letter));
    lemma_trimmed_of_tight(t);
    assert(t.drop_last() =~= number);
    assert(split_unit(t) == (number, unit));
    assert(number[whole.len() as int] == '.');
    assert forall|i: int| 0 <= i < whole.len() implies #[trigger] number[i] != '.' by {
        assert(number[i] == whole[i] && is_digit(whole[i]));
    }
    lemma_point_at_is(number, whole.len() as int);
    assert(whole_part(number) =~= whole);
    assert(fraction_part(number) =~= fraction);
    assert(all_digits(fraction));
    assert(is_number(number));
    assert(decimal_value(fraction) == (hundredths / 10 % 10) * 10 + hundredths % 10) by {
        assert(fraction.drop_last() =~= seq![tenths]);
        assert(seq![tenths].drop_last() =~= Seq::<char>::empty());
        assert(decimal_value(seq![tenths].drop_last()) == 0);
        assert(decimal_value(seq![tenths]) == digit_value(tenths));
        assert(digit_value(tenths) == hundredths / 10 % 10);
        assert(digit_value(last) == hundredths % 10);
    }
    lemma_decimal_value_concat(whole, fraction);
    lemma_pow_adds(10, 1, 1);
    lemma_pow1(10);
    assert(pow(10, 2) == 100);
    assert(fraction.len() == 2);
    assert(decimal_value(whole) * pow(10, fraction.len()) == (hundredths / 100) * 100);
    assert((hundredths / 100) * 100 + (hundredths / 10 % 10) * 10 + hundredths % 10
        == hundredths);
    assert(decimal_value(whole + fraction) == hundredths);
    let h = hundredths as int;
    let u = (unit / 100) as int;
    assert((h * (100 * u)) / 100 == h * u) by (nonlinear_arith);
    assert(hundredths * unit as nat == h * (100 * u));
    assert(scaled_value(number, unit as nat) == hundredths * (unit / 100) as nat);
}

/// Rounding to hundredths of a unit moves a size by at most half of one
/// hundredth.
pub proof fn lemma_rounded_hundredths_is_near(bytes: nat, unit: nat)
    requires
        unit > 0,
        unit % 100 == 0,
    ensures
        200 * (rounded_hundredths(bytes, unit) * (unit / 100) - bytes) <= unit,
        200 * (bytes - rounded_hundredths(bytes, unit) * (unit / 100)) <= unit,
{
    let whole = (100 * bytes / unit) as int;
    let rest = (100 * bytes % unit) as int;
    let u = (unit / 100) as int;
    let h = rounded_hundredths(bytes, unit) as int;
    lemma_fundamental_div_mod(100 * bytes as int, unit as int);
    assert(100 * bytes == unit * whole + rest);
    assert(0 <= rest < unit);
    assert(unit == 100 * u);
    assert(h * unit == 100 * (h * u)) by (nonlinear_arith)
        requires
            unit == 100 * u,
    ;
    if h == whole {
        assert(h * unit == unit * whole) by (nonlinear_arith)
            requires
                h == whole,
        ;
    } else {
        assert(h * unit == unit * whole + unit) by (nonlinear_arith)
            requires
                h == whole + 1,
        ;
    }
}

/// A size that is written and read again comes back within half of the last
/// decimal place that was written; a size below a thousand comes back as it
/// was.
pub proof fn lemma_formatted_reads_back(bytes: u64)
    ensures
        parsed(formatted(bytes)) is Some,
        bytes < KILO ==> parsed(formatted(bytes)) == Some(bytes),
        200 * (parsed(formatted(bytes))->0 - bytes) <= unit_of(bytes),
        200 * (bytes - parsed(formatted(bytes))->0) <= unit_of(bytes),
{
    if bytes < KILO {
        lemma_plain_number_reads_back(bytes);
    } else {
        let unit = unit_of(bytes);
        let letter = if bytes >= GIGA {
            'G'
        } else if bytes >= MEGA {
            'M'
        } else {
            'K'
        };
        let h = rounded_hundredths(bytes as nat, unit as nat);
        assert(formatted(bytes) == two_decimals(h).push(letter));
        lemma_two_decimals_read_back(h, letter, unit);
        lemma_rounded_hundredths_is_near(bytes as nat, unit as nat);
    }
}

/// A text that reads as a size, written anew and read again, gives that
/// size within half of the last decimal place that is written.
pub proof fn lemma_reading_is_stable(text: Seq<char>)
    requires
        parsed(text) is Some,
    ensures
        parsed(formatted(parsed(text)->0)) is Some,
        200 * (parsed(formatted(parsed(text)->0))->0 - parsed(text)->0) <= unit_of(
            parsed(text)->0,
        ),
        200 * (parsed(text)->0 - parsed(formatted(parsed(text)->0))->0) <= unit_of(
            parsed(text)->0,
        ),
{
    lemma_formatted_reads_back(parsed(text)->0);
}

} // verus!
