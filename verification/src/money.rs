//! Amounts of money as whole numbers of small units, and how they are written.
//!
//! One unit is the millionth part of the currency unit, so a cent is ten thousand
//! units. An amount is a `u64` of such units; a balance, which has a sign, an `i128`.

use crate::text::{decimal_text, decimal_value, digit_char, pow10, push_decimal};
use vstd::prelude::*;

verus! {

/// Units in one currency unit.
pub const UNITS_PER_WHOLE: u64 = 1_000_000;

/// Units in one cent.
pub const UNITS_PER_CENT: u64 = 10_000;

/// Digits after the decimal point that an amount keeps.
pub const FRACTION_DIGITS: usize = 6;

/// The units that the digits after a decimal point stand for: those beyond the
/// sixth are cut off.
pub open spec fn fraction_units(digits: Seq<char>) -> int {
    if digits.len() >= FRACTION_DIGITS {
        decimal_value(digits.take(FRACTION_DIGITS as int))
    } else {
        decimal_value(digits) * pow10(FRACTION_DIGITS - digits.len())
    }
}

/// The units that a decimal number stands for, given the digits before and after its
/// decimal point.
pub open spec fn amount_units(whole: Seq<char>, fraction: Seq<char>) -> int {
    decimal_value(whole) * UNITS_PER_WHOLE + fraction_units(fraction)
}

/// `n` written with exactly `width` digits, zeros in front.
pub open spec fn padded_decimal(n: int, width: int) -> Seq<char>
    decreases width,
{
    if width <= 0 {
        Seq::empty()
    } else {
        padded_decimal(n / 10, width - 1).push(digit_char(n % 10))
    }
}

/// How the part of an amount below one currency unit is written: at least two
/// digits, and as many more as it takes to lose nothing.
pub open spec fn fraction_text(units: int) -> Seq<char> {
    if units % 10_000 == 0 {
        padded_decimal(units / 10_000, 2)
    } else if units % 1_000 == 0 {
        padded_decimal(units / 1_000, 3)
    } else if units % 100 == 0 {
        padded_decimal(units / 100, 4)
    } else if units % 10 == 0 {
        padded_decimal(units / 10, 5)
    } else {
        padded_decimal(units, 6)
    }
}

/// How an amount that is not negative is written: the currency units, a decimal
/// point, the fraction.
pub open spec fn amount_text(units: int) -> Seq<char> {
    decimal_text(units / UNITS_PER_WHOLE as int) + seq!['.'] + fraction_text(
        units % UNITS_PER_WHOLE as int,
    )
}

/// How a balance is written: a minus sign if it is negative, then its size as an
/// amount.
pub open spec fn balance_text(units: int) -> Seq<char> {
    if units < 0 {
        seq!['-'] + amount_text(-units)
    } else {
        amount_text(units)
    }
}

/// A number of units rounded to whole cents, halves away from zero. The result
/// counts cents.
pub open spec fn rounded_cents(units: int) -> int {
    if units >= 0 {
        (units + UNITS_PER_CENT / 2) / UNITS_PER_CENT as int
    } else {
        -((-units + UNITS_PER_CENT / 2) / UNITS_PER_CENT as int)
    }
}

/// How a statement writes an amount that is not negative: the currency units, a
/// full stop, then the cents that the rest rounds to, or a dash where it rounds to
/// none, and the currency. The cents are not padded, and a rest that rounds to a
/// hundred cents is written as such.
pub open spec fn statement_text(units: int) -> Seq<char> {
    let cents = rounded_cents(units % UNITS_PER_WHOLE as int);
    decimal_text(units / UNITS_PER_WHOLE as int) + seq!['.'] + (if cents > 0 {
        decimal_text(cents)
    } else {
        seq!['-']
    }) + seq![' ', 'C', 'H', 'F']
}

/// Appends `n` to `out` with exactly `width` digits.
fn push_padded(out: &mut String, n: u64, width: u8)
    ensures
        final(out)@ == old(out)@ + padded_decimal(n as int, width as int),
    decreases width,
{
    if width > 0 {
        push_padded(out, n / 10, width - 1);
        let d: u8 = (n % 10) as u8;
        out.push((48u8 + d) as char);
    }
}

/// Appends an amount to `out`, as [`amount_text`] writes it.
pub fn push_amount(out: &mut String, units: u128)
    ensures
        final(out)@ == old(out)@ + amount_text(units as int),
{
    let whole: u128 = units / (UNITS_PER_WHOLE as u128);
    let rest: u64 = (units % (UNITS_PER_WHOLE as u128)) as u64;
    push_decimal(out, whole);
    out.push('.');
    if rest % 10_000 == 0 {
        push_padded(out, rest / 10_000, 2);
    } else if rest % 1_000 == 0 {
        push_padded(out, rest / 1_000, 3);
    } else if rest % 100 == 0 {
        push_padded(out, rest / 100, 4);
    } else if rest % 10 == 0 {
        push_padded(out, rest / 10, 5);
    } else {
        push_padded(out, rest, 6);
    }
}

/// The size of a balance, without its sign.
pub fn magnitude(units: i128) -> (r: u128)
    ensures
        r == if units < 0 {
            -units
        } else {
            units as int
        },
{
    if units >= 0 {
        units as u128
    } else if units == i128::MIN {
        i128::MAX as u128 + 1
    } else {
        (-units) as u128
    }
}

/// Appends a balance to `out`, as [`balance_text`] writes it.
pub fn push_balance(out: &mut String, units: i128)
    ensures
        final(out)@ == old(out)@ + balance_text(units as int),
{
    if units < 0 {
        out.push('-');
        push_amount(out, magnitude(units));
    } else {
        push_amount(out, units as u128);
    }
}

/// A balance rounded to whole cents, halves away from zero; the result counts cents.
pub fn round_to_cents(units: i128) -> (r: i128)
    ensures
        r == rounded_cents(units as int),
{
    let size: u128 = magnitude(units);
    let cents: u128 = (size / (UNITS_PER_CENT as u128)) + (if size % (UNITS_PER_CENT as u128)
        >= (UNITS_PER_CENT as u128) / 2 {
        1u128
    } else {
        0u128
    });
    assert(cents <= size / 10_000 + 1);
    if units >= 0 {
        cents as i128
    } else {
        -(cents as i128)
    }
}

/// Appends an amount to `out` the way a statement shows it, as [`statement_text`]
/// writes it.
pub fn add_amount_to_string(amount: u128, string: &mut String)
    ensures
        final(string)@ == old(string)@ + statement_text(amount as int),
{
    let whole: u128 = amount / (UNITS_PER_WHOLE as u128);
    let rest: u64 = (amount % (UNITS_PER_WHOLE as u128)) as u64;
    let cents: u64 = (rest + UNITS_PER_CENT / 2) / UNITS_PER_CENT;
    push_decimal(string, whole);
    string.push('.');
    if cents > 0 {
        push_decimal(string, cents as u128);
    } else {
        string.push('-');
    }
    string.append(" CHF");
    proof {
        reveal_strlit(" CHF");
        assert(" CHF"@ =~= seq![' ', 'C', 'H', 'F']);
        assert(final(string)@ =~= old(string)@ + statement_text(amount as int));
    }
}

} // verus!
