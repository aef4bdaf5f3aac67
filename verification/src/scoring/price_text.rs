//! How a price is shown: with two decimals from one upward, and below one
//! with enough decimals for four significant digits.

use crate::decimal::fixed_point_text;
use crate::decimal::format_fixed;
use crate::decimal::lemma_pow10_increases;
use crate::decimal::pow10;
use crate::decimal::ten_to;
use crate::decimal::FRACTION_DIGITS;
use crate::decimal::SCALE;
use crate::scoring::ScoringEngine;
use vstd::prelude::*;

verus! {

/// The first `m` from `from` on at which ten times `price * 10^m` is above
/// one (`SCALE` units), and at most `FRACTION_DIGITS`.
pub open spec fn magnitude_from(price: nat, from: nat) -> nat
    decreases FRACTION_DIGITS - from,
{
    if from < FRACTION_DIGITS && price * pow10(from + 1) <= SCALE {
        magnitude_from(price, from + 1)
    } else {
        from
    }
}

/// The magnitude of a price of at most one: the integer part of the negated
/// decimal logarithm, that is the `m` with `10^-(m+1) < price <= 10^-m`.
pub open spec fn magnitude_of(price: nat) -> nat {
    magnitude_from(price, 0)
}

/// The number of fractional digits with which a price is shown: 2 for a
/// price above one, else its magnitude and 4.
pub open spec fn decimals_of(price: nat) -> nat {
    if price > SCALE {
        2
    } else {
        magnitude_of(price) + 4
    }
}

/// `n` in units of `unit`, rounded to the nearest whole number, a tie going
/// to the even one.
pub open spec fn round_half_even(n: nat, unit: nat) -> nat {
    let q = n / unit;
    let r = n % unit;
    if 2 * r > unit || (2 * r == unit && q % 2 == 1) {
        q + 1
    } else {
        q
    }
}

/// The text of a price: `0.00` for zero, else the price with `decimals_of`
/// fractional digits, rounded where it has more.
pub open spec fn price_text(price: nat) -> Seq<char> {
    if price == 0 {
        "0.00"@
    } else {
        let d = decimals_of(price);
        if d >= FRACTION_DIGITS {
            fixed_point_text(price * pow10((d - FRACTION_DIGITS) as nat), d)
        } else {
            fixed_point_text(round_half_even(price, pow10((FRACTION_DIGITS - d) as nat)), d)
        }
    }
}

/// The magnitude brackets the price between two powers of ten: it is the
/// integer part of the negated decimal logarithm of the price.
pub proof fn law_magnitude_brackets(price: nat)
    requires
        0 < price <= SCALE,
    ensures
        magnitude_of(price) <= FRACTION_DIGITS,
        price * pow10(magnitude_of(price)) <= SCALE < price * pow10(magnitude_of(price) + 1),
{
    assert(pow10(0) == 1);
    lemma_magnitude_from(price, 0);
}

proof fn lemma_magnitude_from(price: nat, from: nat)
    requires
        0 < price,
        from <= FRACTION_DIGITS,
        price * pow10(from) <= SCALE,
    ensures
        from <= magnitude_from(price, from) <= FRACTION_DIGITS,
        price * pow10(magnitude_from(price, from)) <= SCALE < price * pow10(
            magnitude_from(price, from) + 1,
        ),
    decreases FRACTION_DIGITS - from,
{
    if from < FRACTION_DIGITS && price * pow10(from + 1) <= SCALE {
        lemma_magnitude_from(price, from + 1);
    } else if from == FRACTION_DIGITS {
        assert(pow10(9) == 1_000_000_000) by {
            reveal_with_fuel(pow10, 10);
        }
        assert(price * pow10(9) >= pow10(9)) by (nonlinear_arith)
            requires
                price >= 1,
        ;
    }
}

/// The magnitude of a price of at most one.
fn magnitude(price: u64) -> (m: usize)
    requires
        0 < price <= SCALE,
    ensures
        m == magnitude_of(price as nat),
        m <= FRACTION_DIGITS,
        price * pow10(m as nat) <= SCALE,
{
    let mut m: usize = 0;
    let mut scaled: u64 = price;
    assert(pow10(0) == 1);
    while m < FRACTION_DIGITS && scaled <= SCALE / 10
        invariant
            m <= FRACTION_DIGITS,
            scaled == price * pow10(m as nat),
            scaled <= SCALE,
            magnitude_from(price as nat, m as nat) == magnitude_of(price as nat),
        decreases FRACTION_DIGITS - m,
    {
        assert(price * pow10((m + 1) as nat) == scaled * 10) by (nonlinear_arith)
            requires
                scaled == price * pow10(m as nat),
                pow10((m + 1) as nat) == 10 * pow10(m as nat),
        ;
        scaled = scaled * 10;
        m = m + 1;
    }
    proof {
        if m < FRACTION_DIGITS {
            assert(price * pow10((m + 1) as nat) == scaled * 10) by (nonlinear_arith)
                requires
                    scaled == price * pow10(m as nat),
                    pow10((m + 1) as nat) == 10 * pow10(m as nat),
            ;
        }
    }
    m
}

impl<'a> ScoringEngine<'a> {
    /// Writes a price for a reader: `0.00` for zero; with two decimals for a
    /// price above one; and for a price of at most one with its magnitude and
    /// four decimals, which shows at least four significant digits. Digits
    /// beyond those shown are rounded to the nearest, a tie to the even
    /// digit.
    pub fn format_price(price: u64) -> (text: String)
        ensures
            text@ == price_text(price as nat),
    {
        if price == 0 {
            return "0.00".to_owned();
        }
        if price > SCALE {
            let unit = ten_to(FRACTION_DIGITS - 2);
            assert(unit == 1_000_000) by {
                reveal_with_fuel(pow10, 7);
            }
            let q: u64 = price / unit;
            let r: u64 = price % unit;
            let shown: u64 = if 2 * r > unit || (2 * r == unit && q % 2 == 1) {
                q + 1
            } else {
                q
            };
            return format_fixed(shown, 2);
        }
        let m = magnitude(price);
        let d: usize = m + 4;
        if d >= FRACTION_DIGITS {
            let lift = ten_to(d - FRACTION_DIGITS);
            proof {
                lemma_pow10_increases((m - 4) as nat, m as nat);
                assert(price * pow10((m - 4) as nat) <= price * pow10(m as nat))
                    by (nonlinear_arith)
                    requires
                        pow10((m - 4) as nat) <= pow10(m as nat),
                ;
            }
            format_fixed(price * lift, d)
        } else {
            let unit = ten_to(FRACTION_DIGITS - d);
            proof {
                lemma_pow10_increases((FRACTION_DIGITS - d) as nat, 4);
                lemma_pow10_increases(0, (FRACTION_DIGITS - d) as nat);
                assert(pow10(4) == 10_000) by {
                    reveal_with_fuel(pow10, 5);
                }
                assert(pow10(0) == 1);
            }
            let q: u64 = price / unit;
            let r: u64 = price % unit;
            let shown: u64 = if 2 * r > unit || (2 * r == unit && q % 2 == 1) {
                q + 1
            } else {
                q
            };
            format_fixed(shown, d)
        }
    }
}

} // verus!
