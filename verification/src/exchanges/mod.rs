//! The venues. Each venue's module holds what is particular to it: its name,
//! the addresses it is reached at, and how its messages become the shared
//! records. Connections are made elsewhere; what is here works on messages
//! that have already been received and decoded.

pub mod binance;
pub mod bybit;

use crate::decimal::decimal_units;
use crate::decimal::parse_decimal;
use crate::decimal::parse_signed_decimal;
use crate::decimal::signed_decimal_units;
use crate::orderbook::MAX_PRICE;
use vstd::prelude::*;

verus! {

/// The price that a text writes: a positive decimal number of at most
/// `MAX_PRICE` units.
pub open spec fn price_of(text: Seq<char>) -> Option<u64> {
    match decimal_units(text) {
        Some(u) => if 0 < u <= MAX_PRICE {
            Some(u as u64)
        } else {
            None
        },
        None => None,
    }
}

/// The quantity that a text writes: a decimal number that is not negative.
pub open spec fn quantity_of(text: Seq<char>) -> Option<u64> {
    match decimal_units(text) {
        Some(u) => if u <= u64::MAX {
            Some(u as u64)
        } else {
            None
        },
        None => None,
    }
}

/// The rate that a text writes: a signed decimal number.
pub open spec fn rate_of(text: Seq<char>) -> Option<i64> {
    match signed_decimal_units(text) {
        Some(u) => if i64::MIN <= u <= i64::MAX {
            Some(u as i64)
        } else {
            None
        },
        None => None,
    }
}

/// Reads a price.
pub fn parse_price(text: &str) -> (r: Option<u64>)
    ensures
        r == price_of(text@),
{
    match parse_decimal(text) {
        Some(u) => if 0 < u && u <= MAX_PRICE {
            Some(u)
        } else {
            None
        },
        None => None,
    }
}

/// Reads a quantity.
pub fn parse_quantity(text: &str) -> (r: Option<u64>)
    ensures
        r == quantity_of(text@),
{
    parse_decimal(text)
}

/// Reads a rate.
pub fn parse_rate(text: &str) -> (r: Option<i64>)
    ensures
        r == rate_of(text@),
{
    parse_signed_decimal(text)
}

} // verus!
