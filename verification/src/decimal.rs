//! Decimal numbers as integers. A price, a quantity or a rate is held as a
//! whole number of units of one hundred-millionth (eight fractional digits),
//! so that equal prices are equal integers and the arithmetic on them is
//! exact. This module reads such numbers from text and writes them back.

use crate::text::chars_of;
use crate::text::first_index_of;
use crate::text::lemma_first_index_of;
use crate::text::push_char;
use vstd::arithmetic::div_mod::lemma_breakdown;
use vstd::arithmetic::div_mod::lemma_div_denominator;
use vstd::arithmetic::div_mod::lemma_fundamental_div_mod;
use vstd::prelude::*;

verus! {

/// The number of fractional digits that a unit stands for.
pub const FRACTION_DIGITS: usize = 8;

/// The number of units in one: ten to the power `FRACTION_DIGITS`.
pub const SCALE: u64 = 100_000_000;

/// Ten to the power `n`.
pub open spec fn pow10(n: nat) -> nat
    decreases n,
{
    if n == 0 {
        1
    } else {
        10 * pow10((n - 1) as nat)
    }
}

/// The number that a count of units stands for.
pub open spec fn units_value(units: int) -> real {
    units as real / (SCALE as real)
}

/// Whether `c` is one of the ten decimal digits.
pub open spec fn is_digit(c: char) -> bool {
    '0' <= c && c <= '9'
}

/// The value of a decimal digit.
pub open spec fn digit_of(c: char) -> nat {
    (c as u32 - 48) as nat
}

/// The character of a decimal digit.
pub open spec fn digit_char(d: nat) -> char {
    ((48 + d) as u8) as char
}

/// Whether every character of `s` is a decimal digit.
pub open spec fn all_digits(s: Seq<char>) -> bool {
    forall|i: int| 0 <= i < s.len() ==> is_digit(#[trigger] s[i])
}

/// The number that a run of decimal digits writes; the empty run writes 0.
pub open spec fn digits_value(s: Seq<char>) -> nat
    decreases s.len(),
{
    if s.len() == 0 {
        0
    } else {
        digits_value(s.drop_last()) * 10 + digit_of(s.last())
    }
}

/// What `str::parse` accepts for an unsigned integer: an optional `+`, then
/// one decimal digit or more. Gives the number written.
pub open spec fn unsigned_of(s: Seq<char>) -> Option<nat> {
    let body = if s.len() > 0 && s[0] == '+' {
        s.skip(1)
    } else {
        s
    };
    if body.len() > 0 && all_digits(body) {
        Some(digits_value(body))
    } else {
        None
    }
}

/// The count of units that an unsigned decimal text writes: digits, then
/// optionally a point and up to `FRACTION_DIGITS` digits more, with a digit
/// on at least one side of the point. No sign, no exponent, no spaces.
pub open spec fn decimal_units(s: Seq<char>) -> Option<nat> {
    let dot = first_index_of(s, '.');
    let whole = s.take(dot);
    let frac = if dot < s.len() {
        s.skip(dot + 1)
    } else {
        Seq::<char>::empty()
    };
    if all_digits(whole) && all_digits(frac) && whole.len() + frac.len() > 0 && frac.len()
        <= FRACTION_DIGITS {
        Some(
            (digits_value(whole) * SCALE + digits_value(frac) * pow10(
                (FRACTION_DIGITS - frac.len()) as nat,
            )) as nat,
        )
    } else {
        None
    }
}

/// The count of units that a signed decimal text writes: an optional `+` or
/// `-`, then an unsigned decimal text.
pub open spec fn signed_decimal_units(s: Seq<char>) -> Option<int> {
    if s.len() > 0 && s[0] == '-' {
        match decimal_units(s.skip(1)) {
            Some(u) => Some(-(u as int)),
            None => None,
        }
    } else if s.len() > 0 && s[0] == '+' {
        match decimal_units(s.skip(1)) {
            Some(u) => Some(u as int),
            None => None,
        }
    } else {
        match decimal_units(s) {
            Some(u) => Some(u as int),
            None => None,
        }
    }
}

/// A run of digits writes at least what any of its beginnings writes.
pub proof fn lemma_digits_value_prefix(s: Seq<char>, k: int)
    requires
        0 <= k <= s.len(),
    ensures
        digits_value(s.take(k)) <= digits_value(s),
    decreases s.len(),
{
    if k == s.len() {
        assert(s.take(k) == s);
    } else {
        assert(s.drop_last().take(k) == s.take(k));
        lemma_digits_value_prefix(s.drop_last(), k);
    }
}

/// Ten to the power `n`, for the powers that fit.
pub fn ten_to(n: usize) -> (r: u64)
    requires
        n <= 19,
    ensures
        r == pow10(n as nat),
{
    let mut r: u64 = 1;
    let mut i: usize = 0;
    while i < n
        invariant
            i <= n <= 19,
            r == pow10(i as nat),
        decreases n - i,
    {
        proof {
            lemma_pow10_increases(i as nat, 18);
            assert(pow10(18) == 1_000_000_000_000_000_000) by {
                reveal_with_fuel(pow10, 19);
            }
        }
        r = r * 10;
        i = i + 1;
    }
    r
}

/// Powers of ten grow with the exponent.
pub proof fn lemma_pow10_increases(a: nat, b: nat)
    requires
        a <= b,
    ensures
        0 < pow10(a) <= pow10(b),
    decreases b,
{
    if a < b {
        lemma_pow10_increases(a, (b - 1) as nat);
    } else if a > 0 {
        lemma_pow10_increases((a - 1) as nat, (a - 1) as nat);
    }
}

/// Reads the digits `chars[from..to]` as a number.
fn read_digits(chars: &Vec<char>, from: usize, to: usize) -> (r: Option<u64>)
    requires
        from <= to <= chars.len(),
    ensures
        match r {
            Some(v) => all_digits(chars@.subrange(from as int, to as int)) && digits_value(
                chars@.subrange(from as int, to as int),
            ) == v,
            None => !all_digits(chars@.subrange(from as int, to as int)) || digits_value(
                chars@.subrange(from as int, to as int),
            ) > u64::MAX,
        },
{
    let ghost run = chars@.subrange(from as int, to as int);
    let mut acc: u64 = 0;
    let mut i: usize = from;
    while i < to
        invariant
            from <= i <= to <= chars.len(),
            run == chars@.subrange(from as int, to as int),
            all_digits(run.take(i - from)),
            acc == digits_value(run.take(i - from)),
        decreases to - i,
    {
        let c = chars[i];
        let ghost next = run.take(i - from + 1);
        proof {
            assert(run[i - from] == c);
            assert(next.drop_last() == run.take(i - from));
            assert(next.last() == c);
            lemma_digits_value_prefix(run, i - from + 1);
        }
        if !(c >= '0' && c <= '9') {
            return None;
        }
        let d: u64 = (c as u32 - 48) as u64;
        if acc > (u64::MAX - d) / 10 {
            return None;
        }
        acc = acc * 10 + d;
        i = i + 1;
        assert(all_digits(next));
    }
    assert(run.take(to - from) == run);
    Some(acc)
}

/// A run of `n` digits writes a number below ten to the power `n`.
pub proof fn lemma_digits_value_bound(s: Seq<char>)
    requires
        all_digits(s),
    ensures
        digits_value(s) < pow10(s.len()),
    decreases s.len(),
{
    if s.len() > 0 {
        let t = s.drop_last();
        assert forall|i: int| 0 <= i < t.len() implies is_digit(#[trigger] t[i]) by {
            assert(t[i] == s[i]);
        }
        lemma_digits_value_bound(t);
        assert(is_digit(s[s.len() - 1]));
    }
}

/// Reads `chars[from..]` as an unsigned decimal text.
fn read_decimal(chars: &Vec<char>, from: usize) -> (r: Option<u64>)
    requires
        from <= chars.len(),
    ensures
        match r {
            Some(v) => decimal_units(chars@.skip(from as int)) == Some(v as nat),
            None => match decimal_units(chars@.skip(from as int)) {
                Some(u) => u > u64::MAX,
                None => true,
            },
        },
{
    let ghost text = chars@.skip(from as int);
    let n = chars.len();
    let mut dot: usize = from;
    while dot < n && chars[dot] != '.'
        invariant
            from <= dot <= n,
            n == chars.len(),
            forall|j: int| from <= j < dot ==> chars@[j] != '.',
        decreases n - dot,
    {
        dot = dot + 1;
    }
    let frac_len: usize = if dot < n {
        n - dot - 1
    } else {
        0
    };
    let ghost whole = text.take(dot - from);
    let ghost frac = if dot < n {
        text.skip(dot - from + 1)
    } else {
        Seq::<char>::empty()
    };
    proof {
        assert forall|j: int| 0 <= j < dot - from implies text[j] != '.' by {
            assert(text[j] == chars@[from + j]);
        }
        lemma_first_index_of(text, '.', dot - from);
        assert(whole == chars@.subrange(from as int, dot as int));
        if dot < n {
            assert(frac == chars@.subrange(dot + 1, n as int));
        }
        assert(frac.len() == frac_len);
    }
    if dot - from + frac_len == 0 || frac_len > FRACTION_DIGITS {
        return None;
    }
    let whole_value = match read_digits(chars, from, dot) {
        Some(v) => v,
        None => {
            proof {
                if all_digits(whole) {
                    assert(digits_value(whole) * SCALE >= digits_value(whole)) by (nonlinear_arith)
                        requires
                            SCALE >= 1,
                    ;
                }
            }
            return None;
        },
    };
    let frac_value = if dot < n {
        match read_digits(chars, dot + 1, n) {
            Some(v) => v,
            None => {
                proof {
                    if all_digits(frac) {
                        lemma_digits_value_bound(frac);
                        lemma_pow10_increases(frac.len(), 19);
                        assert(pow10(19) == 10_000_000_000_000_000_000) by {
                            reveal_with_fuel(pow10, 20);
                        }
                    }
                }
                return None;
            },
        }
    } else {
        0
    };
    let weight = ten_to(FRACTION_DIGITS - frac_len);
    proof {
        lemma_digits_value_bound(frac);
        lemma_pow10_increases(frac.len(), 8);
        lemma_pow10_increases((FRACTION_DIGITS - frac_len) as nat, 8);
        assert(pow10(8) == 100_000_000) by {
            reveal_with_fuel(pow10, 9);
        }
        assert(whole_value * SCALE <= u64::MAX * SCALE) by (nonlinear_arith)
            requires
                whole_value <= u64::MAX,
        ;
        assert(frac_value * weight <= 100_000_000 * 100_000_000) by (nonlinear_arith)
            requires
                frac_value <= 100_000_000,
                weight <= 100_000_000,
        ;
    }
    let units: u128 = (whole_value as u128) * (SCALE as u128) + (frac_value as u128) * (
    weight as u128);
    if units > u64::MAX as u128 {
        None
    } else {
        Some(units as u64)
    }
}

/// Reads an unsigned integer as `str::parse` does: an optional `+`, then one
/// decimal digit or more. Gives `None` for any other text and for a number
/// above `u64::MAX`.
pub fn parse_u64(s: &str) -> (r: Option<u64>)
    ensures
        match r {
            Some(v) => unsigned_of(s@) == Some(v as nat),
            None => match unsigned_of(s@) {
                Some(n) => n > u64::MAX,
                None => true,
            },
        },
{
    let chars = chars_of(s);
    let from: usize = if chars.len() > 0 && chars[0] == '+' {
        1
    } else {
        0
    };
    proof {
        assert(chars@.subrange(from as int, chars.len() as int) == chars@.skip(from as int));
        assert(chars@.skip(0) == chars@);
    }
    if from == chars.len() {
        return None;
    }
    read_digits(&chars, from, chars.len())
}

/// Reads an unsigned decimal text as a count of units. Gives `None` for a
/// text that is no such number and for a count above `u64::MAX`.
pub fn parse_decimal(s: &str) -> (r: Option<u64>)
    ensures
        match r {
            Some(v) => decimal_units(s@) == Some(v as nat),
            None => match decimal_units(s@) {
                Some(u) => u > u64::MAX,
                None => true,
            },
        },
{
    let chars = chars_of(s);
    proof {
        assert(chars@.skip(0) == chars@);
    }
    read_decimal(&chars, 0)
}

/// Reads a signed decimal text as a count of units. Gives `None` for a text
/// that is no such number and for a count outside `i64`.
pub fn parse_signed_decimal(s: &str) -> (r: Option<i64>)
    ensures
        match r {
            Some(v) => signed_decimal_units(s@) == Some(v as int),
            None => match signed_decimal_units(s@) {
                Some(u) => u < i64::MIN || u > i64::MAX,
                None => true,
            },
        },
{
    let chars = chars_of(s);
    proof {
        assert(chars@.skip(0) == chars@);
    }
    let negative = chars.len() > 0 && chars[0] == '-';
    let from: usize = if chars.len() > 0 && (chars[0] == '-' || chars[0] == '+') {
        1
    } else {
        0
    };
    match read_decimal(&chars, from) {
        Some(v) => {
            if !negative {
                if v > i64::MAX as u64 {
                    None
                } else {
                    Some(v as i64)
                }
            } else if v <= i64::MAX as u64 {
                Some(-(v as i64))
            } else if v == 9_223_372_036_854_775_808 {
                Some(i64::MIN)
            } else {
                None
            }
        },
        None => None,
    }
}

/// The decimal digits of `n`, without leading zeros; `0` for zero.
pub open spec fn uint_digits(n: nat) -> Seq<char>
    decreases n,
{
    if n < 10 {
        seq![digit_char(n)]
    } else {
        uint_digits(n / 10).push(digit_char(n % 10))
    }
}

/// The last `width` decimal digits of `n`, with zeros in front where `n` has
/// fewer.
pub open spec fn fixed_digits(n: nat, width: nat) -> Seq<char>
    decreases width,
{
    if width == 0 {
        Seq::<char>::empty()
    } else {
        fixed_digits(n / 10, (width - 1) as nat).push(digit_char(n % 10))
    }
}

/// A whole number in decimal, with `-` in front of a negative one.
pub open spec fn int_text(n: int) -> Seq<char> {
    if n < 0 {
        seq!['-'] + uint_digits((-n) as nat)
    } else {
        uint_digits(n as nat)
    }
}

/// The text of `value` counted in units of ten to the power `-decimals`: the
/// whole part, a point, and exactly `decimals` fractional digits. Without
/// decimals there is no point.
pub open spec fn fixed_point_text(value: nat, decimals: nat) -> Seq<char> {
    if decimals == 0 {
        uint_digits(value)
    } else {
        uint_digits(value / pow10(decimals)) + seq!['.'] + fixed_digits(value, decimals)
    }
}

/// Dividing by the next power of ten is dividing once more by ten.
proof fn lemma_div_pow10_step(n: nat, e: nat)
    ensures
        n / pow10(e + 1) == (n / pow10(e)) / 10,
        pow10(e + 1) == pow10(e) * 10,
{
    lemma_pow10_increases(e, e);
    lemma_div_denominator(n as int, pow10(e) as int, 10);
}

/// Appends the decimal digits of `n` to `out`.
fn push_uint(out: &mut String, n: u64)
    ensures
        final(out)@ == old(out)@ + uint_digits(n as nat),
{
    let mut p: u64 = 1;
    let mut top: usize = 0;
    while n / p >= 10
        invariant
            p == pow10(top as nat),
            0 < p,
            p <= n || top == 0,
            top <= 19,
        decreases n - p,
    {
        proof {
            assert(p * 10 <= n) by (nonlinear_arith)
                requires
                    n / p >= 10,
                    p > 0,
            ;
            if top >= 19 {
                lemma_pow10_increases(20, (top + 1) as nat);
                assert(pow10(20) == 100_000_000_000_000_000_000) by {
                    reveal_with_fuel(pow10, 21);
                }
            }
        }
        p = p * 10;
        top = top + 1;
    }
    proof {
        if top > 0 {
            assert(n / p >= 1) by (nonlinear_arith)
                requires
                    0 < p <= n,
            ;
        }
    }
    let ghost before = out@;
    let mut left: usize = top + 1;
    while left > 0
        invariant
            before == old(out)@,
            left <= top + 1,
            left > 0 ==> p == pow10((left - 1) as nat),
            0 < p,
            left == top + 1 ==> out@ == before && n / p < 10 && (top > 0 ==> n / p >= 1),
            left <= top ==> out@ == before + uint_digits(n as nat / pow10(left as nat)) && (left > 0
                ==> n as nat / pow10(left as nat) >= 1),
        decreases left,
    {
        let m: u64 = n / p;
        let d: u8 = (m % 10) as u8;
        proof {
            lemma_div_pow10_step(n as nat, (left - 1) as nat);
            if left == top + 1 {
                assert(before + uint_digits(m as nat) == before.push(digit_char(d as nat)));
            } else {
                assert(m / 10 >= 1);
                assert(before + uint_digits(m as nat) == (before + uint_digits(
                    (m / 10) as nat,
                )).push(digit_char(d as nat)));
            }
        }
        push_char(out, (48u8 + d) as char);
        left = left - 1;
        if left > 0 {
            proof {
                lemma_div_pow10_step(n as nat, (left - 1) as nat);
            }
            p = p / 10;
        }
    }
    assert(pow10(0) == 1);
    assert(n as nat / pow10(0) == n as nat);
}

/// Appends the last `width` decimal digits of `n` to `out`.
fn push_fixed(out: &mut String, n: u64, width: usize)
    requires
        width <= 19,
    ensures
        final(out)@ == old(out)@ + fixed_digits(n as nat, width as nat),
{
    let ghost before = out@;
    let mut done: usize = 0;
    let mut p: u64 = ten_to(width);
    proof {
        lemma_pow10_increases(width as nat, width as nat);
        assert(n as nat / pow10(width as nat) == n / p);
        assert(before + fixed_digits((n / p) as nat, 0) == before);
    }
    while done < width
        invariant
            done <= width <= 19,
            before == old(out)@,
            p == pow10((width - done) as nat),
            0 < p,
            out@ == before + fixed_digits((n / p) as nat, done as nat),
        decreases width - done,
    {
        proof {
            lemma_div_pow10_step(n as nat, (width - done - 1) as nat);
            lemma_pow10_increases(
                (width - done - 1) as nat,
                (width - done - 1) as nat,
            );
        }
        let ghost upper = n / p;
        p = p / 10;
        let m: u64 = n / p;
        let d: u8 = (m % 10) as u8;
        proof {
            assert(m / 10 == upper);
            assert(before + fixed_digits(m as nat, (done + 1) as nat) == (before + fixed_digits(
                upper as nat,
                done as nat,
            )).push(digit_char(d as nat)));
        }
        push_char(out, (48u8 + d) as char);
        done = done + 1;
    }
    assert(pow10(0) == 1);
    assert(p == 1);
    assert(n / p == n);
}

/// Writes `value`, counted in units of ten to the power `-decimals`, with
/// exactly `decimals` fractional digits.
pub fn format_fixed(value: u64, decimals: usize) -> (r: String)
    requires
        decimals <= 19,
    ensures
        r@ == fixed_point_text(value as nat, decimals as nat),
{
    let mut out = String::new();
    if decimals == 0 {
        push_uint(&mut out, value);
        assert(Seq::<char>::empty() + uint_digits(value as nat) == uint_digits(value as nat));
        return out;
    }
    let p = ten_to(decimals);
    proof {
        lemma_pow10_increases(decimals as nat, decimals as nat);
    }
    push_uint(&mut out, value / p);
    push_char(&mut out, '.');
    push_fixed(&mut out, value, decimals);
    proof {
        let whole = uint_digits((value / p) as nat);
        assert(Seq::<char>::empty() + whole == whole);
        assert(whole.push('.') == whole + seq!['.']);
    }
    out
}

/// Writes a whole number in decimal.
pub fn format_int(n: i64) -> (r: String)
    ensures
        r@ == int_text(n as int),
{
    let mut out = String::new();
    if n < 0 {
        push_char(&mut out, '-');
        let magnitude: u64 = if n == i64::MIN {
            9_223_372_036_854_775_808
        } else {
            (-n) as u64
        };
        push_uint(&mut out, magnitude);
        assert(Seq::<char>::empty().push('-') == seq!['-']);
    } else {
        push_uint(&mut out, n as u64);
        assert(Seq::<char>::empty() + uint_digits(n as nat) == uint_digits(n as nat));
    }
    out
}

/// The digits of a number write that number.
pub proof fn lemma_uint_digits_value(n: nat)
    ensures
        uint_digits(n).len() > 0,
        all_digits(uint_digits(n)),
        digits_value(uint_digits(n)) == n,
    decreases n,
{
    if n < 10 {
        let s = uint_digits(n);
        assert(s.drop_last() =~= Seq::<char>::empty());
        assert(digits_value(s.drop_last()) == 0);
    } else {
        lemma_uint_digits_value(n / 10);
        let front = uint_digits(n / 10);
        let s = front.push(digit_char(n % 10));
        assert(s.drop_last() =~= front);
        assert forall|i: int| 0 <= i < s.len() implies is_digit(#[trigger] s[i]) by {
            if i < front.len() {
                assert(s[i] == front[i]);
            }
        }
    }
}

/// The last `width` digits of a number write its remainder by ten to the
/// power `width`.
pub proof fn lemma_fixed_digits_value(n: nat, width: nat)
    ensures
        fixed_digits(n, width).len() == width,
        all_digits(fixed_digits(n, width)),
        digits_value(fixed_digits(n, width)) == n % pow10(width),
    decreases width,
{
    if width > 0 {
        let w = (width - 1) as nat;
        lemma_fixed_digits_value(n / 10, w);
        let front = fixed_digits(n / 10, w);
        let s = front.push(digit_char(n % 10));
        assert(s.drop_last() =~= front);
        assert forall|i: int| 0 <= i < s.len() implies is_digit(#[trigger] s[i]) by {
            if i < front.len() {
                assert(s[i] == front[i]);
            }
        }
        lemma_pow10_increases(w, w);
        lemma_breakdown(n as int, 10, pow10(w) as int);
        assert(10 * pow10(w) == pow10(width));
    } else {
        assert(pow10(0) == 1);
    }
}

/// What is written is read back: the text of a count of units with
/// `FRACTION_DIGITS` decimals is a decimal text, and it writes that count.
pub proof fn law_written_text_reads_back(units: nat)
    ensures
        decimal_units(fixed_point_text(units, FRACTION_DIGITS as nat)) == Some(units),
{
    assert(pow10(8) == SCALE) by {
        reveal_with_fuel(pow10, 9);
    }
    let whole = uint_digits(units / pow10(8));
    let frac = fixed_digits(units, 8);
    let text = fixed_point_text(units, 8);
    lemma_uint_digits_value(units / pow10(8));
    lemma_fixed_digits_value(units, 8);
    assert forall|j: int| 0 <= j < whole.len() implies text[j] != '.' by {
        assert(text[j] == whole[j]);
        assert(is_digit(whole[j]));
    }
    assert(text[whole.len() as int] == '.');
    lemma_first_index_of(text, '.', whole.len() as int);
    let dot = first_index_of(text, '.');
    assert(text.take(dot) =~= whole);
    assert(text.skip(dot + 1) =~= frac);
    assert(pow10(0) == 1);
    assert(digits_value(whole) == units / (SCALE as nat));
    assert(digits_value(frac) == units % (SCALE as nat));
    lemma_fundamental_div_mod(units as int, SCALE as int);
    assert(digits_value(whole) * SCALE + digits_value(frac) * pow10(0) == units) by (nonlinear_arith)
        requires
            units == SCALE * (units as int / SCALE as int) + units as int % SCALE as int,
            digits_value(whole) == units as int / SCALE as int,
            digits_value(frac) == units as int % SCALE as int,
            pow10(0) == 1,
    ;
}

} // verus!
