//! Floating-point numbers in decimal notation.
//!
//! A single-precision number is read from digits with at most one point among them, and then an
//! exponent or not. Infinities and what is not a number have names. The number that is read is the
//! one nearest to what the text says. A double-precision number is written with one digit after
//! the point.

use crate::decimal::{decimal, digit_value, is_digit, push_natural, scan, unsigned, IntError};
use crate::float::{
    nearest_tenths, rounded, single, Float32, Float64, Tenths, Value,
};
use crate::natural::Natural;
use crate::rounding::lemma_overflow;
use crate::text::{chars_of, part, string_of};
use vstd::arithmetic::div_mod::lemma_fundamental_div_mod_converse;
use vstd::arithmetic::power::{lemma_pow_adds, lemma_pow_increases, lemma_pow_positive, pow};
use vstd::arithmetic::power2::{
    lemma2_to64, lemma2_to64_rest, lemma_pow2_adds, lemma_pow2_pos, pow2,
};
use vstd::prelude::*;
use vstd::string::StringExecFns;

verus! {

/// The first index from `i` on that holds no digit.
pub open spec fn digits_end(s: Seq<char>, i: int) -> int
    decreases s.len() - i,
{
    if 0 <= i < s.len() && is_digit(s[i]) {
        digits_end(s, i + 1)
    } else {
        i
    }
}

/// The number that a row of digits stands for.
pub open spec fn digits_value(s: Seq<char>) -> nat
    decreases s.len(),
{
    if s.len() == 0 {
        0
    } else {
        digits_value(s.drop_last()) * 10 + digit_value(s.last())
    }
}

/// The single-precision number nearest to `digits * 10^exponent`.
pub open spec fn scaled(negative: bool, digits: nat, exponent: int) -> Value {
    if exponent >= 0 {
        rounded(single(), negative, digits * pow(10, exponent as nat) as nat * pow2(149), 1)
    } else {
        rounded(single(), negative, digits * pow2(149), pow(10, (-exponent) as nat) as nat)
    }
}

pub open spec fn is_sign(c: char) -> bool {
    c == '+' || c == '-'
}

/// The exponent that stands from index `i` to the end, where one does.
pub open spec fn exponent_at(s: Seq<char>, i: int) -> Option<int> {
    let x = if i < s.len() && is_sign(s[i]) {
        i + 1
    } else {
        i
    };
    if x < s.len() && digits_end(s, x) == s.len() {
        let magnitude = digits_value(s.subrange(x, s.len() as int));
        Some(
            if s[i] == '-' {
                -magnitude
            } else {
                magnitude as int
            },
        )
    } else {
        None
    }
}

/// The number that a text without a sign stands for, where it is one in digits.
pub open spec fn digits_number(s: Seq<char>, negative: bool) -> Option<Value> {
    let i = digits_end(s, 0);
    let dot = i < s.len() && s[i] == '.';
    let f = if dot {
        i + 1
    } else {
        i
    };
    let j = if dot {
        digits_end(s, f)
    } else {
        i
    };
    let digits = s.subrange(0, i) + s.subrange(f, j);
    if digits.len() == 0 {
        None
    } else if j == s.len() {
        Some(scaled(negative, digits_value(digits), f - j))
    } else if s[j] == 'e' || s[j] == 'E' {
        match exponent_at(s, j + 1) {
            Some(exponent) => Some(scaled(negative, digits_value(digits), exponent + f - j)),
            None => None,
        }
    } else {
        None
    }
}

pub open spec fn lower(c: char) -> char {
    if 'A' <= c <= 'Z' {
        (c as int + 0x20) as char
    } else {
        c
    }
}

/// Whether a text is a word in lower case, whatever case it has.
pub open spec fn is_word(s: Seq<char>, word: Seq<char>) -> bool {
    s.len() == word.len() && forall|i: int| 0 <= i < s.len() ==> lower(#[trigger] s[i]) == word[i]
}

/// The number that a name stands for.
pub open spec fn named_number(s: Seq<char>, negative: bool) -> Option<Value> {
    if is_word(s, "inf"@) || is_word(s, "infinity"@) {
        Some(Value::Infinite { negative })
    } else if is_word(s, "nan"@) {
        Some(Value::Nan)
    } else {
        None
    }
}

/// The single-precision number that a text stands for.
pub open spec fn number(s: Seq<char>) -> Option<Value> {
    if s.len() == 0 {
        None
    } else {
        let negative = s[0] == '-';
        let body = if is_sign(s[0]) {
            s.drop_first()
        } else {
            s
        };
        match digits_number(body, negative) {
            Some(value) => Some(value),
            None => named_number(body, negative),
        }
    }
}

fn digit_run(chars: &Vec<char>, from: usize) -> (end: usize)
    requires
        from <= chars@.len(),
    ensures
        end == digits_end(chars@, from as int),
        from <= end <= chars@.len(),
        forall|i: int| from <= i < end ==> is_digit(#[trigger] chars@[i]),
{
    let mut i: usize = from;
    while i < chars.len() && '0' <= chars[i] && chars[i] <= '9'
        invariant
            from <= i <= chars@.len(),
            digits_end(chars@, i as int) == digits_end(chars@, from as int),
            forall|j: int| from <= j < i ==> is_digit(#[trigger] chars@[j]),
        decreases chars.len() - i,
    {
        i = i + 1;
    }
    i
}

/// Bounds `10^n` between powers of two where that decides whether a number is out of range.
proof fn lemma_pow10()
    ensures
        pow(10, 39) >= pow2(129),
        pow(10, 51) >= pow2(168),
{
    lemma2_to64();
    lemma2_to64_rest();
    assert(pow(10, 4) == 10000) by {
        reveal_with_fuel(pow, 5);
    }
    lemma_pow_adds(10, 4, 4);
    lemma_pow_adds(10, 8, 4);
    assert(pow(10, 1) == 10) by {
        reveal_with_fuel(pow, 2);
    }
    lemma_pow_adds(10, 12, 1);
    assert(pow(10, 13) == 10_000_000_000_000);
    lemma_pow_adds(10, 13, 13);
    lemma_pow_adds(10, 26, 13);
    lemma_pow2_adds(43, 43);
    lemma_pow2_adds(86, 43);
    assert(pow2(43) == 0x800_0000_0000);
    assert(pow(10, 13) * pow(10, 13) >= pow2(43) * pow2(43)) by (nonlinear_arith)
        requires
            pow(10, 13) >= pow2(43) >= 0,
    ;
    assert(pow(10, 26) * pow(10, 13) >= pow2(86) * pow2(43)) by (nonlinear_arith)
        requires
            pow(10, 26) >= pow2(86) >= 0,
            pow(10, 13) >= pow2(43) >= 0,
    ;
    lemma_pow_adds(10, 39, 12);
    lemma_pow2_adds(129, 39);
    assert(pow2(39) == 0x80_0000_0000);
    assert(pow(10, 39) * pow(10, 12) >= pow2(129) * pow2(39)) by (nonlinear_arith)
        requires
            pow(10, 39) >= pow2(129) >= 0,
            pow(10, 12) >= pow2(39) >= 0,
    ;
}

proof fn lemma_digits_below(s: Seq<char>)
    requires
        forall|i: int| 0 <= i < s.len() ==> is_digit(#[trigger] s[i]),
    ensures
        digits_value(s) < pow(10, s.len()),
    decreases s.len(),
{
    reveal(pow);
    if s.len() > 0 {
        let t = s.drop_last();
        assert forall|i: int| 0 <= i < t.len() implies is_digit(#[trigger] t[i]) by {
            assert(t[i] == s[i]);
        }
        lemma_digits_below(t);
        assert(is_digit(s[s.len() - 1]));
    }
}

proof fn lemma_digits_above(s: Seq<char>)
    requires
        s.len() > 0,
        forall|i: int| 0 <= i < s.len() ==> is_digit(#[trigger] s[i]),
        s[0] != '0',
    ensures
        digits_value(s) >= pow(10, (s.len() - 1) as nat),
    decreases s.len(),
{
    reveal(pow);
    let t = s.drop_last();
    assert(is_digit(s[0]));
    if s.len() > 1 {
        assert forall|i: int| 0 <= i < t.len() implies is_digit(#[trigger] t[i]) by {
            assert(t[i] == s[i]);
        }
        assert(t[0] == s[0]);
        lemma_digits_above(t);
    } else {
        assert(pow(10, 0) == 1);
    }
}

proof fn lemma_leading_zero(s: Seq<char>)
    requires
        s.len() > 0,
        s[0] == '0',
    ensures
        digits_value(s) == digits_value(s.drop_first()),
    decreases s.len(),
{
    let t = s.drop_first();
    if s.len() > 1 {
        lemma_leading_zero(s.drop_last());
        assert(s.drop_last().drop_first() =~= t.drop_last());
        assert(t.last() == s.last());
    } else {
        reveal_with_fuel(digits_value, 2);
        assert(s.drop_last() =~= seq![]);
        assert(t =~= seq![]);
    }
}

proof fn lemma_zero(negative: bool, exponent: int)
    ensures
        scaled(negative, 0, exponent) == (Value::Finite { negative, units: 0 }),
{
    let d = if exponent >= 0 {
        1
    } else {
        pow(10, (-exponent) as nat) as nat
    };
    if exponent >= 0 {
        lemma_pow_positive(10, exponent as nat);
        assert(0 * pow(10, exponent as nat) * pow2(149) == 0) by (nonlinear_arith);
    } else {
        lemma_pow_positive(10, (-exponent) as nat);
        assert(0 * pow2(149) == 0) by (nonlinear_arith);
    }
    lemma_tiny(negative, 0, d);
}

/// A ratio below one half is rounded to zero.
proof fn lemma_tiny(negative: bool, n: nat, d: nat)
    requires
        d > 0,
        2 * n < d,
    ensures
        rounded(single(), negative, n, d) == (Value::Finite { negative, units: 0 }),
{
    lemma2_to64();
    lemma_pow2_pos(24);
    assert(n < d * pow2(24)) by (nonlinear_arith)
        requires
            n < d,
            pow2(24) >= 1,
    ;
    assert(d * pow2(0) == d) by (nonlinear_arith)
        requires
            pow2(0) == 1,
    ;
    assert(n / d == 0 && n % d == n) by (nonlinear_arith)
        requires
            n < d,
    ;
    assert(0 * pow2(0) == 0) by (nonlinear_arith);
    lemma_pow2_pos(24 + 253);
}

/// A number of at least 40 places before the point is out of range.
proof fn lemma_huge(negative: bool, digits: nat, places: nat, exponent: int)
    requires
        places > 0,
        digits >= pow(10, (places - 1) as nat),
        places + exponent > 40,
    ensures
        scaled(negative, digits, exponent) == (Value::Infinite { negative }),
{
    lemma_pow10();
    lemma_pow2_adds(129, 149);
    lemma_pow2_adds(1, 277);
    lemma2_to64();
    lemma_pow2_pos(277);
    lemma_pow2_pos(149);
    let a = pow(10, (places - 1) as nat);
    let w = pow2(149) as int;
    if exponent >= 0 {
        let b = pow(10, exponent as nat);
        lemma_pow_positive(10, exponent as nat);
        lemma_pow_adds(10, (places - 1) as nat, exponent as nat);
        lemma_pow_increases(10, 39, (places - 1 + exponent) as nat);
        assert(digits * b >= a * b) by (nonlinear_arith)
            requires
                digits >= a,
                b > 0,
        ;
        assert(digits * b * w >= pow2(129) * w) by (nonlinear_arith)
            requires
                digits * b >= pow2(129),
                w > 0,
        ;
        let n = digits * b as nat * pow2(149);
        assert(n >= 1 * pow2(24 + 253)) by (nonlinear_arith)
            requires
                n == digits * b * w,
                digits * b * w >= pow2(129) * w,
                pow2(129) * w >= pow2(277),
        ;
        lemma_overflow(24, n, 1, 253);
    } else {
        let e = (-exponent) as nat;
        let d = pow(10, e);
        lemma_pow_positive(10, e);
        lemma_pow_adds(10, 39, e);
        lemma_pow_increases(10, 39 + e, (places - 1) as nat);
        let n = digits * pow2(149);
        assert(n >= d * pow2(24 + 253)) by (nonlinear_arith)
            requires
                n == digits * w,
                digits >= pow(10, 39) * d,
                pow(10, 39) >= pow2(129),
                pow2(129) * w >= pow2(277),
                d > 0,
                w > 0,
        ;
        lemma_overflow(24, n, d as nat, 253);
    }
}

/// A number with more than 50 zeros behind the point is rounded to zero.
proof fn lemma_minute(negative: bool, digits: nat, places: nat, exponent: int)
    requires
        digits < pow(10, places),
        places + exponent < -50,
    ensures
        scaled(negative, digits, exponent) == (Value::Finite { negative, units: 0 }),
{
    lemma_pow10();
    lemma_pow2_adds(150, 18);
    lemma_pow2_adds(1, 149);
    lemma2_to64();
    lemma_pow2_pos(150);
    let e = (-exponent) as nat;
    let d = pow(10, e);
    lemma_pow_positive(10, e);
    lemma_pow_positive(10, places);
    lemma_pow_adds(10, places, 51);
    lemma_pow_increases(10, places + 51, e);
    let n = digits * pow2(149);
    assert(pow2(18) == 0x4_0000);
    assert(2 * n < d) by (nonlinear_arith)
        requires
            n == digits * pow2(149),
            digits < pow(10, places),
            d >= pow(10, places) * pow(10, 51),
            pow(10, 51) >= pow2(168),
            pow2(168) >= pow2(150),
            pow2(150) == 2 * pow2(149),
            pow(10, places) > 0,
            pow2(149) > 0,
    ;
    lemma_tiny(negative, n, d as nat);
}

/// Exponents are told apart up to this size, which puts any number out of range.
pub const EXPONENT_CAP: u128 = 1_000_000_000_000_000_000_000_000_000_000;

/// Powers of ten.
fn power_of_ten(e: u128) -> (power: Natural)
    ensures
        power@ == pow(10, e as nat),
{
    let mut power = Natural::from_u64(1);
    let mut i: u128 = 0;
    proof {
        reveal(pow);
    }
    while i < e
        invariant
            i <= e,
            power@ == pow(10, i as nat),
        decreases e - i,
    {
        proof {
            reveal(pow);
        }
        power = power.mul_add(10, 0);
        i = i + 1;
    }
    power
}

/// The number nearest to `digits * 10^exponent`. An exponent that is far out of range may stand
/// for any other that is further out.
fn scale_digits(
    negative: bool,
    digits: &Vec<char>,
    exponent: i128,
    Ghost(exact): Ghost<int>,
) -> (result: Float32)
    requires
        forall|i: int| 0 <= i < digits@.len() ==> is_digit(#[trigger] digits@[i]),
        -0x100_0000_0000_0000_0000_0000_0000_0000 < exponent
            < 0x100_0000_0000_0000_0000_0000_0000_0000,
        exponent == exact || (exponent >= 100 && exact >= exponent) || (exponent
            <= -0x4_0000_0000_0000_0000 && exact <= exponent),
    ensures
        result@ == scaled(negative, digits_value(digits@), exact),
{
    let zero = Natural::from_u64(0);
    let one = Natural::from_u64(1);
    let mut start: usize = 0;
    proof {
        assert(digits@.skip(0) =~= digits@);
    }
    while start < digits.len() && digits[start] == '0'
        invariant
            start <= digits@.len(),
            digits_value(digits@.skip(start as int)) == digits_value(digits@),
        decreases digits.len() - start,
    {
        proof {
            lemma_leading_zero(digits@.skip(start as int));
            assert(digits@.skip(start as int).drop_first() =~= digits@.skip(start + 1));
        }
        start = start + 1;
    }
    let ghost significant = digits@.skip(start as int);
    proof {
        assert forall|i: int| 0 <= i < significant.len() implies is_digit(
            #[trigger] significant[i],
        ) by {
            assert(significant[i] == digits@[start + i]);
        }
    }
    if start == digits.len() {
        proof {
            assert(digits_value(significant) == 0);
            lemma_zero(negative, exact);
            lemma_tiny(negative, 0, 1);
        }
        return Float32::from_ratio(negative, &zero, &one);
    }
    let places: usize = digits.len() - start;
    proof {
        lemma_digits_below(significant);
        lemma_digits_above(significant);
    }
    let magnitude: i128 = places as i128 + exponent;
    if magnitude > 40 {
        proof {
            lemma_huge(negative, digits_value(digits@), places as nat, exact);
            lemma2_to64();
            assert(1 * pow2(24 + 253) == pow2(24 + 253)) by (nonlinear_arith);
            lemma_overflow(24, pow2(277), 1, 253);
        }
        return Float32::from_ratio(negative, &one.shifted(277), &one);
    }
    if magnitude < -50 {
        proof {
            lemma_minute(negative, digits_value(digits@), places as nat, exact);
            lemma_tiny(negative, 0, 1);
        }
        return Float32::from_ratio(negative, &zero, &one);
    }
    assert(exponent == exact);
    let mut value = Natural::from_u64(0);
    let mut i: usize = 0;
    while i < digits.len()
        invariant
            i <= digits@.len(),
            forall|j: int| 0 <= j < digits@.len() ==> is_digit(#[trigger] digits@[j]),
            value@ == digits_value(digits@.take(i as int)),
        decreases digits.len() - i,
    {
        proof {
            assert(digits@.take(i + 1).drop_last() =~= digits@.take(i as int));
            assert(is_digit(digits@[i as int]));
        }
        value = value.mul_add(10, digits[i] as u32 - 0x30);
        i = i + 1;
    }
    proof {
        assert(digits@.take(i as int) =~= digits@);
    }
    if exponent >= 0 {
        let mut left: i128 = exponent;
        let ghost whole = value@;
        proof {
            assert(value@ * 1 == value@) by (nonlinear_arith);
            reveal(pow);
        }
        while left > 0
            invariant
                0 <= left <= exponent,
                value@ == whole * pow(10, (exponent - left) as nat),
            decreases left,
        {
            proof {
                reveal(pow);
                let p = pow(10, (exponent - left) as nat);
                assert(pow(10, (exponent - left + 1) as nat) == 10 * p);
                assert(whole * (10 * p) == (whole * p) * 10) by (nonlinear_arith);
            }
            value = value.mul_add(10, 0);
            left = left - 1;
        }
        proof {
            lemma_pow_positive(10, exponent as nat);
        }
        Float32::from_ratio(negative, &value.shifted(149), &one)
    } else {
        let d = power_of_ten((-exponent) as u128);
        proof {
            lemma_pow_positive(10, (-exponent) as nat);
        }
        Float32::from_ratio(negative, &value.shifted(149), &d)
    }
}

/// An exponent that is read stands for another only where both are out of range.
spec fn stands_for(read: int, exponent: int) -> bool {
    ||| read == exponent
    ||| read == EXPONENT_CAP && exponent >= EXPONENT_CAP
    ||| read == -EXPONENT_CAP && exponent <= -EXPONENT_CAP
}

fn read_exponent(chars: &Vec<char>, from: usize) -> (result: Option<i128>)
    requires
        from <= chars@.len(),
    ensures
        match (result, exponent_at(chars@, from as int)) {
            (Some(read), Some(exponent)) => stands_for(read as int, exponent) && -EXPONENT_CAP
                <= read <= EXPONENT_CAP,
            (None, None) => true,
            _ => false,
        },
{
    let mut x: usize = from;
    let mut negative: bool = false;
    if from < chars.len() && (chars[from] == '+' || chars[from] == '-') {
        negative = chars[from] == '-';
        x = from + 1;
    }
    if x >= chars.len() || digit_run(chars, x) < chars.len() {
        return None;
    }
    let mut read: u128 = 0;
    let mut i: usize = x;
    while i < chars.len()
        invariant
            x <= i <= chars@.len(),
            forall|j: int| x <= j < chars@.len() ==> is_digit(#[trigger] chars@[j]),
            ({
                let value = digits_value(chars@.subrange(x as int, i as int));
                if value < EXPONENT_CAP {
                    read == value
                } else {
                    EXPONENT_CAP <= read < 10 * EXPONENT_CAP
                }
            }),
        decreases chars.len() - i,
    {
        proof {
            assert(chars@.subrange(x as int, i + 1).drop_last() =~= chars@.subrange(
                x as int,
                i as int,
            ));
            assert(is_digit(chars@[i as int]));
        }
        if read < EXPONENT_CAP {
            read = read * 10 + (chars[i] as u32 - 0x30) as u128;
        }
        i = i + 1;
    }
    if read > EXPONENT_CAP {
        read = EXPONENT_CAP;
    }
    if negative {
        Some(-(read as i128))
    } else {
        Some(read as i128)
    }
}

fn parse_digits_number(chars: &Vec<char>, negative: bool) -> (result: Option<Float32>)
    ensures
        match result {
            Some(number) => digits_number(chars@, negative) == Some(number@),
            None => digits_number(chars@, negative) is None,
        },
{
    let i: usize = digit_run(chars, 0);
    let mut f: usize = i;
    let mut j: usize = i;
    if i < chars.len() && chars[i] == '.' {
        f = i + 1;
        j = digit_run(chars, f);
    }
    let mut digits = part(chars, 0, i);
    let mut fraction = part(chars, f, j);
    let ghost all = chars@.subrange(0, i as int) + chars@.subrange(f as int, j as int);
    digits.append(&mut fraction);
    proof {
        assert(digits@ == all);
        assert forall|k: int| 0 <= k < digits@.len() implies is_digit(#[trigger] digits@[k]) by {
            if k < i {
                assert(digits@[k] == chars@[k]);
            } else {
                assert(digits@[k] == chars@[f + (k - i)]);
            }
        }
    }
    if digits.len() == 0 {
        return None;
    }
    let places: i128 = (j - f) as i128;
    if j == chars.len() {
        return Some(scale_digits(negative, &digits, -places, Ghost(-(places as int))));
    }
    if chars[j] != 'e' && chars[j] != 'E' {
        return None;
    }
    match read_exponent(chars, j + 1) {
        Some(read) => {
            let ghost exponent = exponent_at(chars@, j + 1)->0;
            Some(scale_digits(negative, &digits, read - places, Ghost(exponent - places)))
        },
        None => None,
    }
}

fn word(chars: &Vec<char>, name: &str) -> (result: bool)
    ensures
        result == is_word(chars@, name@),
{
    let letters = chars_of(name);
    if chars.len() != letters.len() {
        return false;
    }
    let mut i: usize = 0;
    while i < chars.len()
        invariant
            i <= chars@.len() == letters@.len(),
            letters@ == name@,
            forall|j: int| 0 <= j < i ==> lower(#[trigger] chars@[j]) == letters@[j],
        decreases chars.len() - i,
    {
        let c: char = chars[i];
        let l: char = if 'A' <= c && c <= 'Z' {
            (c as u8 + 0x20) as char
        } else {
            c
        };
        if l != letters[i] {
            assert(lower(chars@[i as int]) != letters@[i as int]);
            return false;
        }
        i = i + 1;
    }
    true
}

/// Reads a single-precision number.
pub fn parse_number(chars: &Vec<char>) -> (result: Option<Float32>)
    ensures
        match result {
            Some(value) => number(chars@) == Some(value@),
            None => number(chars@) is None,
        },
{
    if chars.len() == 0 {
        return None;
    }
    let negative: bool = chars[0] == '-';
    let from: usize = if chars[0] == '+' || chars[0] == '-' {
        1
    } else {
        0
    };
    let body = part(chars, from, chars.len());
    proof {
        if from == 0 {
            assert(body@ =~= chars@);
        } else {
            assert(body@ =~= chars@.drop_first());
        }
    }
    match parse_digits_number(&body, negative) {
        Some(value) => Some(value),
        None => {
            if word(&body, "inf") || word(&body, "infinity") {
                Some(Float32::infinite(negative))
            } else if word(&body, "nan") {
                Some(Float32::nan())
            } else {
                None
            }
        },
    }
}

/// A double-precision number with one digit after the decimal point.
pub open spec fn tenths_text(value: Value) -> Seq<char> {
    match value {
        Value::Nan => "NaN"@,
        Value::Infinite { negative } => if negative {
            "-inf"@
        } else {
            "inf"@
        },
        Value::Finite { negative, units } => {
            let tenths = nearest_tenths(units);
            let sign: Seq<char> = if negative {
                seq!['-']
            } else {
                seq![]
            };
            (sign + decimal(tenths / 10)).push('.') + decimal(tenths % 10)
        },
    }
}

/// Writes a number with one digit after the decimal point.
pub fn write_tenths(value: &Float64) -> (text: String)
    ensures
        text@ == tenths_text(value@),
{
    match value.to_tenths() {
        Tenths::Nan => String::from_str("NaN"),
        Tenths::Infinite { negative } => if negative {
            String::from_str("-inf")
        } else {
            String::from_str("inf")
        },
        Tenths::Finite { negative, tenths } => {
            let mut out: Vec<char> = Vec::new();
            if negative {
                out.push('-');
            }
            let ghost sign = out@;
            let (whole, rest) = tenths.div_rem(&Natural::from_u64(10));
            push_natural(&mut out, &whole);
            out.push('.');
            push_natural(&mut out, &rest);
            proof {
                assert(sign =~= if negative {
                    seq!['-']
                } else {
                    seq![]
                });
            }
            string_of(&out)
        },
    }
}

proof fn lemma_prefix_value(s: Seq<char>, i: int)
    requires
        0 <= i <= s.len(),
    ensures
        digits_value(s.take(i)) <= digits_value(s),
    decreases s.len() - i,
{
    if i < s.len() {
        lemma_prefix_value(s, i + 1);
        assert(s.take(i + 1).drop_last() =~= s.take(i));
        let v = digits_value(s.take(i));
        assert(v <= v * 10);
    } else {
        assert(s.take(i) =~= s);
    }
}

/// A text that holds nothing but digits.
pub open spec fn is_digits(s: Seq<char>) -> bool {
    forall|i: int| 0 <= i < s.len() ==> is_digit(#[trigger] s[i])
}

proof fn lemma_scan_value(s: Seq<char>, i: int, max: nat)
    requires
        is_digits(s),
        0 <= i <= s.len(),
        digits_value(s.take(i)) <= max,
    ensures
        scan(s, i, digits_value(s.take(i)), max) == if digits_value(s) <= max {
            Ok(digits_value(s))
        } else {
            Err(IntError::TooLarge)
        },
    decreases s.len() - i,
{
    if i < s.len() {
        let next = s.take(i + 1);
        assert(next.drop_last() =~= s.take(i));
        assert(next.last() == s[i]);
        assert(is_digit(s[i]));
        if digits_value(next) <= max {
            lemma_scan_value(s, i + 1, max);
        } else {
            lemma_prefix_value(s, i + 1);
        }
    } else {
        assert(s.take(i) =~= s);
    }
}

/// Digits are read as the number that they stand for, unless it is larger than the largest one
/// that is accepted.
pub proof fn law_digits_are_read_as_their_value(s: Seq<char>, max: nat)
    requires
        s.len() > 0,
        is_digits(s),
    ensures
        unsigned(s, max) == if digits_value(s) <= max {
            Ok(digits_value(s))
        } else {
            Err(IntError::TooLarge)
        },
{
    assert(is_digit(s[0]));
    assert(s.take(0) =~= seq![]);
    lemma_scan_value(s, 0, max);
}

proof fn lemma_scan_stops(s: Seq<char>, i: int, read: nat, max: nat, k: int)
    requires
        0 <= i <= k < s.len(),
        !is_digit(s[k]),
    ensures
        scan(s, i, read, max) is Err,
    decreases k - i,
{
    if i < k && is_digit(s[i]) && read * 10 + digit_value(s[i]) <= max {
        lemma_scan_stops(s, i + 1, read * 10 + digit_value(s[i]), max, k);
    }
}

/// A text that holds anything but digits is no whole number, but for a plus sign in front. Nor is
/// one that holds nothing.
pub proof fn law_other_texts_are_no_whole_number(s: Seq<char>, max: nat, k: int)
    requires
        s.len() == 0 || (0 <= k < s.len() && !is_digit(s[k]) && (k > 0 || s[0] != '+')),
    ensures
        unsigned(s, max) is Err,
{
    if s.len() > 0 {
        if s[0] == '+' {
            if s.len() > 1 {
                lemma_scan_stops(s, 1, 0, max, k);
            }
        } else {
            lemma_scan_stops(s, 0, 0, max, k);
        }
    }
}

proof fn lemma_digits_end(s: Seq<char>, i: int, end: int)
    requires
        0 <= i <= end <= s.len(),
        forall|k: int| i <= k < end ==> is_digit(#[trigger] s[k]),
        end < s.len() ==> !is_digit(s[end]),
    ensures
        digits_end(s, i) == end,
    decreases end - i,
{
    if i < end {
        lemma_digits_end(s, i + 1, end);
    }
}

/// Digits are read as the single-precision number nearest to the number that they stand for.
pub proof fn law_whole_number_is_read(s: Seq<char>)
    requires
        s.len() > 0,
        is_digits(s),
    ensures
        number(s) == Some(rounded(single(), false, digits_value(s) * pow2(149), 1)),
{
    assert(is_digit(s[0]));
    lemma_digits_end(s, 0, s.len() as int);
    let n = s.len() as int;
    assert(s.subrange(0, n) + s.subrange(n, n) =~= s);
    reveal(pow);
    assert(pow(10, 0) == 1);
    assert(digits_value(s) * 1 == digits_value(s));
}

/// Digits with a point among them are read as the single-precision number nearest to the decimal
/// fraction that they stand for.
pub proof fn law_decimal_fraction_is_read(whole: Seq<char>, fraction: Seq<char>)
    requires
        whole.len() > 0,
        fraction.len() > 0,
        is_digits(whole),
        is_digits(fraction),
    ensures
        number(whole + seq!['.'] + fraction) == Some(
            rounded(
                single(),
                false,
                digits_value(whole + fraction) * pow2(149),
                pow(10, fraction.len()) as nat,
            ),
        ),
{
    let s = whole + seq!['.'] + fraction;
    let i = whole.len() as int;
    let n = s.len() as int;
    assert forall|k: int| 0 <= k < i implies is_digit(#[trigger] s[k]) by {
        assert(s[k] == whole[k]);
    }
    assert forall|k: int| i + 1 <= k < n implies is_digit(#[trigger] s[k]) by {
        assert(s[k] == fraction[k - i - 1]);
    }
    assert(is_digit(s[0]));
    lemma_digits_end(s, 0, i);
    lemma_digits_end(s, i + 1, n);
    assert(s.subrange(0, i) + s.subrange(i + 1, n) =~= whole + fraction);
}

/// A minus sign in front of a number turns its sign, and a plus sign does nothing.
pub proof fn law_signs_are_read(s: Seq<char>)
    requires
        s.len() > 0,
        !is_sign(s[0]),
    ensures
        number(seq!['+'] + s) == number(s),
        number(seq!['-'] + s) == match number(s) {
            Some(Value::Finite { units, .. }) => Some(Value::Finite { negative: true, units }),
            Some(Value::Infinite { .. }) => Some(Value::Infinite { negative: true }),
            Some(Value::Nan) => Some(Value::Nan),
            None => None,
        },
{
    assert((seq!['+'] + s).drop_first() =~= s);
    assert((seq!['-'] + s).drop_first() =~= s);
}

/// A whole number is written in decimal notation with a zero after the point.
pub proof fn law_whole_number_is_written(n: nat)
    ensures
        tenths_text(Value::Finite { negative: false, units: n * pow2(1074) }) == decimal(n) + seq![
            '.',
            '0',
        ],
{
    let w = pow2(1074);
    lemma_pow2_pos(1074);
    assert(10 * (n * w) == (10 * n) * w) by (nonlinear_arith);
    lemma_fundamental_div_mod_converse(((10 * n) * w) as int, w as int, (10 * n) as int, 0);
    assert(nearest_tenths(n * w) == 10 * n);
    assert((10 * n) / 10 == n && (10 * n) % 10 == 0);
    assert(decimal(0) =~= seq!['0']);
    let sign: Seq<char> = seq![];
    assert((sign + decimal(n)).push('.') + seq!['0'] =~= decimal(n) + seq!['.', '0']);
}

/// Digits with an exponent are read as the single-precision number nearest to what they stand for,
/// times or divided by that power of ten.
pub proof fn law_exponent_is_read(digits: Seq<char>, exponent: Seq<char>, e: char)
    requires
        digits.len() > 0,
        exponent.len() > 0,
        is_digits(digits),
        is_digits(exponent),
        e == 'e' || e == 'E',
    ensures
        number(digits + seq![e] + exponent) == Some(
            rounded(
                single(),
                false,
                digits_value(digits) * pow(10, digits_value(exponent)) as nat * pow2(149),
                1,
            ),
        ),
        digits_value(exponent) > 0 ==> number(digits + seq![e, '-'] + exponent) == Some(
            rounded(
                single(),
                false,
                digits_value(digits) * pow2(149),
                pow(10, digits_value(exponent)) as nat,
            ),
        ),
{
    let s = digits + seq![e] + exponent;
    let t = digits + seq![e, '-'] + exponent;
    let i = digits.len() as int;
    let n = s.len() as int;
    let m = t.len() as int;
    assert forall|k: int| 0 <= k < i implies is_digit(#[trigger] s[k]) && is_digit(
        #[trigger] t[k],
    ) by {
        assert(s[k] == digits[k] && t[k] == digits[k]);
    }
    assert forall|k: int| i + 1 <= k < n implies is_digit(#[trigger] s[k]) by {
        assert(s[k] == exponent[k - i - 1]);
    }
    assert forall|k: int| i + 2 <= k < m implies is_digit(#[trigger] t[k]) by {
        assert(t[k] == exponent[k - i - 2]);
    }
    assert(is_digit(s[0]) && is_digit(t[0]));
    assert(is_digit(s[i + 1]));
    assert(t[i + 1] == '-');
    lemma_digits_end(s, 0, i);
    lemma_digits_end(s, i + 1, n);
    lemma_digits_end(t, 0, i);
    lemma_digits_end(t, i + 2, m);
    assert(s.subrange(0, i) + s.subrange(i, i) =~= digits);
    assert(t.subrange(0, i) + t.subrange(i, i) =~= digits);
    assert(s.subrange(i + 1, n) =~= exponent);
    assert(t.subrange(i + 2, m) =~= exponent);
}

} // verus!
