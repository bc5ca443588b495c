//! Whole numbers in decimal notation.

use crate::natural::Natural;
use crate::text::string_of;
use vstd::prelude::*;

verus! {

/// Why a text is not a whole number of the wanted size.
#[derive(Debug, Clone, Copy, PartialEq, Eq, Structural)]
pub enum IntError {
    Empty,
    InvalidDigit,
    TooLarge,
}

/// The words for an error.
pub open spec fn int_error_text(error: IntError) -> Seq<char> {
    match error {
        IntError::Empty => "cannot parse integer from empty string"@,
        IntError::InvalidDigit => "invalid digit found in string"@,
        IntError::TooLarge => "number too large to fit in target type"@,
    }
}

impl IntError {
    /// The words for this error.
    pub fn message(&self) -> (message: &'static str)
        ensures
            message@ == int_error_text(*self),
    {
        match self {
            IntError::Empty => "cannot parse integer from empty string",
            IntError::InvalidDigit => "invalid digit found in string",
            IntError::TooLarge => "number too large to fit in target type",
        }
    }
}

/// The character of a digit.
pub open spec fn digit(d: nat) -> char {
    (0x30 + d) as char
}

pub open spec fn is_digit(c: char) -> bool {
    '0' <= c <= '9'
}

/// The number that a digit stands for.
pub open spec fn digit_value(c: char) -> nat {
    (c as int - 0x30) as nat
}

/// A number in decimal notation.
pub open spec fn decimal(n: nat) -> Seq<char>
    decreases n,
{
    if n < 10 {
        seq![digit(n)]
    } else {
        decimal(n / 10).push(digit(n % 10))
    }
}

/// A number in decimal notation, with a zero in front where it has one digit.
pub open spec fn two_digits(n: nat) -> Seq<char> {
    if n < 10 {
        seq!['0'] + decimal(n)
    } else {
        decimal(n)
    }
}

fn digit_char(d: u64) -> (c: char)
    requires
        d < 10,
    ensures
        c == digit(d as nat),
{
    (0x30 + d as u8) as char
}

/// Appends a number in decimal notation.
pub fn push_decimal(out: &mut Vec<char>, n: u64)
    ensures
        final(out)@ == old(out)@ + decimal(n as nat),
    decreases n,
{
    if n < 10 {
        out.push(digit_char(n));
    } else {
        push_decimal(out, n / 10);
        out.push(digit_char(n % 10));
    }
}

/// Appends a number of any size in decimal notation.
pub fn push_natural(out: &mut Vec<char>, n: &Natural)
    ensures
        final(out)@ == old(out)@ + decimal(n@),
    decreases n@,
{
    let ten = Natural::from_u64(10);
    if n.less_than(&ten) {
        out.push(natural_digit(n));
    } else {
        let (rest, last) = n.div_rem(&ten);
        push_natural(out, &rest);
        out.push(natural_digit(&last));
    }
}

/// The digit for a number.
fn natural_digit(n: &Natural) -> (c: char)
    requires
        n@ < 10,
    ensures
        c == digit(n@),
{
    let mut d: u64 = 0;
    while !n.less_than(&Natural::from_u64(d + 1))
        invariant
            d <= n@ < 10,
        decreases 10 - d,
    {
        d = d + 1;
    }
    digit_char(d)
}

/// A number in decimal notation.
pub fn decimal_text(n: u64) -> (text: String)
    ensures
        text@ == decimal(n as nat),
{
    let mut out: Vec<char> = Vec::new();
    push_decimal(&mut out, n);
    string_of(&out)
}

/// A number in decimal notation, with a zero in front where it has one digit.
pub fn two_digit_text(n: u64) -> (text: String)
    ensures
        text@ == two_digits(n as nat),
{
    let mut out: Vec<char> = Vec::new();
    if n < 10 {
        out.push('0');
    }
    push_decimal(&mut out, n);
    string_of(&out)
}

/// Reads the digits from index `i` on after those that gave `read`. The first character that is
/// no digit, or that makes the number larger than `max`, decides the error.
pub open spec fn scan(s: Seq<char>, i: int, read: nat, max: nat) -> Result<nat, IntError>
    decreases s.len() - i,
{
    if i < 0 || i >= s.len() {
        Ok(read)
    } else if !is_digit(s[i]) {
        Err(IntError::InvalidDigit)
    } else if read * 10 + digit_value(s[i]) > max {
        Err(IntError::TooLarge)
    } else {
        scan(s, i + 1, read * 10 + digit_value(s[i]), max)
    }
}

/// The whole number, at most `max`, that a text holds: digits, and a plus sign before them or not.
pub open spec fn unsigned(s: Seq<char>, max: nat) -> Result<nat, IntError> {
    if s.len() == 0 {
        Err(IntError::Empty)
    } else if s[0] == '+' {
        if s.len() == 1 {
            Err(IntError::InvalidDigit)
        } else {
            scan(s, 1, 0, max)
        }
    } else {
        scan(s, 0, 0, max)
    }
}

/// Reads a whole number that is at most `max`.
pub fn parse_unsigned(chars: &Vec<char>, max: u32) -> (result: Result<u32, IntError>)
    ensures
        match result {
            Ok(n) => unsigned(chars@, max as nat) == Ok::<nat, IntError>(n as nat),
            Err(e) => unsigned(chars@, max as nat) == Err::<nat, IntError>(e),
        },
        result matches Ok(n) ==> n <= max,
{
    if chars.len() == 0 {
        return Err(IntError::Empty);
    }
    let mut i: usize = 0;
    if chars[0] == '+' {
        if chars.len() == 1 {
            return Err(IntError::InvalidDigit);
        }
        i = 1;
    }
    let mut read: u32 = 0;
    while i < chars.len()
        invariant
            i <= chars@.len(),
            read <= max,
            scan(chars@, i as int, read as nat, max as nat) == unsigned(chars@, max as nat),
        decreases chars.len() - i,
    {
        let c: char = chars[i];
        if !('0' <= c && c <= '9') {
            return Err(IntError::InvalidDigit);
        }
        let d: u32 = c as u32 - 0x30;
        let next: u64 = read as u64 * 10 + d as u64;
        if next > max as u64 {
            return Err(IntError::TooLarge);
        }
        read = next as u32;
        i = i + 1;
    }
    Ok(read)
}

proof fn lemma_digit(d: nat)
    requires
        d < 10,
    ensures
        is_digit(digit(d)),
        digit_value(digit(d)) == d,
        digit(d) != '+',
{
}

proof fn lemma_scan_push(s: Seq<char>, i: int, read: nat, max: nat, d: nat)
    requires
        d < 10,
        0 <= i <= s.len(),
        scan(s, i, read, max) is Ok,
        scan(s, i, read, max)->Ok_0 * 10 + d <= max,
    ensures
        scan(s.push(digit(d)), i, read, max) == Ok::<nat, IntError>(
            scan(s, i, read, max)->Ok_0 * 10 + d,
        ),
    decreases s.len() - i,
{
    let t = s.push(digit(d));
    lemma_digit(d);
    if i < s.len() {
        assert(t[i] == s[i]);
        lemma_scan_push(s, i + 1, read * 10 + digit_value(s[i]), max, d);
    } else {
        assert(t[i] == digit(d));
        reveal_with_fuel(scan, 2);
    }
}

proof fn lemma_scan_decimal(n: nat, max: nat)
    requires
        n <= max,
    ensures
        scan(decimal(n), 0, 0, max) == Ok::<nat, IntError>(n),
        decimal(n).len() > 0,
        is_digit(decimal(n)[0]),
    decreases n,
{
    if n < 10 {
        lemma_digit(n);
        reveal_with_fuel(scan, 2);
    } else {
        lemma_digit(n % 10);
        lemma_scan_decimal(n / 10, max);
        lemma_scan_push(decimal(n / 10), 0, 0, max, n % 10);
    }
}

/// A number that was written in decimal notation is read back as it was.
pub proof fn law_decimal_is_read_back(n: nat, max: nat)
    requires
        n <= max,
    ensures
        unsigned(decimal(n), max) == Ok::<nat, IntError>(n),
{
    lemma_scan_decimal(n, max);
}

/// Decimal notation holds nothing but digits.
pub proof fn lemma_decimal_digits(n: nat)
    ensures
        decimal(n).len() > 0,
        forall|i: int| 0 <= i < decimal(n).len() ==> is_digit(#[trigger] decimal(n)[i]),
    decreases n,
{
    if n >= 10 {
        lemma_decimal_digits(n / 10);
    }
}

/// A number in decimal notation is read as that number also where a zero stands in front of it.
pub proof fn law_two_digits_are_read_back(n: nat, max: nat)
    requires
        n <= max,
    ensures
        unsigned(two_digits(n), max) == Ok::<nat, IntError>(n),
{
    if n < 10 {
        reveal_with_fuel(scan, 4);
        assert(two_digits(n) =~= seq!['0', digit(n)]);
    } else {
        law_decimal_is_read_back(n, max);
    }
}

} // verus!
