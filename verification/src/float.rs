//! Binary floating-point arithmetic, carried out exactly and rounded once.
//!
//! Frame rates and audio samples are IEEE 754 single-precision numbers, and cue times are
//! compared in double precision. The operations here work on the encodings of those numbers and
//! are specified by the rational numbers that the encodings stand for: every result is the
//! representable number nearest to the exact one, with ties going to the even significand.

use crate::natural::{bits, Natural, MAX_BITS};
use crate::rounding::{
    lemma_first_shift, lemma_next_shift, lemma_overflow, lemma_quick_quotient, lemma_quick_shift,
    lemma_quotient, lemma_quotient_scaled, lemma_round_cancel, lemma_round_exact, lemma_round_zero,
    lemma_scaled_shift, lemma_shift_bounds, lemma_shift_for, lemma_significand, nearest_even,
    round_ratio, shift_for,
};
use vstd::arithmetic::div_mod::{lemma_fundamental_div_mod, lemma_fundamental_div_mod_converse};
use vstd::arithmetic::power2::{
    lemma2_to64, lemma2_to64_rest, lemma_pow2_adds, lemma_pow2_pos, lemma_pow2_strictly_increases,
    pow2,
};
use vstd::prelude::*;

verus! {

/// A binary floating-point format.
#[derive(Clone, Copy)]
pub struct Format {
    /// Number of bits of the significand, the leading one included.
    pub precision: u32,
    /// The smallest positive number of the format is `2^-point`.
    pub point: u32,
    /// The exponent field of infinities and of what is not a number.
    pub exponents: u32,
}

impl Format {
    pub open spec fn wf(self) -> bool {
        &&& 2 <= self.precision <= 53
        &&& 3 <= self.exponents <= 2047
    }

    /// How far the significand of the largest finite numbers is shifted.
    pub open spec fn max_shift(self) -> nat {
        (self.exponents - 2) as nat
    }

    /// IEEE 754 binary32.
    pub fn single() -> (format: Format)
        ensures
            format == single(),
    {
        Format { precision: 24, point: 149, exponents: 255 }
    }

    /// IEEE 754 binary64.
    pub fn double() -> (format: Format)
        ensures
            format == double(),
    {
        Format { precision: 53, point: 1074, exponents: 2047 }
    }
}

pub open spec fn single() -> Format {
    Format { precision: 24, point: 149, exponents: 255 }
}

pub open spec fn double() -> Format {
    Format { precision: 53, point: 1074, exponents: 2047 }
}

/// What a floating-point number stands for. The magnitude of a finite one is counted in units of
/// the smallest positive number of its format.
pub enum Value {
    Nan,
    Infinite { negative: bool },
    Finite { negative: bool, units: nat },
}

/// The number of a format nearest to `n / d` units.
pub open spec fn rounded(format: Format, negative: bool, n: nat, d: nat) -> Value {
    let units = round_ratio(format.precision as nat, n, d);
    if units >= pow2(format.precision as nat + format.max_shift()) {
        Value::Infinite { negative }
    } else {
        Value::Finite { negative, units }
    }
}

/// The number of a format nearest to the natural number `n`.
pub open spec fn of_nat(format: Format, n: nat) -> Value {
    rounded(format, false, n * pow2(format.point as nat), 1)
}

/// The quotient of two numbers of a format.
pub open spec fn quotient(format: Format, a: Value, b: Value) -> Value {
    match (a, b) {
        (Value::Nan, _) => Value::Nan,
        (_, Value::Nan) => Value::Nan,
        (Value::Infinite { negative: x }, Value::Infinite { negative: y }) => Value::Nan,
        (Value::Infinite { negative: x }, Value::Finite { negative: y, units: v }) =>
            Value::Infinite { negative: x != y },
        (Value::Finite { negative: x, units: u }, Value::Infinite { negative: y }) =>
            Value::Finite { negative: x != y, units: 0 },
        (Value::Finite { negative: x, units: u }, Value::Finite { negative: y, units: v }) => {
            if v == 0 {
                if u == 0 {
                    Value::Nan
                } else {
                    Value::Infinite { negative: x != y }
                }
            } else {
                rounded(format, x != y, u * pow2(format.point as nat), v)
            }
        },
    }
}

/// The product of two numbers of a format.
pub open spec fn product(format: Format, a: Value, b: Value) -> Value {
    match (a, b) {
        (Value::Nan, _) => Value::Nan,
        (_, Value::Nan) => Value::Nan,
        (Value::Infinite { negative: x }, Value::Infinite { negative: y }) => Value::Infinite {
            negative: x != y,
        },
        (Value::Infinite { negative: x }, Value::Finite { negative: y, units: v }) => if v == 0 {
            Value::Nan
        } else {
            Value::Infinite { negative: x != y }
        },
        (Value::Finite { negative: x, units: u }, Value::Infinite { negative: y }) => if u == 0 {
            Value::Nan
        } else {
            Value::Infinite { negative: x != y }
        },
        (Value::Finite { negative: x, units: u }, Value::Finite { negative: y, units: v }) =>
            rounded(format, x != y, u * v, pow2(format.point as nat)),
    }
}

/// The signed number of units of a finite magnitude.
pub open spec fn signed(negative: bool, units: nat) -> int {
    if negative {
        -units
    } else {
        units as int
    }
}

/// The sum of two numbers of a format.
pub open spec fn sum(format: Format, a: Value, b: Value) -> Value {
    match (a, b) {
        (Value::Nan, _) => Value::Nan,
        (_, Value::Nan) => Value::Nan,
        (Value::Infinite { negative: x }, Value::Infinite { negative: y }) => if x == y {
            a
        } else {
            Value::Nan
        },
        (Value::Infinite { negative: x }, Value::Finite { negative: y, units: v }) => a,
        (Value::Finite { negative: x, units: u }, Value::Infinite { negative: y }) => b,
        (Value::Finite { negative: x, units: u }, Value::Finite { negative: y, units: v }) => {
            let t = signed(x, u) + signed(y, v);
            if t > 0 {
                rounded(format, false, t as nat, 1)
            } else if t < 0 {
                rounded(format, true, (-t) as nat, 1)
            } else {
                Value::Finite { negative: x && y, units: 0 }
            }
        },
    }
}

/// Whether a number is a zero of either sign.
pub open spec fn is_zero(value: Value) -> bool {
    value matches Value::Finite { units, .. } && units == 0
}

/// Whether one number is less than another of the same format.
pub open spec fn less(a: Value, b: Value) -> bool {
    match (a, b) {
        (Value::Nan, _) => false,
        (_, Value::Nan) => false,
        (Value::Infinite { negative: x }, Value::Infinite { negative: y }) => x && !y,
        (Value::Infinite { negative: x }, Value::Finite { negative: y, units: v }) => x,
        (Value::Finite { negative: x, units: u }, Value::Infinite { negative: y }) => !y,
        (Value::Finite { negative: x, units: u }, Value::Finite { negative: y, units: v }) =>
            signed(x, u) < signed(y, v),
    }
}

/// A floating-point number taken apart: a significand and how far it is shifted.
#[derive(Clone, Copy)]
pub enum Parts {
    Nan,
    Infinite { negative: bool },
    Finite { negative: bool, significand: u64, shift: u32 },
}

impl View for Parts {
    type V = Value;

    open spec fn view(&self) -> Value {
        match *self {
            Parts::Nan => Value::Nan,
            Parts::Infinite { negative } => Value::Infinite { negative },
            Parts::Finite { negative, significand, shift } => Value::Finite {
                negative,
                units: (significand * pow2(shift as nat)) as nat,
            },
        }
    }
}

impl Parts {
    /// The parts are those of a number of `format`.
    pub open spec fn wf(self, format: Format) -> bool {
        match self {
            Parts::Finite { negative, significand, shift } => {
                &&& significand < pow2(format.precision as nat)
                &&& shift <= format.max_shift()
                &&& shift > 0 ==> significand >= pow2((format.precision - 1) as nat)
            },
            _ => true,
        }
    }
}

proof fn lemma_carry(p: nat, shift: nat, max_shift: nat)
    requires
        p > 0,
        shift <= max_shift,
    ensures
        pow2((p - 1) as nat) * 2 == pow2(p),
        pow2((p - 1) as nat) * pow2(shift + 1) == pow2(p) * pow2(shift),
        shift == max_shift ==> pow2(p) * pow2(shift) == pow2(p + max_shift),
        shift < max_shift ==> pow2(p) * pow2(shift) < pow2(p + max_shift),
        pow2((p - 1) as nat) < pow2(p),
{
    lemma2_to64();
    lemma_pow2_pos((p - 1) as nat);
    lemma_pow2_adds((p - 1) as nat, 1);
    lemma_pow2_adds((p - 1) as nat, shift + 1);
    lemma_pow2_adds(p, shift);
    if shift < max_shift {
        lemma_pow2_strictly_increases(p + shift, p + max_shift);
    }
}

proof fn lemma_below_limit(p: nat, significand: nat, shift: nat, max_shift: nat)
    requires
        significand < pow2(p),
        shift <= max_shift,
    ensures
        significand * pow2(shift) < pow2(p + max_shift),
{
    lemma_pow2_pos(shift);
    lemma_pow2_adds(p, shift);
    assert(significand * pow2(shift) < pow2(p) * pow2(shift)) by (nonlinear_arith)
        requires
            significand < pow2(p),
            pow2(shift) > 0,
    ;
    if shift < max_shift {
        lemma_pow2_strictly_increases(p + shift, p + max_shift);
    }
}

/// `2^n`.
fn power_of_two(n: u32) -> (power: u64)
    requires
        n < 64,
    ensures
        power == pow2(n as nat),
{
    let mut power: u64 = 1;
    let mut i: u32 = 0;
    proof {
        lemma2_to64();
    }
    while i < n
        invariant
            i <= n < 64,
            power == pow2(i as nat),
        decreases n - i,
    {
        proof {
            lemma2_to64();
            lemma_pow2_adds(i as nat, 1);
            lemma_pow2_strictly_increases((i + 1) as nat, 64);
        }
        power = 2 * power;
        i = i + 1;
    }
    power
}

/// The number of `significand * 2^shift` units, where rounding may have made the significand one
/// bit too long.
fn rounded_up(format: Format, negative: bool, significand: u64, shift: u32) -> (parts: Parts)
    requires
        format.wf(),
        shift <= format.max_shift(),
        significand <= pow2(format.precision as nat),
        shift == 0 || significand >= pow2((format.precision - 1) as nat),
    ensures
        parts.wf(format),
        parts@ == if significand * pow2(shift as nat) >= pow2(
            format.precision as nat + format.max_shift(),
        ) {
            Value::Infinite { negative }
        } else {
            Value::Finite { negative, units: (significand * pow2(shift as nat)) as nat }
        },
{
    let p: u32 = format.precision;
    let max_shift: u32 = format.exponents - 2;
    let top: u64 = power_of_two(p);
    if significand == top {
        proof {
            lemma_carry(p as nat, shift as nat, max_shift as nat);
        }
        if shift == max_shift {
            Parts::Infinite { negative }
        } else {
            Parts::Finite { negative, significand: top / 2, shift: shift + 1 }
        }
    } else {
        proof {
            lemma_below_limit(p as nat, significand as nat, shift as nat, max_shift as nat);
        }
        Parts::Finite { negative, significand, shift }
    }
}

/// Whether the binary digits of a number are counted.
spec fn is_counted(n: nat) -> bool {
    0 < n < pow2(MAX_BITS as nat)
}

/// How many binary digits `n` has beyond those of `d` and `p` more, but no more than `max_shift`.
/// Where digits are not counted there are none beyond.
spec fn digits_beyond(n: nat, d: nat, p: nat, max_shift: nat) -> nat {
    if !is_counted(n) || !is_counted(d) || bits(n) <= bits(d) + p {
        0
    } else if bits(n) - bits(d) - p < max_shift {
        (bits(n) - bits(d) - p) as nat
    } else {
        max_shift
    }
}

/// How far `n / d` is to be shifted at least, so that it has no more than `p` bits. Where the
/// digits are counted, that is enough or one short of it.
fn first_shift(n: &Natural, d: &Natural, p: u32, max_shift: u32) -> (shift: u32)
    requires
        p <= 64,
    ensures
        shift == digits_beyond(n@, d@, p as nat, max_shift as nat),
        shift == 0 || n@ >= d@ * pow2((p + shift - 1) as nat),
        is_counted(n@) && is_counted(d@) ==> shift == max_shift || n@ < d@ * pow2(
            (p + shift + 1) as nat,
        ),
{
    match (n.bit_length(), d.bit_length()) {
        (Some(a), Some(b)) => {
            if (a as u64) <= b as u64 + p as u64 {
                proof {
                    lemma_next_shift(n@, d@, a as nat, b as nat, p as nat, 0);
                }
                0
            } else {
                let least: u64 = a as u64 - b as u64 - p as u64;
                let shift: u32 = if least < max_shift as u64 {
                    least as u32
                } else {
                    max_shift
                };
                proof {
                    if shift > 0 {
                        lemma_first_shift(n@, d@, a as nat, b as nat, p as nat, shift as nat);
                    }
                    if shift < max_shift {
                        lemma_next_shift(n@, d@, a as nat, b as nat, p as nat, shift as nat);
                    }
                }
                shift
            }
        },
        _ => 0,
    }
}

/// Rounds `n / d` units to the nearest number of a format.
fn round_parts(format: Format, negative: bool, n: &Natural, d: &Natural) -> (parts: Parts)
    requires
        format.wf(),
        d@ > 0,
    ensures
        parts.wf(format),
        parts@ == rounded(format, negative, n@, d@),
{
    let p: u32 = format.precision;
    let max_shift: u32 = format.exponents - 2;
    let mut shift: u32 = first_shift(n, d, p, max_shift);
    let mut bound = d.shifted(p + shift);
    while !n.less_than(&bound)
        invariant
            format.wf(),
            p == format.precision,
            max_shift == format.max_shift(),
            d@ > 0,
            shift <= max_shift,
            bound@ == d@ * pow2((p + shift) as nat),
            shift == 0 || n@ >= d@ * pow2((p + shift - 1) as nat),
        ensures
            n@ < bound@,
        decreases max_shift - shift,
    {
        if shift == max_shift {
            proof {
                lemma_overflow(p as nat, n@, d@, max_shift as nat);
            }
            return Parts::Infinite { negative };
        }
        proof {
            lemma2_to64();
            lemma_pow2_adds((p + shift) as nat, 1);
            let w = pow2((p + shift) as nat);
            assert(d@ * (w * 2) == 2 * (d@ * w)) by (nonlinear_arith);
        }
        bound = bound.double();
        shift = shift + 1;
    }
    let mut rest = n.shifted(0);
    let mut q: u64 = 0;
    let mut top: u64 = 1;
    let mut j: u32 = 0;
    proof {
        lemma2_to64();
        assert(n@ * 1 == n@ && 0 * bound@ == 0) by (nonlinear_arith);
    }
    while j < p
        invariant
            j <= p <= 53,
            top == pow2(j as nat),
            q < top,
            rest@ < bound@,
            n@ * pow2(j as nat) == q * bound@ + rest@,
        decreases p - j,
    {
        let ghost r0 = rest@;
        let ghost q0 = q;
        proof {
            lemma2_to64();
            lemma_pow2_adds(j as nat, 1);
            assert(n@ * (pow2(j as nat) * 2) == 2 * (n@ * pow2(j as nat))) by (nonlinear_arith);
            assert(2 * (q0 * bound@ + r0) == (2 * q0) * bound@ + 2 * r0) by (nonlinear_arith);
            assert((2 * q0 + 1) * bound@ == (2 * q0) * bound@ + bound@) by (nonlinear_arith);
            lemma_pow2_strictly_increases((j + 1) as nat, 64);
        }
        rest = rest.double();
        q = 2 * q;
        top = 2 * top;
        if !rest.less_than(&bound) {
            rest = rest.minus(&bound);
            q = q + 1;
        }
        j = j + 1;
    }
    let ghost unit = (d@ * pow2(shift as nat)) as nat;
    let ghost half = pow2((p - 1) as nat);
    proof {
        lemma2_to64();
        lemma_pow2_pos(p as nat);
        lemma_pow2_pos(shift as nat);
        lemma_pow2_adds(p as nat, shift as nat);
        lemma_pow2_adds((p - 1) as nat, shift as nat);
        lemma_pow2_adds((p - 1) as nat, 1);
        let a = pow2(p as nat);
        let b = pow2(shift as nat);
        assert(d@ * (a * b) == (d@ * b) * a) by (nonlinear_arith);
        assert(d@ * (half * b) == (d@ * b) * half) by (nonlinear_arith);
        assert(unit > 0) by (nonlinear_arith)
            requires
                unit == d@ * b,
                d@ > 0,
                b > 0,
        ;
        lemma_quotient(n@, unit, a, q as nat, bound@, rest@);
        if shift > 0 {
            assert(n@ / unit >= half) by (nonlinear_arith)
                requires
                    n@ >= unit * half,
                    unit > 0,
            ;
        }
        lemma_shift_for(p as nat, n@, d@, shift as nat);
    }
    let twice = rest.double();
    let up: bool = if bound.less_than(&twice) {
        true
    } else if twice.less_than(&bound) {
        false
    } else {
        q % 2 == 1
    };
    let significand: u64 = if up {
        q + 1
    } else {
        q
    };
    assert(significand == nearest_even(n@, unit));
    rounded_up(format, negative, significand, shift)
}

/// How many binary digits a number has.
fn bit_length(m: u64) -> (length: u32)
    requires
        0 < m < 0x8000_0000_0000_0000,
    ensures
        0 < length < 64,
        pow2((length - 1) as nat) <= m < pow2(length as nat),
{
    let mut length: u32 = 1;
    let mut power: u64 = 2;
    proof {
        lemma2_to64();
        lemma2_to64_rest();
    }
    while m >= power
        invariant
            1 <= length < 64,
            power == pow2(length as nat),
            pow2((length - 1) as nat) <= m < 0x8000_0000_0000_0000,
        decreases 64 - length,
    {
        proof {
            lemma2_to64();
            lemma2_to64_rest();
            lemma_pow2_adds(length as nat, 1);
            if length < 63 {
                lemma_pow2_strictly_increases(length as nat, 63);
            }
            lemma_pow2_strictly_increases(length as nat, 64);
        }
        power = 2 * power;
        length = length + 1;
    }
    length
}

/// `m` rounded to a multiple of `2^k`, counted in such multiples.
fn round_off(m: u64, k: u32) -> (q: u64)
    requires
        m < 0x8000_0000_0000_0000,
    ensures
        q == nearest_even(m as nat, pow2(k as nat)),
{
    if k >= 64 {
        proof {
            lemma2_to64();
            if k > 64 {
                lemma_pow2_strictly_increases(64, k as nat);
            }
            lemma_fundamental_div_mod_converse(m as int, pow2(k as nat) as int, 0, m as int);
        }
        return 0;
    }
    let unit: u64 = power_of_two(k);
    proof {
        lemma_pow2_pos(k as nat);
        assert(0 <= m / unit <= m && m % unit <= m) by (nonlinear_arith)
            requires
                unit > 0,
        ;
    }
    let q: u64 = m / unit;
    let r: u64 = m % unit;
    if 2 * r < unit || (2 * r == unit && q % 2 == 0) {
        q
    } else {
        q + 1
    }
}

/// Rounds `m * 2^up / 2^down` units to the nearest number of a format.
fn round_shifted(format: Format, negative: bool, m: u64, up: u32, down: u32) -> (parts: Parts)
    requires
        format.wf(),
        m < 0x8000_0000_0000_0000,
        up <= 0x1_0000,
        down <= 0x1_0000,
    ensures
        parts.wf(format),
        parts@ == rounded(format, negative, m as nat * pow2(up as nat), pow2(down as nat)),
{
    let p: u32 = format.precision;
    let max_shift: u32 = format.exponents - 2;
    let ghost n: nat = m as nat * pow2(up as nat);
    let ghost d: nat = pow2(down as nat);
    proof {
        lemma_pow2_pos(down as nat);
    }
    if m == 0 {
        proof {
            assert(n == 0) by (nonlinear_arith)
                requires
                    n == m as nat * pow2(up as nat),
                    m == 0,
            ;
            assert(0 * pow2(0) == 0) by (nonlinear_arith);
            lemma_round_zero(p as nat, d);
            lemma_pow2_pos(p as nat);
            lemma_pow2_pos(p as nat + max_shift as nat);
            assert(round_ratio(p as nat, n, d) == 0);
        }
        return Parts::Finite { negative, significand: 0, shift: 0 };
    }
    let length: u32 = bit_length(m);
    let shift: u32 = if length + up <= down + p {
        0
    } else {
        length + up - down - p
    };
    proof {
        lemma_scaled_shift(
            p as nat,
            m as nat,
            length as nat,
            up as nat,
            down as nat,
            shift as nat,
        );
    }
    if shift > max_shift {
        proof {
            let a = pow2((p + shift - 1) as nat);
            let b = pow2((p + max_shift) as nat);
            if p + max_shift < p + shift - 1 {
                lemma_pow2_strictly_increases((p + max_shift) as nat, (p + shift - 1) as nat);
            }
            assert(d * a >= d * b) by (nonlinear_arith)
                requires
                    a >= b,
            ;
            lemma_overflow(p as nat, n, d, max_shift as nat);
        }
        return Parts::Infinite { negative };
    }
    proof {
        lemma_significand(p as nat, n, d, shift as nat);
        lemma_pow2_adds(down as nat, shift as nat);
        lemma_pow2_pos(up as nat);
    }
    if down + shift <= up {
        let k: u32 = up - down - shift;
        proof {
            lemma_pow2_adds((down + shift) as nat, k as nat);
            lemma_pow2_pos((down + shift) as nat);
            let unit = pow2((down + shift) as nat);
            let q = m as nat * pow2(k as nat);
            assert(n == q * unit) by (nonlinear_arith)
                requires
                    n == m as nat * pow2(up as nat),
                    pow2(up as nat) == unit * pow2(k as nat),
                    q == m as nat * pow2(k as nat),
            ;
            lemma_fundamental_div_mod_converse(n as int, unit as int, q as int, 0);
            lemma_pow2_adds(k as nat, length as nat);
            lemma_pow2_strictly_increases(k as nat, 64);
            lemma_pow2_strictly_increases(p as nat, 64);
            lemma2_to64();
        }
        let significand: u64 = m * power_of_two(k);
        rounded_up(format, negative, significand, shift)
    } else {
        let k: u32 = down + shift - up;
        proof {
            lemma_pow2_adds(k as nat, up as nat);
            lemma_pow2_pos(k as nat);
            lemma_quotient_scaled(m as nat, pow2(k as nat), pow2(up as nat));
        }
        let significand: u64 = round_off(m, k);
        rounded_up(format, negative, significand, shift)
    }
}

/// What an encoding without its sign stands for.
pub open spec fn decoded(format: Format, negative: bool, bits: nat) -> Value {
    let leading = pow2((format.precision - 1) as nat);
    let fraction = bits % leading;
    let exponent = bits / leading;
    if exponent >= format.exponents {
        if fraction == 0 {
            Value::Infinite { negative }
        } else {
            Value::Nan
        }
    } else if exponent == 0 {
        Value::Finite { negative, units: fraction }
    } else {
        Value::Finite { negative, units: (leading + fraction) * pow2((exponent - 1) as nat) }
    }
}

/// Takes an encoding without its sign apart.
fn unpack(format: Format, negative: bool, bits: u64) -> (parts: Parts)
    requires
        format.wf(),
    ensures
        parts.wf(format),
        parts@ == decoded(format, negative, bits as nat),
{
    let leading: u64 = power_of_two(format.precision - 1);
    proof {
        lemma2_to64();
        lemma_pow2_pos((format.precision - 1) as nat);
        lemma_pow2_adds((format.precision - 1) as nat, 1);
    }
    let fraction: u64 = bits % leading;
    let exponent: u64 = bits / leading;
    if exponent >= format.exponents as u64 {
        if fraction == 0 {
            Parts::Infinite { negative }
        } else {
            Parts::Nan
        }
    } else if exponent == 0 {
        assert(fraction * pow2(0) == fraction) by (nonlinear_arith)
            requires
                pow2(0) == 1,
        ;
        Parts::Finite { negative, significand: fraction, shift: 0 }
    } else {
        proof {
            lemma_pow2_strictly_increases((format.precision - 1) as nat, 53);
            lemma2_to64_rest();
        }
        Parts::Finite { negative, significand: leading + fraction, shift: (exponent - 1) as u32 }
    }
}

/// The encoding, without its sign, of a number that was taken apart.
fn pack(format: Format, parts: Parts) -> (bits: u64)
    requires
        format.wf(),
        parts.wf(format),
    ensures
        bits < (format.exponents + 1) * pow2((format.precision - 1) as nat),
        (parts matches Parts::Finite { negative, .. } ==> parts@ == decoded(
            format,
            negative,
            bits as nat,
        )),
        (parts matches Parts::Infinite { negative } ==> parts@ == decoded(
            format,
            negative,
            bits as nat,
        )),
        parts is Nan ==> forall|negative: bool|
            decoded(format, negative, bits as nat) == Value::Nan,
{
    let leading: u64 = power_of_two(format.precision - 1);
    proof {
        lemma2_to64();
        lemma2_to64_rest();
        lemma_pow2_pos((format.precision - 1) as nat);
        lemma_pow2_adds((format.precision - 1) as nat, 1);
        if format.precision < 53 {
            lemma_pow2_strictly_increases((format.precision - 1) as nat, 52);
        }
        assert(leading <= 0x10_0000_0000_0000);
        assert(forall|e: u64| e <= 2047 ==> #[trigger] (e * leading) <= 2047 * leading)
            by (nonlinear_arith);
        let e = format.exponents as int;
        let w = leading as int;
        assert((e + 1) * w == e * w + w) by (nonlinear_arith);
        assert(w % 2 == 0 ==> w >= 2);
    }
    let top: u64 = format.exponents as u64 * leading;
    match parts {
        Parts::Nan => {
            proof {
                lemma_pow2_adds((format.precision - 2) as nat, 1);
                lemma_pow2_pos((format.precision - 2) as nat);
                let e = format.exponents as int;
                let w = leading as int;
                lemma_fundamental_div_mod_converse(top + leading / 2, w, e, w / 2);
            }
            top + leading / 2
        },
        Parts::Infinite { negative } => {
            proof {
                lemma_fundamental_div_mod_converse(
                    top as int,
                    leading as int,
                    format.exponents as int,
                    0,
                );
            }
            top
        },
        Parts::Finite { negative, significand, shift } => {
            proof {
                let w = leading as int;
                let s = shift as int;
                let e = format.exponents as int;
                assert(s * w + 2 * w <= e * w) by (nonlinear_arith)
                    requires
                        s + 2 <= e,
                        w > 0,
                ;
                assert((s + 1) * w == s * w + w) by (nonlinear_arith);
                if significand < leading {
                    assert(significand * pow2(0) == significand) by (nonlinear_arith)
                        requires
                            pow2(0) == 1,
                    ;
                    lemma_fundamental_div_mod_converse(
                        significand as int,
                        w,
                        0,
                        significand as int,
                    );
                } else {
                    lemma_fundamental_div_mod_converse(
                        s * w + significand,
                        w,
                        s + 1,
                        significand - w,
                    );
                }
            }
            shift as u64 * leading + significand
        },
    }
}

proof fn lemma_shift_twice(m: nat, a: nat, b: nat)
    ensures
        m * pow2(a + b) == (m * pow2(a)) * pow2(b),
{
    lemma_pow2_adds(a, b);
    assert(m * (pow2(a) * pow2(b)) == (m * pow2(a)) * pow2(b)) by (nonlinear_arith);
}

/// The quotient of two significands that are shifted, where it can be had without numbers of
/// more than 64 bits: where it does not exceed the format before it is rounded, and rounding cuts
/// off some of the 32 bits that the integer quotient has behind it.
fn quick_quotient(
    format: Format,
    negative: bool,
    m: u64,
    up: u32,
    k: u64,
    down: u32,
) -> (parts: Option<Parts>)
    requires
        format.wf(),
        format.precision <= 29,
        0 < m < pow2(format.precision as nat),
        0 < k,
        up <= 0x1_0000,
        down <= 0x1_0000,
    ensures
        ({
            let n = m as nat * pow2(up as nat);
            let d = k as nat * pow2(down as nat);
            let shift = shift_for(format.precision as nat, n, d);
            match parts {
                Some(parts) => {
                    &&& shift <= format.max_shift()
                    &&& up < down + 32 + shift
                    &&& parts.wf(format)
                    &&& parts@ == rounded(format, negative, n, d)
                },
                None => shift > format.max_shift() || up >= down + 32 + shift,
            }
        }),
{
    let p: u32 = format.precision;
    let max_shift: u32 = format.exponents - 2;
    proof {
        lemma2_to64();
        if p < 29 {
            lemma_pow2_strictly_increases(p as nat, 29);
        }
    }
    let a: u64 = m * 0x1_0000_0000;
    let q: u64 = a / k;
    let r: u64 = a % k;
    proof {
        assert(0 <= q <= a && a == q * k + r) by (nonlinear_arith)
            requires
                q == a / k,
                r == a % k,
                k > 0,
        ;
        assert(q == 0 ==> r > 0) by (nonlinear_arith)
            requires
                a == q * k + r,
                a > 0,
        ;
    }
    let sticky: u64 = 2 * q + if r > 0 {
        1
    } else {
        0
    };
    let length: u32 = bit_length(sticky);
    let lower: u32 = down + 32;
    let shift: u32 = if length + up <= lower + 1 + p {
        0
    } else {
        length + up - lower - 1 - p
    };
    let ghost n: nat = m as nat * pow2(up as nat);
    let ghost d: nat = k as nat * pow2(down as nat);
    proof {
        lemma_quick_shift(
            p as nat,
            m as nat,
            up as nat,
            k as nat,
            down as nat,
            q as nat,
            r as nat,
            sticky as nat,
            length as nat,
            shift as nat,
        );
    }
    if lower + shift <= up || shift > max_shift {
        return None;
    }
    let cut: u32 = lower + shift - up;
    proof {
        lemma_quick_quotient(
            m as nat,
            up as nat,
            k as nat,
            down as nat,
            q as nat,
            r as nat,
            sticky as nat,
            shift as nat,
            cut as nat,
        );
        lemma_pow2_pos(down as nat);
        assert(d > 0) by (nonlinear_arith)
            requires
                d == k as nat * pow2(down as nat),
                k > 0,
                pow2(down as nat) > 0,
        ;
        lemma_shift_bounds(p as nat, n, d);
        lemma_significand(p as nat, n, d, shift as nat);
    }
    let significand: u64 = round_off(sticky, cut + 1);
    Some(rounded_up(format, negative, significand, shift))
}

fn parts_quotient(format: Format, a: Parts, b: Parts) -> (parts: Parts)
    requires
        format.wf(),
        format.point <= 2048,
        a.wf(format),
        b.wf(format),
    ensures
        parts.wf(format),
        parts@ == quotient(format, a@, b@),
{
    proof {
        lemma_pow2_pos(format.precision as nat);
        lemma_pow2_pos(0);
    }
    match (a, b) {
        (Parts::Nan, _) => Parts::Nan,
        (_, Parts::Nan) => Parts::Nan,
        (Parts::Infinite { .. }, Parts::Infinite { .. }) => Parts::Nan,
        (Parts::Infinite { negative: x }, Parts::Finite { negative: y, .. }) => {
            Parts::Infinite { negative: x != y }
        },
        (Parts::Finite { negative: x, .. }, Parts::Infinite { negative: y }) => {
            assert(0 * pow2(0) == 0) by (nonlinear_arith);
            Parts::Finite { negative: x != y, significand: 0, shift: 0 }
        },
        (
            Parts::Finite { negative: x, significand: m, shift: s },
            Parts::Finite { negative: y, significand: k, shift: t },
        ) => {
            proof {
                lemma_pow2_pos(s as nat);
                lemma_pow2_pos(t as nat);
                assert(m * pow2(s as nat) == 0 <==> m == 0) by (nonlinear_arith)
                    requires
                        pow2(s as nat) > 0,
                ;
                assert(k * pow2(t as nat) == 0 <==> k == 0) by (nonlinear_arith)
                    requires
                        pow2(t as nat) > 0,
                ;
                lemma_shift_twice(m as nat, s as nat, format.point as nat);
            }
            if k == 0 {
                if m == 0 {
                    Parts::Nan
                } else {
                    Parts::Infinite { negative: x != y }
                }
            } else {
                if format.precision <= 29 && m > 0 {
                    match quick_quotient(format, x != y, m, s + format.point, k, t) {
                        Some(parts) => {
                            return parts;
                        },
                        None => {},
                    }
                }
                let n = Natural::from_u64(m).shifted(s + format.point);
                let d = Natural::from_u64(k).shifted(t);
                round_parts(format, x != y, &n, &d)
            }
        },
    }
}

fn parts_product(format: Format, a: Parts, b: Parts) -> (parts: Parts)
    requires
        format.wf(),
        format.precision <= 31,
        format.point <= 0x1_0000,
        a.wf(format),
        b.wf(format),
    ensures
        parts.wf(format),
        parts@ == product(format, a@, b@),
{
    match (a, b) {
        (Parts::Nan, _) => Parts::Nan,
        (_, Parts::Nan) => Parts::Nan,
        (Parts::Infinite { negative: x }, Parts::Infinite { negative: y }) => {
            Parts::Infinite { negative: x != y }
        },
        (
            Parts::Infinite { negative: x },
            Parts::Finite { negative: y, significand: k, shift: t },
        ) => {
            proof {
                lemma_pow2_pos(t as nat);
                assert(k * pow2(t as nat) == 0 <==> k == 0) by (nonlinear_arith)
                    requires
                        pow2(t as nat) > 0,
                ;
            }
            if k == 0 {
                Parts::Nan
            } else {
                Parts::Infinite { negative: x != y }
            }
        },
        (
            Parts::Finite { negative: x, significand: m, shift: s },
            Parts::Infinite { negative: y },
        ) => {
            proof {
                lemma_pow2_pos(s as nat);
                assert(m * pow2(s as nat) == 0 <==> m == 0) by (nonlinear_arith)
                    requires
                        pow2(s as nat) > 0,
                ;
            }
            if m == 0 {
                Parts::Nan
            } else {
                Parts::Infinite { negative: x != y }
            }
        },
        (
            Parts::Finite { negative: x, significand: m, shift: s },
            Parts::Finite { negative: y, significand: k, shift: t },
        ) => {
            proof {
                lemma2_to64();
                if format.precision < 31 {
                    lemma_pow2_strictly_increases(format.precision as nat, 31);
                }
                assert(0 <= m * k <= 0x7fff_ffff * 0x7fff_ffff) by (nonlinear_arith)
                    requires
                        0 <= m <= 0x7fff_ffff,
                        0 <= k <= 0x7fff_ffff,
                ;
                let p = pow2(s as nat);
                let q = pow2(t as nat);
                lemma_pow2_adds(s as nat, t as nat);
                assert((m * k) * (p * q) == (m * p) * (k * q)) by (nonlinear_arith);
            }
            round_shifted(format, x != y, m * k, s + t, format.point)
        },
    }
}

fn parts_sum(format: Format, a: Parts, b: Parts) -> (parts: Parts)
    requires
        format.wf(),
        a.wf(format),
        b.wf(format),
    ensures
        parts.wf(format),
        parts@ == sum(format, a@, b@),
{
    proof {
        lemma_pow2_pos(format.precision as nat);
        lemma_pow2_pos(0);
    }
    match (a, b) {
        (Parts::Nan, _) => Parts::Nan,
        (_, Parts::Nan) => Parts::Nan,
        (Parts::Infinite { negative: x }, Parts::Infinite { negative: y }) => if x == y {
            a
        } else {
            Parts::Nan
        },
        (Parts::Infinite { .. }, Parts::Finite { .. }) => a,
        (Parts::Finite { .. }, Parts::Infinite { .. }) => b,
        (
            Parts::Finite { negative: x, significand: m, shift: s },
            Parts::Finite { negative: y, significand: k, shift: t },
        ) => {
            let u = Natural::from_u64(m).shifted(s);
            let v = Natural::from_u64(k).shifted(t);
            let one = Natural::from_u64(1);
            let zero = Natural::from_u64(0);
            if x == y {
                let total = u.plus(&v);
                if zero.less_than(&total) {
                    round_parts(format, x, &total, &one)
                } else {
                    assert(0 * pow2(0) == 0) by (nonlinear_arith);
                    Parts::Finite { negative: x, significand: 0, shift: 0 }
                }
            } else if v.less_than(&u) {
                round_parts(format, x, &u.minus(&v), &one)
            } else if u.less_than(&v) {
                round_parts(format, y, &v.minus(&u), &one)
            } else {
                assert(0 * pow2(0) == 0) by (nonlinear_arith);
                Parts::Finite { negative: false, significand: 0, shift: 0 }
            }
        },
    }
}

fn parts_less(a: Parts, b: Parts) -> (lesser: bool)
    ensures
        lesser == less(a@, b@),
{
    match (a, b) {
        (Parts::Nan, _) => false,
        (_, Parts::Nan) => false,
        (Parts::Infinite { negative: x }, Parts::Infinite { negative: y }) => x && !y,
        (Parts::Infinite { negative: x }, Parts::Finite { .. }) => x,
        (Parts::Finite { .. }, Parts::Infinite { negative: y }) => !y,
        (
            Parts::Finite { negative: x, significand: m, shift: s },
            Parts::Finite { negative: y, significand: k, shift: t },
        ) => {
            let u = Natural::from_u64(m).shifted(s);
            let v = Natural::from_u64(k).shifted(t);
            if x && y {
                v.less_than(&u)
            } else if x {
                proof {
                    lemma_pow2_pos(s as nat);
                    lemma_pow2_pos(t as nat);
                    assert(m * pow2(s as nat) == 0 <==> m == 0) by (nonlinear_arith)
                        requires
                            pow2(s as nat) > 0,
                    ;
                    assert(k * pow2(t as nat) == 0 <==> k == 0) by (nonlinear_arith)
                        requires
                            pow2(t as nat) > 0,
                    ;
                }
                m > 0 || k > 0
            } else if y {
                false
            } else {
                u.less_than(&v)
            }
        },
    }
}

/// Whole parts are told apart only below this bound, which no integer they are cast to reaches.
pub const WHOLE_CAP: u64 = 0x1_0000_0000;

/// The whole part of `significand * 2^shift` units, and whether the rest is at least a half.
fn whole_part(significand: u64, shift: u32, point: u32) -> (result: (u64, bool))
    requires
        significand < pow2(53),
        1 <= point <= 2048,
        shift <= 2048,
    ensures
        ({
            let units = (significand * pow2(shift as nat)) as nat;
            let one = pow2(point as nat);
            &&& units / one < WHOLE_CAP ==> result.0 == units / one && result.1 == (2 * (units
                % one) >= one)
            &&& units / one >= WHOLE_CAP ==> result.0 >= WHOLE_CAP
        }),
{
    let ghost units = (significand * pow2(shift as nat)) as nat;
    let ghost one = pow2(point as nat);
    proof {
        lemma2_to64();
        lemma2_to64_rest();
        lemma_pow2_pos(point as nat);
        lemma_pow2_pos(shift as nat);
    }
    if shift >= point {
        let mut whole: u64 = significand;
        let mut left: u32 = shift - point;
        proof {
            lemma_shift_twice(significand as nat, left as nat, point as nat);
            lemma_pow2_pos(left as nat);
            let w = significand * pow2(left as nat);
            lemma_fundamental_div_mod_converse(units as int, one as int, w, 0);
        }
        while left > 0 && whole < WHOLE_CAP
            invariant
                whole * pow2(left as nat) == units / one,
                whole < 0x20_0000_0000_0000,
            decreases left,
        {
            proof {
                lemma2_to64();
                lemma_pow2_adds((left - 1) as nat, 1);
                let p = pow2((left - 1) as nat);
                assert((2 * whole) * p == whole * (p * 2)) by (nonlinear_arith);
            }
            whole = 2 * whole;
            left = left - 1;
        }
        proof {
            lemma2_to64();
            lemma_pow2_pos(left as nat);
            assert(whole * pow2(left as nat) >= whole) by (nonlinear_arith)
                requires
                    pow2(left as nat) >= 1,
            ;
            if left == 0 {
                assert(whole * pow2(left as nat) == whole) by (nonlinear_arith)
                    requires
                        pow2(left as nat) == 1,
                ;
            }
        }
        (whole, false)
    } else {
        let k: u32 = point - shift;
        proof {
            lemma_pow2_adds(k as nat, shift as nat);
            lemma_pow2_pos(k as nat);
            lemma_cancel(significand as nat, pow2(k as nat), pow2(shift as nat));
        }
        if k >= 55 {
            proof {
                if k > 55 {
                    lemma_pow2_strictly_increases(55, k as nat);
                }
                lemma_fundamental_div_mod_converse(
                    significand as int,
                    pow2(k as nat) as int,
                    0,
                    significand as int,
                );
            }
            (0, false)
        } else {
            let step: u64 = power_of_two(k);
            proof {
                lemma_pow2_strictly_increases(k as nat, 63);
            }
            (significand / step, 2 * (significand % step) >= step)
        }
    }
}

proof fn lemma_cancel(m: nat, d: nat, c: nat)
    requires
        d > 0,
        c > 0,
    ensures
        (m * c) / (d * c) == m / d,
        2 * ((m * c) % (d * c)) >= d * c <==> 2 * (m % d) >= d,
        (m * c) % (d * c) == 0 <==> m % d == 0,
{
    let q = m / d;
    let r = m % d;
    lemma_fundamental_div_mod(m as int, d as int);
    assert(d * c > 0) by (nonlinear_arith)
        requires
            d > 0,
            c > 0,
    ;
    assert(m * c == q * (d * c) + r * c) by (nonlinear_arith)
        requires
            m == d * q + r,
    ;
    assert(0 <= r * c < d * c) by (nonlinear_arith)
        requires
            0 <= r < d,
            c > 0,
    ;
    lemma_fundamental_div_mod_converse(
        (m * c) as int,
        (d * c) as int,
        q as int,
        (r * c) as int,
    );
    assert(2 * (r * c) >= d * c <==> 2 * r >= d) by (nonlinear_arith)
        requires
            c > 0,
    ;
    assert(r * c == 0 <==> r == 0) by (nonlinear_arith)
        requires
            c > 0,
    ;
}

/// The integer part of a magnitude in single-precision units.
pub open spec fn whole_single(units: nat) -> nat {
    units / pow2(149)
}

/// The integer nearest to a magnitude in single-precision units, with ties going up.
pub open spec fn nearest_single(units: nat) -> nat {
    if 2 * (units % pow2(149)) >= pow2(149) {
        units / pow2(149) + 1
    } else {
        units / pow2(149)
    }
}

/// A number cast to `u32`: cut off at the decimal point, and held within the range.
pub open spec fn cast_u32(value: Value) -> u32 {
    match value {
        Value::Nan => 0,
        Value::Infinite { negative } => if negative {
            0
        } else {
            u32::MAX
        },
        Value::Finite { negative, units } => if negative {
            0
        } else if whole_single(units) > u32::MAX {
            u32::MAX
        } else {
            whole_single(units) as u32
        },
    }
}

/// A number rounded to the nearest integer, halves going away from zero, and cast to `u32`.
pub open spec fn rounded_u32(value: Value) -> u32 {
    match value {
        Value::Nan => 0,
        Value::Infinite { negative } => if negative {
            0
        } else {
            u32::MAX
        },
        Value::Finite { negative, units } => if negative {
            0
        } else if nearest_single(units) > u32::MAX {
            u32::MAX
        } else {
            nearest_single(units) as u32
        },
    }
}

/// A number cast to `i16`: cut off at the decimal point, and held within the range.
pub open spec fn cast_i16(value: Value) -> i16 {
    match value {
        Value::Nan => 0,
        Value::Infinite { negative } => if negative {
            i16::MIN
        } else {
            i16::MAX
        },
        Value::Finite { negative, units } => {
            let whole = signed(negative, whole_single(units));
            if whole < i16::MIN {
                i16::MIN
            } else if whole > i16::MAX {
                i16::MAX
            } else {
                whole as i16
            }
        },
    }
}

/// The number of a format nearest to the integer `n`.
pub open spec fn of_int(format: Format, n: int) -> Value {
    if n < 0 {
        rounded(format, true, (-n) as nat * pow2(format.point as nat), 1)
    } else {
        of_nat(format, n as nat)
    }
}

/// A single-precision number as a double-precision one.
pub open spec fn widened(value: Value) -> Value {
    match value {
        Value::Finite { negative, units } => Value::Finite { negative, units: units * pow2(925) },
        _ => value,
    }
}

/// A single-precision number, by its IEEE 754 encoding.
#[derive(Debug, Clone, Copy, PartialEq, Eq, Structural)]
pub struct Float32 {
    pub bits: u32,
}

impl View for Float32 {
    type V = Value;

    open spec fn view(&self) -> Value {
        decoded(single(), self.bits >= 0x8000_0000, (self.bits % 0x8000_0000) as nat)
    }
}

/// A double-precision number rounded to tenths.
pub enum Tenths {
    Nan,
    Infinite { negative: bool },
    Finite { negative: bool, tenths: Natural },
}

/// A magnitude in double-precision units as a number of tenths, with ties going to the even one.
pub open spec fn nearest_tenths(units: nat) -> nat {
    nearest_even(10 * units, pow2(1074))
}

/// A magnitude in double-precision units as a whole number, cut off or rounded up.
pub open spec fn whole_double(units: nat, up: bool) -> nat {
    units / pow2(1074) + if up && units % pow2(1074) != 0 {
        1nat
    } else {
        0nat
    }
}

/// The smallest whole number that is not less than a double-precision one.
pub open spec fn ceiling(value: Value) -> Value {
    match value {
        Value::Finite { negative, units } => Value::Finite {
            negative,
            units: whole_double(units, !negative) * pow2(1074),
        },
        _ => value,
    }
}

/// Rounded up, a finite number is a whole one that is not less and is less than one greater.
pub proof fn law_ceiling_is_the_next_whole_number(negative: bool, units: nat)
    ensures
        ceiling(Value::Finite { negative, units }) matches Value::Finite {
            negative: sign,
            units: whole,
        } && sign == negative && whole % pow2(1074) == 0 && signed(negative, units) <= signed(
            negative,
            whole,
        ) < signed(negative, units) + pow2(1074),
{
    let one = pow2(1074);
    let count = whole_double(units, !negative);
    let q = units / one;
    lemma_pow2_pos(1074);
    lemma_fundamental_div_mod(units as int, one as int);
    assert(one * q == q * one) by (nonlinear_arith);
    assert((q + 1) * one == q * one + one) by (nonlinear_arith);
    lemma_fundamental_div_mod_converse((count * one) as int, one as int, count as int, 0);
}

/// A double-precision number, by its IEEE 754 encoding.
#[derive(Debug, Clone, Copy, PartialEq, Eq, Structural)]
pub struct Float64 {
    pub bits: u64,
}

impl View for Float64 {
    type V = Value;

    open spec fn view(&self) -> Value {
        decoded(
            double(),
            self.bits >= 0x8000_0000_0000_0000,
            (self.bits % 0x8000_0000_0000_0000) as nat,
        )
    }
}

impl Float32 {
    fn parts(&self) -> (parts: Parts)
        ensures
            parts.wf(single()),
            parts@ == self@,
    {
        unpack(Format::single(), self.bits >= 0x8000_0000, (self.bits % 0x8000_0000) as u64)
    }

    fn from_parts(parts: Parts) -> (number: Float32)
        requires
            parts.wf(single()),
        ensures
            number@ == parts@,
    {
        let packed: u64 = pack(Format::single(), parts);
        proof {
            lemma2_to64();
            assert(pow2(23) == 0x80_0000);
            assert(packed < 0x8000_0000);
            assert((packed + 0x8000_0000) % 0x8000_0000 == packed);
        }
        let bits: u32 = packed as u32;
        let negative: bool = match parts {
            Parts::Nan => false,
            Parts::Infinite { negative } => negative,
            Parts::Finite { negative, .. } => negative,
        };
        if negative {
            Float32 { bits: bits + 0x8000_0000 }
        } else {
            Float32 { bits }
        }
    }

    /// An infinity.
    pub fn infinite(negative: bool) -> (number: Float32)
        ensures
            number@ == (Value::Infinite { negative }),
    {
        Float32::from_parts(Parts::Infinite { negative })
    }

    /// What is not a number.
    pub fn nan() -> (number: Float32)
        ensures
            number@ == Value::Nan,
    {
        Float32::from_parts(Parts::Nan)
    }

    /// The number nearest to `n / d` units.
    pub fn from_ratio(negative: bool, n: &Natural, d: &Natural) -> (number: Float32)
        requires
            d@ > 0,
        ensures
            number@ == rounded(single(), negative, n@, d@),
    {
        Float32::from_parts(round_parts(Format::single(), negative, n, d))
    }

    /// The number nearest to an integer.
    pub fn from_u32(n: u32) -> (number: Float32)
        ensures
            number@ == of_nat(single(), n as nat),
    {
        proof {
            lemma2_to64();
        }
        Float32::from_parts(round_shifted(Format::single(), false, n as u64, 149, 0))
    }

    /// The number nearest to a signed integer.
    pub fn from_i16(n: i16) -> (number: Float32)
        ensures
            number@ == of_int(single(), n as int),
    {
        let magnitude: u64 = if n < 0 {
            (-(n as i64)) as u64
        } else {
            n as u64
        };
        proof {
            lemma2_to64();
        }
        Float32::from_parts(round_shifted(Format::single(), n < 0, magnitude, 149, 0))
    }

    /// `self / divisor`.
    pub fn divided_by(&self, divisor: &Float32) -> (number: Float32)
        ensures
            number@ == quotient(single(), self@, divisor@),
    {
        Float32::from_parts(parts_quotient(Format::single(), self.parts(), divisor.parts()))
    }

    /// `self * factor`.
    pub fn times(&self, factor: &Float32) -> (number: Float32)
        ensures
            number@ == product(single(), self@, factor@),
    {
        Float32::from_parts(parts_product(Format::single(), self.parts(), factor.parts()))
    }

    /// Whether this is a zero of either sign.
    pub fn is_zero(&self) -> (zero: bool)
        ensures
            zero == is_zero(self@),
    {
        match self.parts() {
            Parts::Finite { significand, shift, .. } => {
                proof {
                    lemma_pow2_pos(shift as nat);
                    assert(significand * pow2(shift as nat) == 0 <==> significand == 0)
                        by (nonlinear_arith)
                        requires
                            pow2(shift as nat) > 0,
                    ;
                }
                significand == 0
            },
            _ => false,
        }
    }

    /// Whether `self < other`.
    pub fn less_than(&self, other: &Float32) -> (lesser: bool)
        ensures
            lesser == less(self@, other@),
    {
        parts_less(self.parts(), other.parts())
    }

    /// The cast to `u32`.
    pub fn to_u32(&self) -> (n: u32)
        ensures
            n == cast_u32(self@),
    {
        match self.parts() {
            Parts::Nan => 0,
            Parts::Infinite { negative } => if negative {
                0
            } else {
                u32::MAX
            },
            Parts::Finite { negative, significand, shift } => if negative {
                0
            } else {
                proof {
                    lemma2_to64();
                    lemma2_to64_rest();
                }
                let whole: u64 = whole_part(significand, shift, 149).0;
                if whole > u32::MAX as u64 {
                    u32::MAX
                } else {
                    whole as u32
                }
            },
        }
    }

    /// The nearest integer, halves going away from zero, cast to `u32`.
    pub fn round_to_u32(&self) -> (n: u32)
        ensures
            n == rounded_u32(self@),
    {
        match self.parts() {
            Parts::Nan => 0,
            Parts::Infinite { negative } => if negative {
                0
            } else {
                u32::MAX
            },
            Parts::Finite { negative, significand, shift } => if negative {
                0
            } else {
                proof {
                    lemma2_to64();
                    lemma2_to64_rest();
                }
                let (whole, half) = whole_part(significand, shift, 149);
                if whole >= u32::MAX as u64 {
                    u32::MAX
                } else if half {
                    (whole + 1) as u32
                } else {
                    whole as u32
                }
            },
        }
    }

    /// The cast to `i16`.
    pub fn to_i16(&self) -> (n: i16)
        ensures
            n == cast_i16(self@),
    {
        match self.parts() {
            Parts::Nan => 0,
            Parts::Infinite { negative } => if negative {
                i16::MIN
            } else {
                i16::MAX
            },
            Parts::Finite { negative, significand, shift } => {
                proof {
                    lemma2_to64();
                    lemma2_to64_rest();
                }
                let whole: u64 = whole_part(significand, shift, 149).0;
                if negative {
                    if whole >= 32768 {
                        i16::MIN
                    } else {
                        (-(whole as i32)) as i16
                    }
                } else if whole > 32767 {
                    i16::MAX
                } else {
                    whole as i16
                }
            },
        }
    }

    /// The same number in double precision.
    pub fn widen(&self) -> (number: Float64)
        ensures
            number@ == widened(self@),
    {
        let parts = self.parts();
        match parts {
            Parts::Finite { negative, significand, shift } => {
                proof {
                    lemma2_to64();
                    lemma_shift_twice(significand as nat, shift as nat, 925);
                    lemma_pow2_strictly_increases(24, 53);
                    lemma_round_exact(53, significand as nat, (shift + 925) as nat);
                    lemma_below_limit(53, significand as nat, (shift + 925) as nat, 2045);
                }
                Float64::from_parts(
                    round_shifted(Format::double(), negative, significand, shift + 925, 0),
                )
            },
            _ => Float64::from_parts(parts),
        }
    }
}

impl Float64 {
    fn parts(&self) -> (parts: Parts)
        ensures
            parts.wf(double()),
            parts@ == self@,
    {
        unpack(
            Format::double(),
            self.bits >= 0x8000_0000_0000_0000,
            self.bits % 0x8000_0000_0000_0000,
        )
    }

    fn from_parts(parts: Parts) -> (number: Float64)
        requires
            parts.wf(double()),
        ensures
            number@ == parts@,
    {
        let bits: u64 = pack(Format::double(), parts);
        let negative: bool = match parts {
            Parts::Nan => false,
            Parts::Infinite { negative } => negative,
            Parts::Finite { negative, .. } => negative,
        };
        proof {
            lemma2_to64_rest();
            assert(pow2(52) == 0x10_0000_0000_0000);
            assert(bits < 0x8000_0000_0000_0000);
            assert((bits + 0x8000_0000_0000_0000) % 0x8000_0000_0000_0000 == bits);
        }
        if negative {
            Float64 { bits: bits + 0x8000_0000_0000_0000 }
        } else {
            Float64 { bits }
        }
    }

    /// The number nearest to an integer.
    pub fn from_u32(n: u32) -> (number: Float64)
        ensures
            number@ == of_nat(double(), n as nat),
    {
        proof {
            lemma2_to64();
        }
        Float64::from_parts(round_shifted(Format::double(), false, n as u64, 1074, 0))
    }

    /// This number rounded to tenths.
    pub fn to_tenths(&self) -> (result: Tenths)
        ensures
            match (self@, result) {
                (Value::Nan, Tenths::Nan) => true,
                (Value::Infinite { negative: a }, Tenths::Infinite { negative: b }) => a == b,
                (
                    Value::Finite { negative: a, units },
                    Tenths::Finite { negative: b, tenths },
                ) => a == b && tenths@ == nearest_tenths(units),
                _ => false,
            },
    {
        match self.parts() {
            Parts::Nan => Tenths::Nan,
            Parts::Infinite { negative } => Tenths::Infinite { negative },
            Parts::Finite { negative, significand, shift } => {
                let units = Natural::from_u64(significand).shifted(shift);
                let one = Natural::from_u64(1).shifted(1074);
                proof {
                    lemma_pow2_pos(1074);
                }
                let (whole, rest) = units.mul_add(10, 0).div_rem(&one);
                let twice = rest.double();
                let (_, odd) = whole.div_rem(&Natural::from_u64(2));
                let is_odd: bool = Natural::from_u64(0).less_than(&odd);
                let tenths = if twice.less_than(&one) || (!one.less_than(&twice) && !is_odd) {
                    whole
                } else {
                    whole.mul_add(1, 1)
                };
                Tenths::Finite { negative, tenths }
            },
        }
    }

    /// This number rounded up to a whole one.
    pub fn ceil(&self) -> (number: Float64)
        ensures
            number@ == ceiling(self@),
    {
        match self.parts() {
            Parts::Finite { negative, significand, shift } => {
                let ghost units = (significand * pow2(shift as nat)) as nat;
                proof {
                    lemma2_to64();
                    lemma2_to64_rest();
                    lemma_pow2_pos(1074);
                    lemma_pow2_pos(shift as nat);
                }
                if shift >= 1074 {
                    proof {
                        let left = (shift - 1074) as nat;
                        lemma_shift_twice(significand as nat, left, 1074);
                        lemma_pow2_pos(left);
                        lemma_fundamental_div_mod_converse(
                            units as int,
                            pow2(1074) as int,
                            significand * pow2(left),
                            0,
                        );
                    }
                    *self
                } else {
                    let k: u32 = 1074 - shift;
                    proof {
                        lemma_pow2_adds(k as nat, shift as nat);
                        lemma_pow2_pos(k as nat);
                        lemma_cancel(significand as nat, pow2(k as nat), pow2(shift as nat));
                    }
                    let (floor, rest): (u64, u64) = if k >= 54 {
                        proof {
                            if k > 54 {
                                lemma_pow2_strictly_increases(54, k as nat);
                            }
                            lemma_fundamental_div_mod_converse(
                                significand as int,
                                pow2(k as nat) as int,
                                0,
                                significand as int,
                            );
                        }
                        (0, significand)
                    } else {
                        let step: u64 = power_of_two(k);
                        proof {
                            lemma_pow2_strictly_increases(0, k as nat);
                            lemma_fundamental_div_mod(significand as int, step as int);
                            let q = significand as nat / step as nat;
                            assert(2 * q <= step * q) by (nonlinear_arith)
                                requires
                                    step >= 2,
                                    q >= 0,
                            ;
                        }
                        (significand / step, significand % step)
                    };
                    let whole: u64 = if !negative && rest != 0 {
                        floor + 1
                    } else {
                        floor
                    };
                    proof {
                        assert(whole == whole_double(units, !negative));
                        lemma_round_exact(53, whole as nat, 1074);
                        lemma_pow2_adds(53, 1074);
                        assert(whole as nat * pow2(1074) <= pow2(1127)) by (nonlinear_arith)
                            requires
                                whole <= pow2(53),
                                pow2(1127) == pow2(53) * pow2(1074),
                        ;
                        lemma_pow2_strictly_increases(1127, 2098);
                    }
                    Float64::from_parts(round_shifted(Format::double(), negative, whole, 1074, 0))
                }
            },
            _ => *self,
        }
    }

    /// `self / divisor`.
    pub fn divided_by(&self, divisor: &Float64) -> (number: Float64)
        ensures
            number@ == quotient(double(), self@, divisor@),
    {
        Float64::from_parts(parts_quotient(Format::double(), self.parts(), divisor.parts()))
    }

    /// `self + other`.
    pub fn plus(&self, other: &Float64) -> (number: Float64)
        ensures
            number@ == sum(double(), self@, other@),
    {
        Float64::from_parts(parts_sum(Format::double(), self.parts(), other.parts()))
    }

    /// Whether `self < other`.
    pub fn less_than(&self, other: &Float64) -> (lesser: bool)
        ensures
            lesser == less(self@, other@),
    {
        parts_less(self.parts(), other.parts())
    }
}

/// Small natural numbers are single-precision numbers.
pub proof fn lemma_small_single(n: nat)
    requires
        n <= pow2(24),
    ensures
        of_nat(single(), n) == (Value::Finite { negative: false, units: n * pow2(149) }),
{
    lemma_round_exact(24, n, 149);
    lemma2_to64();
    lemma_pow2_pos(149);
    lemma_pow2_adds(24, 149);
    assert(n * pow2(149) <= pow2(173)) by (nonlinear_arith)
        requires
            n <= pow2(24),
            pow2(173) == pow2(24) * pow2(149),
    ;
    assert(n * pow2(149) == (n * pow2(149)) * 1);
    lemma_pow2_strictly_increases(173, 277);
}

/// The product of small natural numbers is rounded once.
pub proof fn lemma_small_product(a: nat, b: nat)
    requires
        a <= pow2(24),
        b <= pow2(24),
    ensures
        product(single(), of_nat(single(), a), of_nat(single(), b)) == rounded(
            single(),
            false,
            (a * b) * pow2(149),
            1,
        ),
{
    lemma_small_single(a);
    lemma_small_single(b);
    lemma_pow2_pos(149);
    let w = pow2(149);
    lemma_round_cancel(24, (a * b) * w, 1, w);
    assert((a * w) * (b * w) == ((a * b) * w) * w) by (nonlinear_arith);
}

} // verus!
