//! Rounding of ratios to a number of significant bits.

use vstd::arithmetic::div_mod::{lemma_fundamental_div_mod, lemma_fundamental_div_mod_converse};
use vstd::arithmetic::power2::{
    lemma2_to64, lemma_pow2_adds, lemma_pow2_pos, lemma_pow2_strictly_increases, pow2,
};
use vstd::prelude::*;

verus! {

/// `n / d` rounded to an integer, with ties going to the even one.
pub open spec fn nearest_even(n: nat, d: nat) -> nat {
    let q = n / d;
    let r = n % d;
    if 2 * r < d || (2 * r == d && q % 2 == 0) {
        q
    } else {
        q + 1
    }
}

/// The least `s` for which `n / (d * 2^s)` is below `2^p`.
pub open spec fn shift_for(p: nat, n: nat, d: nat) -> nat
    decreases n - d,
{
    if p == 0 || d == 0 || n < d * pow2(p) {
        0
    } else {
        proof {
            lemma2_to64();
            lemma_pow2_adds((p - 1) as nat, 1);
            lemma_pow2_pos((p - 1) as nat);
            assert(d * pow2(p) >= 2 * d) by (nonlinear_arith)
                requires
                    pow2(p) >= 2,
            ;
        }
        1 + shift_for(p, n, 2 * d)
    }
}

/// `n / d` rounded to `p` significant bits, but to no finer than a whole number.
pub open spec fn round_ratio(p: nat, n: nat, d: nat) -> nat {
    let s = shift_for(p, n, d);
    nearest_even(n, d * pow2(s)) * pow2(s)
}

/// A shift is the least one where the ratio fits with it, and would not with one less.
pub proof fn lemma_shift_for(p: nat, n: nat, d: nat, s: nat)
    requires
        p > 0,
        d > 0,
        n < d * pow2(p + s),
        s == 0 || n >= d * pow2((p + s - 1) as nat),
    ensures
        shift_for(p, n, d) == s,
    decreases s,
{
    if s > 0 {
        lemma2_to64();
        let lower = pow2((p + s - 1) as nat);
        if s > 1 {
            lemma_pow2_strictly_increases(p, (p + s - 1) as nat);
        }
        assert(d * lower >= d * pow2(p)) by (nonlinear_arith)
            requires
                lower >= pow2(p),
        ;
        lemma_pow2_adds((p + s - 1) as nat, 1);
        assert(d * (lower * 2) == (2 * d) * lower) by (nonlinear_arith);
        if s > 1 {
            let lowest = pow2((p + s - 2) as nat);
            lemma_pow2_adds((p + s - 2) as nat, 1);
            assert(d * (lowest * 2) == (2 * d) * lowest) by (nonlinear_arith);
        }
        lemma_shift_for(p, n, 2 * d, (s - 1) as nat);
    }
}

/// With its shift a ratio fits, and with one less it would not.
pub proof fn lemma_shift_bounds(p: nat, n: nat, d: nat)
    requires
        p > 0,
        d > 0,
    ensures
        n < d * pow2(p + shift_for(p, n, d)),
        shift_for(p, n, d) == 0 || n >= d * pow2((p + shift_for(p, n, d) - 1) as nat),
    decreases n - d,
{
    if n >= d * pow2(p) {
        lemma2_to64();
        lemma_pow2_adds((p - 1) as nat, 1);
        lemma_pow2_pos((p - 1) as nat);
        assert(d * pow2(p) >= 2 * d) by (nonlinear_arith)
            requires
                pow2(p) >= 2,
        ;
        lemma_shift_bounds(p, n, 2 * d);
        let s = shift_for(p, n, 2 * d);
        lemma_pow2_adds(p + s, 1);
        assert(d * (pow2(p + s) * 2) == (2 * d) * pow2(p + s)) by (nonlinear_arith);
        if s > 0 {
            let lower = pow2((p + s - 1) as nat);
            lemma_pow2_adds((p + s - 1) as nat, 1);
            assert(d * (lower * 2) == (2 * d) * lower) by (nonlinear_arith);
        }
    }
}

/// A ratio that reaches the bound of a format is rounded to no less than that bound.
pub proof fn lemma_overflow(p: nat, n: nat, d: nat, max_shift: nat)
    requires
        p > 0,
        d > 0,
        n >= d * pow2(p + max_shift),
    ensures
        round_ratio(p, n, d) >= pow2(p + max_shift),
{
    let s = shift_for(p, n, d);
    lemma_shift_bounds(p, n, d);
    lemma_pow2_pos(s);
    lemma_pow2_pos(p);
    if s <= max_shift {
        if s < max_shift {
            lemma_pow2_strictly_increases(p + s, p + max_shift);
        }
        assert(d * pow2(p + max_shift) >= d * pow2(p + s)) by (nonlinear_arith)
            requires
                pow2(p + max_shift) >= pow2(p + s),
        ;
        assert(false);
    }
    let half = pow2((p - 1) as nat);
    lemma_pow2_adds((p - 1) as nat, s);
    let unit = d * pow2(s);
    assert(d * (half * pow2(s)) == half * unit) by (nonlinear_arith)
        requires
            unit == d * pow2(s),
    ;
    assert(unit > 0) by (nonlinear_arith)
        requires
            unit == d * pow2(s),
            d > 0,
            pow2(s) > 0,
    ;
    assert(n / unit >= half) by (nonlinear_arith)
        requires
            n >= half * unit,
            unit > 0,
    ;
    let q = nearest_even(n, unit);
    assert(q * pow2(s) >= half * pow2(s)) by (nonlinear_arith)
        requires
            q >= half,
    ;
    if p + max_shift < (p - 1) + s {
        lemma_pow2_strictly_increases(p + max_shift, ((p - 1) + s) as nat);
    }
}

/// The significand of a rounded ratio is in range.
pub proof fn lemma_significand(p: nat, n: nat, d: nat, shift: nat)
    requires
        p > 0,
        d > 0,
        n < d * pow2(p + shift),
        shift == 0 || n >= d * pow2((p + shift - 1) as nat),
    ensures
        nearest_even(n, d * pow2(shift)) <= pow2(p),
        shift == 0 || nearest_even(n, d * pow2(shift)) >= pow2((p - 1) as nat),
{
    lemma_pow2_pos(shift);
    lemma_pow2_adds(shift, p);
    let unit = d * pow2(shift);
    let top = pow2(p);
    assert(unit > 0) by (nonlinear_arith)
        requires
            unit == d * pow2(shift),
            d > 0,
            pow2(shift) > 0,
    ;
    assert(n < unit * top) by (nonlinear_arith)
        requires
            n < d * pow2(p + shift),
            pow2(p + shift) == pow2(shift) * top,
            unit == d * pow2(shift),
    ;
    assert(n / unit < top) by (nonlinear_arith)
        requires
            n < unit * top,
            unit > 0,
    ;
    if shift > 0 {
        let half = pow2((p - 1) as nat);
        lemma_pow2_adds(shift, (p - 1) as nat);
        assert(n >= unit * half) by (nonlinear_arith)
            requires
                n >= d * pow2((p + shift - 1) as nat),
                pow2((p + shift - 1) as nat) == pow2(shift) * half,
                unit == d * pow2(shift),
        ;
        assert(n / unit >= half) by (nonlinear_arith)
            requires
                n >= unit * half,
                unit > 0,
        ;
    }
}

/// A ratio of numbers of so many bits does not fit with one shift less than this one.
pub proof fn lemma_first_shift(n: nat, d: nat, a: nat, b: nat, p: nat, shift: nat)
    requires
        0 < a,
        shift > 0,
        pow2((a - 1) as nat) <= n,
        d < pow2(b),
        b + p + shift <= a,
    ensures
        n >= d * pow2((p + shift - 1) as nat),
{
    let e = (p + shift - 1) as nat;
    lemma_pow2_adds(b, e);
    lemma_pow2_pos(e);
    assert(d * pow2(e) <= pow2(b) * pow2(e)) by (nonlinear_arith)
        requires
            d <= pow2(b),
    ;
    if b + e < a - 1 {
        lemma_pow2_strictly_increases(b + e, (a - 1) as nat);
    }
}

/// A ratio of numbers of so many bits fits with one shift more than this one.
pub proof fn lemma_next_shift(n: nat, d: nat, a: nat, b: nat, p: nat, shift: nat)
    requires
        0 < b,
        n < pow2(a),
        pow2((b - 1) as nat) <= d,
        a <= b + p + shift,
    ensures
        n < d * pow2(p + shift + 1),
{
    let e = p + shift + 1;
    lemma_pow2_adds((b - 1) as nat, e);
    assert(d * pow2(e) >= pow2((b - 1) as nat) * pow2(e)) by (nonlinear_arith)
        requires
            d >= pow2((b - 1) as nat),
    ;
    if a < b + p + shift {
        lemma_pow2_strictly_increases(a, b + p + shift);
    }
}

/// `m` of `length` bits needs to be shifted by `shift` bits when it is scaled by
/// `2^up / 2^down`.
pub proof fn lemma_scaled_shift(p: nat, m: nat, length: nat, up: nat, down: nat, shift: nat)
    requires
        p > 0,
        0 < length,
        pow2((length - 1) as nat) <= m < pow2(length),
        length + up <= down + p + shift,
        shift == 0 || length + up == down + p + shift,
    ensures
        m * pow2(up) < pow2(down) * pow2(p + shift),
        shift == 0 || m * pow2(up) >= pow2(down) * pow2((p + shift - 1) as nat),
        shift_for(p, m * pow2(up), pow2(down)) == shift,
{
    lemma_pow2_pos(up);
    lemma_pow2_pos(down);
    lemma_pow2_adds(length, up);
    lemma_pow2_adds(down, p + shift);
    assert(m * pow2(up) < pow2(length) * pow2(up)) by (nonlinear_arith)
        requires
            m < pow2(length),
            pow2(up) > 0,
    ;
    if length + up < down + p + shift {
        lemma_pow2_strictly_increases(length + up, down + p + shift);
    }
    if shift > 0 {
        lemma_pow2_adds((length - 1) as nat, up);
        lemma_pow2_adds(down, (p + shift - 1) as nat);
        assert(m * pow2(up) >= pow2((length - 1) as nat) * pow2(up)) by (nonlinear_arith)
            requires
                m >= pow2((length - 1) as nat),
        ;
    }
    lemma_shift_for(p, m * pow2(up), pow2(down), shift);
}

/// A quotient and its remainder are found among those of a multiple.
pub proof fn lemma_quotient(n: nat, unit: nat, scale: nat, q: nat, bound: nat, rest: nat)
    requires
        unit > 0,
        scale > 0,
        bound == unit * scale,
        rest < bound,
        n * scale == q * bound + rest,
    ensures
        n / unit == q,
        2 * rest < bound <==> 2 * (n % unit) < unit,
        2 * rest == bound <==> 2 * (n % unit) == unit,
{
    let r = n - q * unit;
    assert(r * scale == rest) by (nonlinear_arith)
        requires
            r == n - q * unit,
            n * scale == q * bound + rest,
            bound == unit * scale,
    ;
    assert(0 <= r < unit) by (nonlinear_arith)
        requires
            r * scale == rest,
            0 <= rest < unit * scale,
            scale > 0,
    ;
    lemma_fundamental_div_mod_converse(n as int, unit as int, q as int, r);
    assert((2 * r < unit) <==> (2 * rest < bound)) by (nonlinear_arith)
        requires
            r * scale == rest,
            bound == unit * scale,
            scale > 0,
    ;
    assert((2 * r == unit) <==> (2 * rest == bound)) by (nonlinear_arith)
        requires
            r * scale == rest,
            bound == unit * scale,
            scale > 0,
    ;
}

/// Rounding to an integer does not depend on a common factor.
pub proof fn lemma_quotient_scaled(n: nat, unit: nat, c: nat)
    requires
        unit > 0,
        c > 0,
    ensures
        nearest_even(n * c, unit * c) == nearest_even(n, unit),
{
    let q = n / unit;
    let r = n % unit;
    lemma_fundamental_div_mod(n as int, unit as int);
    assert(n * c == q * (unit * c) + r * c) by (nonlinear_arith)
        requires
            n == unit * q + r,
    ;
    assert(0 <= r * c < unit * c) by (nonlinear_arith)
        requires
            0 <= r < unit,
            c > 0,
    ;
    lemma_fundamental_div_mod_converse(
        (n * c) as int,
        (unit * c) as int,
        q as int,
        (r * c) as int,
    );
    assert((2 * (r * c) < unit * c <==> 2 * r < unit) && (2 * (r * c) == unit * c <==> 2 * r
        == unit)) by (nonlinear_arith)
        requires
            c > 0,
    ;
}

/// A quotient can be rounded off by its integer part and by whether there is a remainder.
pub proof fn lemma_sticky(a: nat, b: nat, q: nat, r: nat, m: nat, k: nat)
    requires
        b > 0,
        k > 0,
        a == q * b + r,
        r < b,
        m == 2 * q + if r > 0 {
            1nat
        } else {
            0nat
        },
    ensures
        nearest_even(a, b * pow2(k)) == nearest_even(m, pow2(k + 1)),
{
    let unit = pow2(k);
    let half = pow2((k - 1) as nat);
    lemma2_to64();
    lemma_pow2_adds((k - 1) as nat, 1);
    lemma_pow2_adds(k, 1);
    lemma_pow2_pos((k - 1) as nat);
    let c = q / unit;
    let t = q % unit;
    lemma_fundamental_div_mod(q as int, unit as int);
    let rest = t * b + r;
    let wide = b * unit;
    assert(a == c * wide + rest) by (nonlinear_arith)
        requires
            a == q * b + r,
            q == unit * c + t,
            rest == t * b + r,
            wide == b * unit,
    ;
    assert(0 <= rest < wide) by (nonlinear_arith)
        requires
            rest == t * b + r,
            wide == b * unit,
            0 <= t <= unit - 1,
            0 <= r < b,
    ;
    lemma_fundamental_div_mod_converse(a as int, wide as int, c as int, rest as int);
    let low = (m - 2 * (unit * c)) as nat;
    assert(m == c * (2 * unit) + low) by (nonlinear_arith)
        requires
            low == m - 2 * (unit * c),
    ;
    lemma_fundamental_div_mod_converse(m as int, (2 * unit) as int, c as int, low as int);
    assert(wide == 2 * (half * b)) by (nonlinear_arith)
        requires
            wide == b * unit,
            unit == 2 * half,
    ;
    if t < half {
        assert(rest < half * b) by (nonlinear_arith)
            requires
                rest == t * b + r,
                t <= half - 1,
                r < b,
        ;
    } else if t > half {
        assert(rest > half * b) by (nonlinear_arith)
            requires
                rest == t * b + r,
                t >= half + 1,
                b > 0,
        ;
    }
}

/// Both sides are `k` shifted as far.
pub proof fn lemma_scaled_bound(k: nat, down: nat, x: nat, y: nat, up: nat)
    requires
        y + up == down + 32 + x,
    ensures
        ((k * pow2(down)) * pow2(x)) * pow2(32) == (k * pow2(y)) * pow2(up),
{
    lemma_pow2_adds(y, up);
    lemma_pow2_adds(down, x);
    lemma_pow2_adds(down + x, 32);
    let b = pow2(down);
    let c = pow2(x);
    let e = pow2(32);
    let f = pow2(y);
    let g = pow2(up);
    assert(((k * b) * c) * e == k * ((b * c) * e)) by (nonlinear_arith);
    assert((k * f) * g == k * (f * g)) by (nonlinear_arith);
}

/// A quotient of shifted numbers is shifted as far as the number of bits of a quotient of 64 bits
/// says, or less far where that quotient has a single bit.
pub proof fn lemma_quick_shift(
    p: nat,
    m: nat,
    up: nat,
    k: nat,
    down: nat,
    q: nat,
    r: nat,
    sticky: nat,
    length: nat,
    shift: nat,
)
    requires
        p > 0,
        k > 0,
        m * 0x1_0000_0000 == q * k + r,
        r < k,
        sticky == 2 * q + if r > 0 {
            1nat
        } else {
            0nat
        },
        length > 0,
        pow2((length - 1) as nat) <= sticky < pow2(length),
        length + up <= down + 33 + p + shift,
        shift == 0 || length + up == down + 33 + p + shift,
    ensures
        m * pow2(up) < (k * pow2(down)) * pow2(p + shift),
        shift_for(p, m * pow2(up), k * pow2(down)) <= shift,
        shift == 0 || length > 1 ==> shift_for(p, m * pow2(up), k * pow2(down)) == shift,
{
    lemma2_to64();
    let a = m * 0x1_0000_0000;
    let n = m * pow2(up);
    let d = k * pow2(down);
    let scale = pow2(32);
    let exponent = (down + 32 + p + shift - up) as nat;
    lemma_pow2_pos(up);
    lemma_pow2_pos(down);
    assert(n * scale == a * pow2(up)) by (nonlinear_arith)
        requires
            n == m * pow2(up),
            a == m * scale,
    ;
    if length < exponent + 1 {
        lemma_pow2_strictly_increases(length, exponent + 1);
    }
    lemma_pow2_adds(exponent, 1);
    let top = pow2(exponent);
    assert(q < top);
    assert(a < k * top) by (nonlinear_arith)
        requires
            a == q * k + r,
            r < k,
            q + 1 <= top,
    ;
    lemma_scaled_bound(k, down, p + shift, exponent, up);
    assert(n < d * pow2(p + shift)) by (nonlinear_arith)
        requires
            n * scale == a * pow2(up),
            a < k * top,
            (d * pow2(p + shift)) * scale == (k * top) * pow2(up),
            pow2(up) > 0,
            scale > 0,
    ;
    assert(d > 0) by (nonlinear_arith)
        requires
            d == k * pow2(down),
            k > 0,
            pow2(down) > 0,
    ;
    let least = shift_for(p, n, d);
    lemma_shift_bounds(p, n, d);
    if least > shift {
        let before = pow2((p + least - 1) as nat);
        if least > shift + 1 {
            lemma_pow2_strictly_increases(p + shift, (p + least - 1) as nat);
        }
        assert(d * before >= d * pow2(p + shift)) by (nonlinear_arith)
            requires
                before >= pow2(p + shift),
        ;
        assert(false);
    }
    if shift > 0 && length > 1 {
        assert(length == exponent + 1);
        let low = pow2((exponent - 1) as nat);
        lemma_pow2_adds((exponent - 1) as nat, 1);
        assert(q >= low);
        assert(a >= k * low) by (nonlinear_arith)
            requires
                a == q * k + r,
                q >= low,
                r >= 0,
        ;
        lemma_scaled_bound(k, down, (p + shift - 1) as nat, (exponent - 1) as nat, up);
        assert(n >= d * pow2((p + shift - 1) as nat)) by (nonlinear_arith)
            requires
                n * scale == a * pow2(up),
                a >= k * low,
                (d * pow2((p + shift - 1) as nat)) * scale == (k * low) * pow2(up),
                pow2(up) > 0,
                scale > 0,
        ;
        lemma_shift_for(p, n, d, shift);
    }
}

/// A quotient of shifted numbers is rounded by the integer part of a quotient of 64 bits.
pub proof fn lemma_quick_quotient(
    m: nat,
    up: nat,
    k: nat,
    down: nat,
    q: nat,
    r: nat,
    sticky: nat,
    shift: nat,
    cut: nat,
)
    requires
        k > 0,
        m * 0x1_0000_0000 == q * k + r,
        r < k,
        sticky == 2 * q + if r > 0 {
            1nat
        } else {
            0nat
        },
        cut > 0,
        cut + up == down + 32 + shift,
    ensures
        nearest_even(m * pow2(up), (k * pow2(down)) * pow2(shift)) == nearest_even(
            sticky,
            pow2(cut + 1),
        ),
{
    lemma2_to64();
    let a = m * 0x1_0000_0000;
    let n = m * pow2(up);
    let d = k * pow2(down);
    let scale = pow2(32);
    lemma_pow2_pos(up);
    lemma_pow2_pos(down);
    lemma_pow2_pos(shift);
    assert(n * scale == a * pow2(up)) by (nonlinear_arith)
        requires
            n == m * pow2(up),
            a == m * scale,
    ;
    let unit = d * pow2(shift);
    assert(unit > 0) by (nonlinear_arith)
        requires
            unit == (k * pow2(down)) * pow2(shift),
            k > 0,
            pow2(down) > 0,
            pow2(shift) > 0,
    ;
    lemma_quotient_scaled(n, unit, scale);
    lemma_scaled_bound(k, down, shift, cut, up);
    lemma_pow2_pos(cut);
    assert(k * pow2(cut) > 0) by (nonlinear_arith)
        requires
            k > 0,
            pow2(cut) > 0,
    ;
    lemma_quotient_scaled(a, k * pow2(cut), pow2(up));
    lemma_sticky(a, k, q, r, sticky, cut);
}

/// Zero is rounded to zero.
pub proof fn lemma_round_zero(p: nat, d: nat)
    requires
        p > 0,
        d > 0,
    ensures
        round_ratio(p, 0, d) == 0,
{
    lemma2_to64();
    lemma_pow2_pos(p);
    assert(d * pow2(p) > 0) by (nonlinear_arith)
        requires
            d > 0,
            pow2(p) > 0,
    ;
    assert(shift_for(p, 0, d) == 0);
    assert(d * pow2(0) == d) by (nonlinear_arith)
        requires
            pow2(0) == 1,
    ;
    lemma_fundamental_div_mod_converse(0, d as int, 0, 0);
    assert(nearest_even(0, d) == 0);
}

/// A number of at most `p` significant bits stays as it is.
pub proof fn lemma_round_exact(p: nat, m: nat, t: nat)
    requires
        p > 0,
        m <= pow2(p),
    ensures
        round_ratio(p, m * pow2(t), 1) == m * pow2(t),
{
    let n = m * pow2(t);
    let s = shift_for(p, n, 1);
    lemma2_to64();
    lemma_shift_bounds(p, n, 1);
    lemma_pow2_pos(s);
    lemma_pow2_pos(t);
    lemma_pow2_adds(p, t);
    assert(n <= pow2(p + t)) by (nonlinear_arith)
        requires
            n == m * pow2(t),
            m <= pow2(p),
            pow2(p + t) == pow2(p) * pow2(t),
    ;
    if s > t + 1 {
        lemma_pow2_strictly_increases(p + t, (p + s - 1) as nat);
        assert(false);
    }
    if s == t + 1 {
        assert(n == pow2(p + t));
        lemma_pow2_adds((p - 1) as nat, s);
        let half = pow2((p - 1) as nat);
        lemma_fundamental_div_mod_converse(n as int, pow2(s) as int, half as int, 0);
    } else {
        lemma_pow2_adds(s, (t - s) as nat);
        let q = m * pow2((t - s) as nat);
        assert(n == q * pow2(s)) by (nonlinear_arith)
            requires
                n == m * pow2(t),
                q == m * pow2((t - s) as nat),
                pow2(t) == pow2(s) * pow2((t - s) as nat),
        ;
        lemma_fundamental_div_mod_converse(n as int, pow2(s) as int, q as int, 0);
    }
}

/// Rounding does not go past a power of two.
pub proof fn lemma_round_upper(p: nat, n: nat, d: nat, k: nat)
    requires
        p > 0,
        d > 0,
        k >= p,
        n <= d * pow2(k),
    ensures
        round_ratio(p, n, d) <= pow2(k),
{
    let s = shift_for(p, n, d);
    lemma_shift_bounds(p, n, d);
    lemma2_to64();
    lemma_pow2_pos(s);
    if p + s > k + 1 {
        lemma_pow2_strictly_increases(k, (p + s - 1) as nat);
        assert(d * pow2(k) < d * pow2((p + s - 1) as nat)) by (nonlinear_arith)
            requires
                d > 0,
                pow2(k) < pow2((p + s - 1) as nat),
        ;
        assert(false);
    }
    let unit = d * pow2(s);
    assert(unit > 0) by (nonlinear_arith)
        requires
            unit == d * pow2(s),
            d > 0,
            pow2(s) > 0,
    ;
    lemma_pow2_adds(s, (k - s) as nat);
    let top = pow2((k - s) as nat);
    assert(n <= top * unit) by (nonlinear_arith)
        requires
            n <= d * pow2(k),
            pow2(k) == pow2(s) * top,
            unit == d * pow2(s),
    ;
    let q = n / unit;
    let r = n % unit;
    lemma_fundamental_div_mod(n as int, unit as int);
    assert(q < top || (q == top && r == 0)) by (nonlinear_arith)
        requires
            n == unit * q + r,
            0 <= r,
            n <= top * unit,
            unit > 0,
    ;
    let rounded = nearest_even(n, unit);
    assert(rounded * pow2(s) <= top * pow2(s)) by (nonlinear_arith)
        requires
            rounded <= top,
    ;
}

/// A common factor does not matter.
pub proof fn lemma_round_cancel(p: nat, n: nat, d: nat, c: nat)
    requires
        p > 0,
        d > 0,
        c > 0,
    ensures
        round_ratio(p, n * c, d * c) == round_ratio(p, n, d),
{
    let s = shift_for(p, n, d);
    lemma_shift_bounds(p, n, d);
    lemma_pow2_pos(s);
    let a = pow2(p + s);
    assert(n * c < (d * c) * a) by (nonlinear_arith)
        requires
            n < d * a,
            c > 0,
    ;
    if s > 0 {
        let b = pow2((p + s - 1) as nat);
        assert(n * c >= (d * c) * b) by (nonlinear_arith)
            requires
                n >= d * b,
                c > 0,
        ;
    }
    assert(d * c > 0) by (nonlinear_arith)
        requires
            d > 0,
            c > 0,
    ;
    lemma_shift_for(p, n * c, d * c, s);
    let unit = d * pow2(s);
    assert(unit > 0) by (nonlinear_arith)
        requires
            unit == d * pow2(s),
            d > 0,
            pow2(s) > 0,
    ;
    assert((d * c) * pow2(s) == unit * c) by (nonlinear_arith)
        requires
            unit == d * pow2(s),
    ;
    lemma_quotient_scaled(n, unit, c);
}

/// Rounding to an integer changes a ratio by no more than a half.
pub proof fn lemma_nearest_even_error(n: nat, unit: nat)
    requires
        unit > 0,
    ensures
        2 * (nearest_even(n, unit) * unit) <= 2 * n + unit,
        2 * n <= 2 * (nearest_even(n, unit) * unit) + unit,
{
    let q = n / unit;
    let r = n % unit;
    lemma_fundamental_div_mod(n as int, unit as int);
    assert((q + 1) * unit == q * unit + unit) by (nonlinear_arith);
    assert(unit * q == q * unit) by (nonlinear_arith);
}

/// Rounding to `p` bits changes a number by no more than one part in `2^p`.
pub proof fn lemma_round_relative(p: nat, n: nat, d: nat)
    requires
        p > 0,
        d > 0,
        d == 1 || n >= d * pow2((p - 1) as nat),
    ensures
        pow2(p) * (round_ratio(p, n, d) * d) <= (pow2(p) + 1) * n,
        (pow2(p) - 1) * n <= pow2(p) * (round_ratio(p, n, d) * d),
{
    let s = shift_for(p, n, d);
    lemma_shift_bounds(p, n, d);
    lemma2_to64();
    lemma_pow2_pos(s);
    lemma_pow2_pos(p);
    let unit = d * pow2(s);
    assert(unit > 0) by (nonlinear_arith)
        requires
            unit == d * pow2(s),
            d > 0,
            pow2(s) > 0,
    ;
    let q = nearest_even(n, unit);
    let r = round_ratio(p, n, d);
    assert(r * d == q * unit) by (nonlinear_arith)
        requires
            r == q * pow2(s),
            unit == d * pow2(s),
    ;
    let e = pow2(p);
    if s == 0 && d == 1 {
        assert(unit == 1);
        assert(q == n) by {
            lemma_fundamental_div_mod(n as int, 1);
        }
        assert(q * unit == n) by (nonlinear_arith)
            requires
                q == n,
                unit == 1,
        ;
        assert(e * n <= (e + 1) * n && (e - 1) * n <= e * n) by (nonlinear_arith);
    } else {
        let half = pow2((p - 1) as nat);
        lemma_pow2_adds((p - 1) as nat, 1);
        lemma_pow2_adds((p - 1) as nat, s);
        assert(half * unit <= n) by (nonlinear_arith)
            requires
                n >= d * (half * pow2(s)),
                unit == d * pow2(s),
        ;
        lemma_nearest_even_error(n, unit);
        let product = q * unit;
        assert(e * product <= (e + 1) * n && (e - 1) * n <= e * product) by (nonlinear_arith)
            requires
                2 * product <= 2 * n + unit,
                2 * n <= 2 * product + unit,
                half * unit <= n,
                e == 2 * half,
                half > 0,
        ;
    }
}

proof fn lemma_nearest_even_monotone(n: nat, m: nat, unit: nat)
    requires
        n <= m,
        unit > 0,
    ensures
        nearest_even(n, unit) <= nearest_even(m, unit),
{
    let a = n / unit;
    let b = m / unit;
    lemma_fundamental_div_mod(n as int, unit as int);
    lemma_fundamental_div_mod(m as int, unit as int);
    assert(a < b || (a == b && n % unit <= m % unit)) by (nonlinear_arith)
        requires
            n == unit * a + n % unit,
            m == unit * b + m % unit,
            0 <= n % unit < unit,
            0 <= m % unit < unit,
            n <= m,
            unit > 0,
    ;
}

/// Rounding keeps the order of numbers.
pub proof fn lemma_round_monotone(p: nat, n: nat, m: nat, d: nat)
    requires
        p > 0,
        d > 0,
        n <= m,
    ensures
        round_ratio(p, n, d) <= round_ratio(p, m, d),
{
    let s = shift_for(p, n, d);
    let t = shift_for(p, m, d);
    lemma_shift_bounds(p, n, d);
    lemma_shift_bounds(p, m, d);
    lemma2_to64();
    lemma_pow2_pos(s);
    lemma_pow2_pos(t);
    let unit = d * pow2(t);
    assert(unit > 0) by (nonlinear_arith)
        requires
            unit == d * pow2(t),
            d > 0,
            pow2(t) > 0,
    ;
    if s == t {
        lemma_nearest_even_monotone(n, m, unit);
        assert(nearest_even(n, unit) * pow2(t) <= nearest_even(m, unit) * pow2(t))
            by (nonlinear_arith)
            requires
                nearest_even(n, unit) <= nearest_even(m, unit),
        ;
    } else if s < t {
        lemma_round_upper(p, n, d, p + s);
        let half = pow2((p - 1) as nat);
        lemma_pow2_adds((p - 1) as nat, t);
        if p + s < p + t - 1 {
            lemma_pow2_strictly_increases(p + s, (p + t - 1) as nat);
        }
        assert(m >= unit * half) by (nonlinear_arith)
            requires
                m >= d * (half * pow2(t)),
                unit == d * pow2(t),
        ;
        lemma_fundamental_div_mod_converse((unit * half) as int, unit as int, half as int, 0);
        assert(unit * half == half * unit) by (nonlinear_arith);
        lemma_nearest_even_monotone(unit * half, m, unit);
        assert(nearest_even(unit * half, unit) == half);
        assert(nearest_even(m, unit) * pow2(t) >= half * pow2(t)) by (nonlinear_arith)
            requires
                nearest_even(m, unit) >= half,
        ;
    } else {
        lemma_pow2_strictly_increases(t, s);
        if p + t < p + s - 1 {
            lemma_pow2_strictly_increases(p + t, (p + s - 1) as nat);
        }
        assert(d * pow2((p + s - 1) as nat) >= d * pow2(p + t)) by (nonlinear_arith)
            requires
                pow2((p + s - 1) as nat) >= pow2(p + t),
        ;
        assert(false);
    }
}

} // verus!
