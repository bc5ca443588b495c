//! What holds of frames that are counted at another frame rate.
//!
//! Frames are taken from one rate to another in single precision, with several roundings. The laws
//! here say how close the result is to the exact quotient, in whole numbers.

use crate::config::{timecode_frames, timecode_seconds, Timecode};
use crate::float::{
    lemma_small_single, nearest_single, of_nat, rounded, rounded_u32, single, Value,
};
use crate::media_item::{rate_of, ItemModel};
use crate::rounding::{
    lemma_round_cancel, lemma_round_exact, lemma_round_monotone, lemma_round_relative,
    lemma_round_upper, lemma_round_zero, round_ratio,
};
use crate::timecode_parser::TimecodePosition;
use vstd::arithmetic::div_mod::{lemma_fundamental_div_mod, lemma_fundamental_div_mod_converse};
use vstd::arithmetic::power2::{
    lemma2_to64, lemma_pow2_adds, lemma_pow2_pos, lemma_pow2_strictly_increases, pow2,
};
use vstd::prelude::*;

verus! {

/// A frame is `x / d`, off by no more than a half and one part in `2^22` of it. Where `x / d` is
/// beyond the range of frames, it is the last frame of the range, off by no more than that.
pub open spec fn is_near(frame: int, x: int, d: int) -> bool {
    if x <= u32::MAX * d {
        &&& 0x80_0000 * (frame * d - x) <= 0x40_0000 * d + 2 * x
        &&& 0x80_0000 * (x - frame * d) <= 0x40_0000 * d + 2 * x
    } else {
        &&& frame <= u32::MAX
        &&& 0x80_0000 * (u32::MAX - frame) <= 0x40_0000 + 2 * u32::MAX
    }
}

/// A frame that a result in single precision is rounded to.
spec fn held(units: nat) -> int {
    if nearest_single(units) > u32::MAX {
        u32::MAX as int
    } else {
        nearest_single(units) as int
    }
}

proof fn lemma_held(n: nat, d: nat)
    requires
        d > 0,
    ensures
        rounded_u32(rounded(single(), false, n, d)) == held(round_ratio(24, n, d)),
{
    let units = round_ratio(24, n, d);
    if units >= pow2(277) {
        lemma_pow2_strictly_increases(189, 277);
        lemma_beyond(units);
    }
}

proof fn lemma_beyond(units: nat)
    requires
        units >= pow2(189),
    ensures
        held(units) == u32::MAX,
{
    let z = pow2(149);
    lemma2_to64();
    lemma_pow2_pos(149);
    lemma_pow2_adds(40, 149);
    lemma_pow2_adds(32, 8);
    lemma_fundamental_div_mod(units as int, z as int);
    let q = units / z;
    assert(q >= pow2(32)) by (nonlinear_arith)
        requires
            units == z * q + units % z,
            units % z < z,
            units >= pow2(40) * z,
            pow2(40) >= pow2(32) + 1,
            z > 0,
    ;
}

proof fn lemma_nearest_error(units: nat)
    ensures
        2 * units < (2 * nearest_single(units) + 1) * pow2(149),
        2 * nearest_single(units) * pow2(149) <= 2 * units + pow2(149),
{
    let z = pow2(149);
    lemma_pow2_pos(149);
    let q = units / z;
    let r = units % z;
    lemma_fundamental_div_mod(units as int, z as int);
    let k = nearest_single(units);
    assert(2 * units < (2 * k + 1) * z && 2 * k * z <= 2 * units + z) by (nonlinear_arith)
        requires
            units == z * q + r,
            0 <= r < z,
            (2 * r >= z && k == q + 1) || (2 * r < z && k == q),
    ;
}

/// Three roundings to 24 bits, each off by no more than one part in `2^24`.
proof fn lemma_three_roundings(x: nat, a: nat, b: nat, c: nat)
    requires
        0xff_ffff * x <= 0x100_0000 * a <= 0x100_0001 * x,
        0xff_ffff * a <= 0x100_0000 * b <= 0x100_0001 * a,
        0xff_ffff * b <= 0x100_0000 * c <= 0x100_0001 * b,
    ensures
        0x3f_ffff * x <= 0x40_0000 * c <= 0x40_0001 * x,
{
}

/// A result that is off by no more than one part in `2^22`, rounded to a whole number.
proof fn lemma_near(units: nat, x: nat, y: nat)
    requires
        y > 0,
        0x3f_ffff * x <= 0x40_0000 * (units * y) <= 0x40_0001 * x,
    ensures
        is_near(held(units), x as int, (y * pow2(149)) as int),
{
    let z = pow2(149);
    let k = nearest_single(units);
    let d = y * z;
    lemma_nearest_error(units);
    lemma_pow2_pos(149);
    assert(d > 0) by (nonlinear_arith)
        requires
            d == y * z,
            y > 0,
            z > 0,
    ;
    let product = units * y;
    assert(2 * product <= 2 * (k * d) + d && 2 * (k * d) <= 2 * product + d)
        by (nonlinear_arith)
        requires
            2 * units < (2 * k + 1) * z,
            2 * k * z <= 2 * units + z,
            product == units * y,
            d == y * z,
    ;
    let limit: nat = u32::MAX as nat;
    assert(0x80_0000 * (k * d) <= 0x40_0000 * d + 0x80_0002 * x);
    assert(0x7f_fffe * x <= 0x80_0000 * (k * d) + 0x40_0000 * d);
    if k > limit {
        assert(k * d >= limit * d) by (nonlinear_arith)
            requires
                k >= limit,
        ;
    } else if x > limit * d {
        assert(0x7f_fffe * limit <= 0x80_0000 * k + 0x40_0000) by (nonlinear_arith)
            requires
                0x7f_fffe * x <= 0x80_0000 * (k * d) + 0x40_0000 * d,
                x > limit * d,
                d > 0,
        ;
    }
}

/// A result that is next to nothing, where the exact one is no more than a half.
proof fn lemma_near_nothing(units: nat, x: nat, d: nat)
    requires
        2 * units < pow2(149),
        2 * x <= d,
    ensures
        is_near(held(units), x as int, d as int),
{
    lemma_pow2_pos(149);
    lemma_fundamental_div_mod_converse(units as int, pow2(149) as int, 0, units as int);
    assert(x <= u32::MAX * d) by (nonlinear_arith)
        requires
            2 * x <= d,
    ;
}

/// A common factor does not matter.
proof fn lemma_near_cancel(frame: int, x: int, d: int, c: int)
    requires
        is_near(frame, x * c, d * c),
        c > 0,
    ensures
        is_near(frame, x, d),
{
    let limit = u32::MAX as int;
    assert((x * c <= limit * (d * c)) == (x <= limit * d)) by (nonlinear_arith)
        requires
            c > 0,
    ;
    if x <= limit * d {
        assert(0x80_0000 * (frame * d - x) <= 0x40_0000 * d + 2 * x) by (nonlinear_arith)
            requires
                0x80_0000 * (frame * (d * c) - x * c) <= 0x40_0000 * (d * c) + 2 * (x * c),
                c > 0,
        ;
        assert(0x80_0000 * (x - frame * d) <= 0x40_0000 * d + 2 * x) by (nonlinear_arith)
            requires
                0x80_0000 * (x * c - frame * (d * c)) <= 0x40_0000 * (d * c) + 2 * (x * c),
                c > 0,
        ;
    }
}

/// The nearest number to a count in single precision.
proof fn lemma_count(n: nat)
    requires
        n <= u32::MAX,
    ensures
        ({
            let count = round_ratio(24, n * pow2(149), 1);
            &&& of_nat(single(), n) == (Value::Finite { negative: false, units: count })
            &&& 0xff_ffff * (n * pow2(149)) <= 0x100_0000 * count <= 0x100_0001 * (n * pow2(149))
        }),
{
    let z = pow2(149);
    lemma2_to64();
    lemma_pow2_pos(149);
    lemma_pow2_adds(32, 149);
    assert(n * z <= pow2(181)) by (nonlinear_arith)
        requires
            n <= pow2(32),
            pow2(181) == pow2(32) * z,
    ;
    lemma_round_upper(24, n * z, 1, 181);
    lemma_pow2_strictly_increases(181, 277);
    lemma_round_relative(24, n * z, 1);
    assert(round_ratio(24, n * z, 1) * 1 == round_ratio(24, n * z, 1));
}

proof fn lemma_multiplied_and_divided(n: nat, s: nat, p: nat)
    requires
        n <= u32::MAX,
        0 < p <= 255,
    ensures
        ({
            let count = round_ratio(24, n * pow2(149), 1);
            let times = round_ratio(24, count * s, pow2(149));
            is_near(held(round_ratio(24, times, p)), (n * s) as int, (p * pow2(149)) as int)
        }),
{
    let z = pow2(149);
    let count = round_ratio(24, n * z, 1);
    let times = round_ratio(24, count * s, z);
    let back = round_ratio(24, times, p);
    let x = n * s;
    lemma2_to64();
    lemma_pow2_pos(149);
    lemma_pow2_adds(23, 1);
    lemma_pow2_adds(24, 125);
    lemma_pow2_adds(9, 116);
    lemma_pow2_pos(116);
    lemma_pow2_strictly_increases(30, 125);
    let e = pow2(24);
    assert(e == 0x100_0000);
    lemma_count(n);
    assert(0xff_ffff * (x * z) <= 0x100_0000 * (count * s) <= 0x100_0001 * (x * z))
        by (nonlinear_arith)
        requires
            0xff_ffff * (n * z) <= 0x100_0000 * count <= 0x100_0001 * (n * z),
            x == n * s,
    ;
    if count * s < z * pow2(23) {
        assert(count * s <= z * e) by (nonlinear_arith)
            requires
                count * s < z * pow2(23),
                pow2(23) <= e,
        ;
        lemma_round_upper(24, count * s, z, 24);
        assert(times <= p * e) by (nonlinear_arith)
            requires
                times <= e,
                p >= 1,
        ;
        lemma_round_upper(24, times, p, 24);
        assert(x <= e) by (nonlinear_arith)
            requires
                0xff_ffff * (x * z) <= 0x100_0000 * (count * s),
                count * s < z * 0x80_0000,
                e == 0x100_0000,
                z > 0,
        ;
        assert(2 * x <= p * z) by (nonlinear_arith)
            requires
                x <= e,
                z == e * pow2(125),
                pow2(125) >= 2,
                p >= 1,
        ;
        assert(2 * back < z) by (nonlinear_arith)
            requires
                back <= e,
                z == e * pow2(125),
                pow2(125) > 2,
                e > 0,
        ;
        lemma_near_nothing(back, x, p * z);
    } else {
        lemma_round_relative(24, count * s, z);
        if times < p * pow2(23) {
            assert(times <= p * e) by (nonlinear_arith)
                requires
                    times < p * pow2(23),
                    pow2(23) <= e,
            ;
            lemma_round_upper(24, times, p, 24);
            assert(x <= 4 * times) by (nonlinear_arith)
                requires
                    0xff_ffff * (x * z) <= 0x100_0000 * (count * s),
                    0xff_ffff * (count * s) <= 0x100_0000 * (times * z),
                    z > 0,
            ;
            assert(2 * x <= p * z) by (nonlinear_arith)
                requires
                    x <= 4 * times,
                    times <= p * e,
                    z == e * pow2(125),
                    pow2(125) >= 8,
                    p >= 1,
                    e > 0,
            ;
            assert(2 * back < z) by (nonlinear_arith)
                requires
                    back <= e,
                    z == e * pow2(125),
                    pow2(125) > 2,
                    e > 0,
            ;
            lemma_near_nothing(back, x, p * z);
        } else {
            lemma_round_relative(24, times, p);
            let whole = back * p;
            assert(0xff_ffff * (times * z) <= 0x100_0000 * (whole * z) <= 0x100_0001 * (times * z))
                by (nonlinear_arith)
                requires
                    0xff_ffff * times <= 0x100_0000 * whole <= 0x100_0001 * times,
            ;
            lemma_three_roundings(x * z, count * s, times * z, whole * z);
            assert(0x3f_ffff * x <= 0x40_0000 * whole <= 0x40_0001 * x) by (nonlinear_arith)
                requires
                    0x3f_ffff * (x * z) <= 0x40_0000 * (whole * z) <= 0x40_0001 * (x * z),
                    z > 0,
            ;
            lemma_near(back, x, p);
        }
    }
}

/// The frame to seek to is as far into the media item, in frames of the server, as timecode is
/// past its start: `(position - start) * server_fps / tc_fps`, to the nearest whole number, up to
/// one part in `2^22`. The length of the item plays no part. The frame rate of the server counts
/// in units of `2^-149`.
pub proof fn law_seek_frame_is_near(item: ItemModel, position: TimecodePosition, server_units: nat)
    requires
        position.fps > 0,
        item.start_frame(rate_of(position)) <= position.total_frames,
    ensures
        ({
            let past = position.total_frames - item.start_frame(rate_of(position));
            let server_fps = Value::Finite { negative: false, units: server_units };
            is_near(
                item.offset(position, server_fps) as int,
                past * server_units,
                position.fps * pow2(149),
            )
        }),
{
    let n = (position.total_frames - item.start_frame(rate_of(position))) as nat;
    let p = position.fps as nat;
    let z = pow2(149);
    let s = server_units;
    let server_fps = Value::Finite { negative: false, units: s };
    lemma2_to64();
    lemma_pow2_pos(149);
    lemma_small_single(p);
    lemma_count(n);
    let count = round_ratio(24, n * z, 1);
    let times = round_ratio(24, count * s, z);
    let rate = p * z;
    assert(rate > 0) by (nonlinear_arith)
        requires
            rate == p * z,
            p > 0,
            z > 0,
    ;
    lemma_round_cancel(24, times, p, z);
    lemma_multiplied_and_divided(n, s, p);
    if times < pow2(277) {
        lemma_held(times * z, rate);
    } else {
        lemma_divided_beyond(times, p);
    }
}

/// A server whose frame rate is not a number is sought to its first frame, and so is one that runs
/// backwards. One that runs infinitely fast is beyond every frame once timecode is past the start.
pub proof fn law_seek_frame_at_odd_rates(
    item: ItemModel,
    position: TimecodePosition,
    server_fps: Value,
)
    requires
        position.fps > 0,
        item.start_frame(rate_of(position)) <= position.total_frames,
    ensures
        match server_fps {
            Value::Nan => item.offset(position, server_fps) == 0,
            Value::Infinite { negative } => item.offset(position, server_fps) == if negative
                || item.start_frame(rate_of(position)) == position.total_frames {
                0
            } else {
                u32::MAX
            },
            Value::Finite { negative, .. } => negative ==> item.offset(position, server_fps) == 0,
        },
{
    let n = (position.total_frames - item.start_frame(rate_of(position))) as nat;
    let p = position.fps as nat;
    let z = pow2(149);
    lemma2_to64();
    lemma_pow2_pos(149);
    lemma_small_single(p);
    lemma_count(n);
    let count = round_ratio(24, n * z, 1);
    assert(p * z > 0) by (nonlinear_arith)
        requires
            p > 0,
            z > 0,
    ;
    if n == 0 {
        assert(0 * z == 0) by (nonlinear_arith);
        lemma_round_zero(24, 1);
    } else {
        assert(count > 0) by (nonlinear_arith)
            requires
                0xff_ffff * (n * z) <= 0x100_0000 * count,
                n > 0,
                z > 0,
        ;
    }
}

proof fn lemma_divided_and_multiplied(n: nat, f: nat, p: nat)
    requires
        n <= u32::MAX,
        f > 0,
        p <= 255,
    ensures
        ({
            let count = round_ratio(24, n * pow2(149), 1);
            let seconds = round_ratio(24, count * pow2(149), f);
            is_near(
                held(round_ratio(24, seconds * p, 1)),
                (n * p * pow2(149)) as int,
                f as int,
            )
        }),
{
    let z = pow2(149);
    let count = round_ratio(24, n * z, 1);
    let seconds = round_ratio(24, count * z, f);
    let frames = round_ratio(24, seconds * p, 1);
    let x = n * p * z;
    lemma2_to64();
    lemma_pow2_pos(149);
    lemma_pow2_adds(23, 1);
    lemma_pow2_adds(24, 125);
    lemma_pow2_strictly_increases(30, 125);
    let e = pow2(24);
    assert(e == 0x100_0000);
    lemma_count(n);
    lemma_round_relative(24, seconds * p, 1);
    assert(frames * 1 == frames);
    if count * z < f * pow2(23) {
        assert(count * z <= f * e) by (nonlinear_arith)
            requires
                count * z < f * pow2(23),
                pow2(23) <= e,
        ;
        lemma_round_upper(24, count * z, f, 24);
        assert(seconds * p <= e * 255) by (nonlinear_arith)
            requires
                seconds <= e,
                p <= 255,
        ;
        assert(2 * frames < z) by (nonlinear_arith)
            requires
                0x100_0000 * frames <= 0x100_0001 * (seconds * p),
                seconds * p <= e * 255,
                e == 0x100_0000,
                z == e * pow2(125),
                pow2(125) >= 0x1000,
        ;
        // n * z * z <= 2 * f * 2^23, and so 2 * n * p * z <= f.
        assert((n * z) * z <= f * e) by (nonlinear_arith)
            requires
                0xff_ffff * (n * z) <= 0x100_0000 * count,
                count * z < f * 0x80_0000,
                e == 0x100_0000,
                z > 0,
        ;
        assert(2 * (x * z) <= f * z) by (nonlinear_arith)
            requires
                (n * z) * z <= f * e,
                x == n * p * z,
                p <= 255,
                z == e * pow2(125),
                pow2(125) >= 0x1000,
                e > 0,
        ;
        assert(2 * x <= f) by (nonlinear_arith)
            requires
                2 * (x * z) <= f * z,
                z > 0,
        ;
        lemma_near_nothing(frames, x, f);
    } else {
        lemma_round_relative(24, count * z, f);
        let first = (n * z) * (z * p);
        let second = count * (z * p);
        let third = (seconds * f) * p;
        let last = frames * f;
        assert(0xff_ffff * first <= 0x100_0000 * second <= 0x100_0001 * first) by (nonlinear_arith)
            requires
                0xff_ffff * (n * z) <= 0x100_0000 * count <= 0x100_0001 * (n * z),
                first == (n * z) * (z * p),
                second == count * (z * p),
        ;
        assert(second == (count * z) * p) by (nonlinear_arith)
            requires
                second == count * (z * p),
        ;
        assert(0xff_ffff * second <= 0x100_0000 * third <= 0x100_0001 * second)
            by (nonlinear_arith)
            requires
                0xff_ffff * (count * z) <= 0x100_0000 * (seconds * f) <= 0x100_0001 * (count * z),
                second == (count * z) * p,
                third == (seconds * f) * p,
        ;
        assert(third == (seconds * p) * f) by (nonlinear_arith)
            requires
                third == (seconds * f) * p,
        ;
        assert(0xff_ffff * third <= 0x100_0000 * last <= 0x100_0001 * third) by (nonlinear_arith)
            requires
                0xff_ffff * (seconds * p) <= 0x100_0000 * frames <= 0x100_0001 * (seconds * p),
                third == (seconds * p) * f,
                last == frames * f,
        ;
        lemma_three_roundings(first, second, third, last);
        lemma_near(frames, first, f);
        assert(first == x * z) by (nonlinear_arith)
            requires
                first == (n * z) * (z * p),
                x == n * p * z,
        ;
        lemma_near_cancel(held(frames), x as int, f as int, z as int);
    }
}

/// A media item plays as many frames of the timeline as its own frames last at the frame rate of
/// timecode: `duration_frames * tc_fps / fps`, to the nearest whole number, up to one part in
/// `2^22`. The frame rate of the media counts in units of `2^-149`.
pub proof fn law_duration_is_near(item: ItemModel, position: TimecodePosition)
    requires
        item.fps matches Value::Finite { negative, units } && !negative && units > 0,
    ensures
        is_near(
            item.duration(rate_of(position)) as int,
            item.duration_frames * position.fps * pow2(149),
            item.fps->units as int,
        ),
{
    let n = item.duration_frames as nat;
    let p = position.fps as nat;
    let f = item.fps->units;
    let z = pow2(149);
    lemma2_to64();
    lemma_pow2_pos(149);
    lemma_small_single(p);
    lemma_count(n);
    let count = round_ratio(24, n * z, 1);
    let seconds = round_ratio(24, count * z, f);
    let rate = p * z;
    assert(seconds * rate == (seconds * p) * z) by (nonlinear_arith)
        requires
            rate == p * z,
    ;
    lemma_round_cancel(24, seconds * p, 1, z);
    assert(1 * z == z);
    lemma_divided_and_multiplied(n, f, p);
    if seconds < pow2(277) {
        lemma_held(seconds * rate, z);
    } else if p == 0 {
        assert(seconds * 0 == 0 && 0 * z == 0) by (nonlinear_arith);
        lemma_round_zero(24, 1);
        lemma_fundamental_div_mod_converse(0, z as int, 0, 0);
    } else {
        assert(rate > 0) by (nonlinear_arith)
            requires
                rate == p * z,
                p > 0,
                z > 0,
        ;
        assert(seconds * p >= seconds) by (nonlinear_arith)
            requires
                p >= 1,
        ;
        lemma_round_relative(24, seconds * p, 1);
        let frames = round_ratio(24, seconds * p, 1);
        assert(frames * 1 == frames);
        lemma_pow2_adds(189, 88);
        lemma_pow2_pos(189);
        lemma_pow2_strictly_increases(2, 88);
        assert(frames >= pow2(189)) by (nonlinear_arith)
            requires
                0xff_ffff * (seconds * p) <= 0x100_0000 * frames,
                seconds * p >= pow2(277),
                pow2(277) == pow2(189) * pow2(88),
                pow2(88) >= 2,
        ;
        lemma_beyond(frames);
    }
}

/// A timecode stands at as many frames as its seconds have at a frame rate, cut off to a whole
/// number, up to one part in `2^24` of it, and its own frames in addition. The frame rate counts
/// in units of `2^-149`.
pub proof fn law_timecode_frames_are_near(timecode: Timecode, units: nat)
    ensures
        ({
            let seconds = timecode.hours * 3600 + timecode.minutes * 60 + timecode.seconds;
            let fps = Value::Finite { negative: false, units };
            let whole = timecode_frames(timecode, fps) - timecode.frames;
            &&& 0 <= whole <= u32::MAX
            &&& 0x100_0000 * (whole * pow2(149)) <= 0x100_0001 * (seconds * units)
            &&& whole == u32::MAX || 0xff_ffff * (seconds * units) < 0x100_0000 * ((whole + 1)
                * pow2(149))
        }),
{
    let seconds = timecode_seconds(timecode);
    let z = pow2(149);
    lemma2_to64();
    lemma_pow2_pos(149);
    lemma_small_single(seconds);
    let exact = seconds * units;
    assert((seconds * z) * units == exact * z) by (nonlinear_arith)
        requires
            exact == seconds * units,
    ;
    lemma_round_cancel(24, exact, 1, z);
    assert(1 * z == z);
    lemma_round_relative(24, exact, 1);
    let near = round_ratio(24, exact, 1);
    assert(near * 1 == near);
    lemma_fundamental_div_mod(near as int, z as int);
    let count = near / z;
    let whole = timecode_frames(timecode, Value::Finite { negative: false, units })
        - timecode.frames;
    if near >= pow2(277) {
        lemma_pow2_adds(32, 149);
        lemma_pow2_strictly_increases(181, 277);
        assert(count >= u32::MAX) by (nonlinear_arith)
            requires
                near == z * count + near % z,
                near % z < z,
                near >= pow2(32) * z,
                pow2(32) == 0x1_0000_0000,
                z > 0,
        ;
    }
    assert(whole <= count);
    assert(0x100_0000 * (whole * z) <= 0x100_0001 * exact) by (nonlinear_arith)
        requires
            near == z * count + near % z,
            near % z >= 0,
            0 <= whole <= count,
            z > 0,
            0x100_0000 * near <= 0x100_0001 * exact,
    ;
    if whole < u32::MAX {
        let rest = near % z;
        assert(near < (whole + 1) * z) by (nonlinear_arith)
            requires
                near == z * count + rest,
                rest < z,
                whole == count,
        ;
    }
}

proof fn lemma_divided_beyond(units: nat, p: nat)
    requires
        units >= pow2(277),
        0 < p <= 255,
    ensures
        held(round_ratio(24, units, p)) == u32::MAX,
{
    lemma2_to64();
    lemma_pow2_adds(8, 269);
    lemma_pow2_adds(23, 246);
    lemma_pow2_adds(189, 80);
    lemma_pow2_pos(246);
    lemma_pow2_pos(189);
    lemma_pow2_strictly_increases(2, 80);
    assert(units >= p * pow2(269)) by (nonlinear_arith)
        requires
            units >= 256 * pow2(269),
            p <= 255,
    ;
    assert(units >= p * pow2(23)) by (nonlinear_arith)
        requires
            units >= p * pow2(269),
            pow2(269) == pow2(23) * pow2(246),
            pow2(246) >= 1,
    ;
    lemma_round_relative(24, units, p);
    let back = round_ratio(24, units, p);
    assert(2 * back >= pow2(269)) by (nonlinear_arith)
        requires
            0xff_ffff * units <= 0x100_0000 * (back * p),
            units >= p * pow2(269),
            p > 0,
    ;
    assert(back >= pow2(189)) by (nonlinear_arith)
        requires
            2 * back >= pow2(269),
            pow2(269) == pow2(189) * pow2(80),
            pow2(80) >= 2,
    ;
    lemma_beyond(back);
}

/// Where timecode has no frame rate, every frame past the start is beyond the range, as long as the
/// server runs forwards, and none is otherwise.
pub proof fn law_seek_frame_without_rate(
    item: ItemModel,
    position: TimecodePosition,
    server_fps: Value,
)
    requires
        position.fps == 0,
        item.start_frame(rate_of(position)) <= position.total_frames,
    ensures
        item.offset(position, server_fps) == if item.start_frame(rate_of(position))
            < position.total_frames && match server_fps {
            Value::Nan => false,
            Value::Infinite { negative } => !negative,
            Value::Finite { negative, units } => !negative && units > 0,
        } {
            u32::MAX
        } else {
            0
        },
{
    let n = (position.total_frames - item.start_frame(rate_of(position))) as nat;
    let z = pow2(149);
    lemma2_to64();
    lemma_pow2_pos(149);
    lemma_pow2_pos(277);
    lemma_small_single(0);
    lemma_count(n);
    let count = round_ratio(24, n * z, 1);
    assert(0 * z == 0) by (nonlinear_arith);
    if n == 0 {
        lemma_round_zero(24, 1);
    } else {
        assert(count > 0) by (nonlinear_arith)
            requires
                0xff_ffff * (n * z) <= 0x100_0000 * count,
                n >= 1,
                z > 0,
        ;
    }
    match server_fps {
        Value::Finite { units, .. } => {
            assert(count * 0 == 0 && 0 * units == 0) by (nonlinear_arith);
            lemma_round_zero(24, z);
            if n > 0 && units > 0 {
                lemma_some_is_left(n, units);
            }
        },
        _ => {},
    }
}

/// A number of frames times a rate that is not zero is never rounded to nothing.
proof fn lemma_some_is_left(n: nat, units: nat)
    requires
        n > 0,
        n <= u32::MAX,
        units > 0,
    ensures
        round_ratio(24, round_ratio(24, n * pow2(149), 1) * units, pow2(149)) > 0,
{
    let z = pow2(149);
    lemma2_to64();
    lemma_pow2_pos(149);
    // The count of frames is at least that of one frame.
    assert(1 * z == z);
    assert(z <= n * z) by (nonlinear_arith)
        requires
            n >= 1,
    ;
    lemma_round_monotone(24, 1 * z, n * z, 1);
    lemma_round_exact(24, 1, 149);
    let count = round_ratio(24, n * z, 1);
    assert(count * units >= 1 * z) by (nonlinear_arith)
        requires
            count >= z,
            units >= 1,
    ;
    lemma_round_monotone(24, 1 * z, count * units, z);
    lemma_round_cancel(24, 1, 1, z);
    lemma_round_exact(24, 1, 0);
    assert(1 * pow2(0) == 1);
}

/// A media item whose frame rate is not a number, or infinite, or negative, plays no frame. One
/// without frame rate never ends, if it has a frame.
pub proof fn law_duration_at_odd_rates(item: ItemModel, position: TimecodePosition)
    ensures
        match item.fps {
            Value::Nan => item.duration(rate_of(position)) == 0,
            Value::Infinite { .. } => item.duration(rate_of(position)) == 0,
            Value::Finite { negative, units } => {
                &&& negative ==> item.duration(rate_of(position)) == 0
                &&& !negative && units == 0 ==> item.duration(rate_of(position)) == if
                    item.duration_frames > 0 && position.fps > 0 {
                    u32::MAX as nat
                } else {
                    0
                }
            },
        },
{
    let n = item.duration_frames as nat;
    let p = position.fps as nat;
    let z = pow2(149);
    lemma2_to64();
    lemma_pow2_pos(149);
    lemma_pow2_pos(277);
    lemma_small_single(p);
    lemma_count(n);
    let count = round_ratio(24, n * z, 1);
    let rate = p * z;
    if n == 0 {
        assert(0 * z == 0) by (nonlinear_arith);
        lemma_round_zero(24, 1);
    } else {
        assert(count > 0) by (nonlinear_arith)
            requires
                0xff_ffff * (n * z) <= 0x100_0000 * count,
                n >= 1,
                z > 0,
        ;
    }
    if p == 0 {
        assert(rate == 0) by (nonlinear_arith)
            requires
                rate == p * z,
                p == 0,
        ;
    } else {
        assert(rate > 0) by (nonlinear_arith)
            requires
                rate == p * z,
                p > 0,
                z > 0,
        ;
    }
    assert(0 * rate == 0) by (nonlinear_arith);
    lemma_round_zero(24, z);
    lemma_fundamental_div_mod_converse(0, z as int, 0, 0);
}

/// At a frame rate that is not a number, or negative, a timecode stands at its own frames alone. At
/// an infinite one it is beyond the range, once it is past the first second.
pub proof fn law_timecode_frames_at_odd_rates(timecode: Timecode, fps: Value)
    ensures
        match fps {
            Value::Nan => timecode_frames(timecode, fps) == timecode.frames,
            Value::Infinite { negative } => timecode_frames(timecode, fps) == timecode.frames + if
                !negative && (timecode.hours > 0 || timecode.minutes > 0 || timecode.seconds > 0) {
                u32::MAX as int
            } else {
                0
            },
            Value::Finite { negative, .. } => negative ==> timecode_frames(timecode, fps)
                == timecode.frames,
        },
{
    let seconds = timecode_seconds(timecode);
    lemma2_to64();
    lemma_pow2_pos(149);
    lemma_small_single(seconds);
    assert(seconds * pow2(149) == 0 <==> seconds == 0) by (nonlinear_arith)
        requires
            pow2(149) > 0,
    ;
}

} // verus!
