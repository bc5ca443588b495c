//! What holds of the frames at which media items play.
//!
//! Media items that do not conflict never play together. Conflicts are found by comparing times in
//! seconds, in double precision, while media items play between frames that are counted in single
//! precision. The bounds here show that rounding does not let two items play at the same position
//! after their times were found to be apart.

use crate::amcp::InfoModel;
use crate::config::{timecode_frames, timecode_seconds, Timecode};
use crate::cue::{cue_items, info_for, is_invalid_rate, Cue};
use crate::float::{
    double, law_ceiling_is_the_next_whole_number, lemma_small_product, lemma_small_single, less,
    nearest_single, of_nat, product, quotient, rounded, rounded_u32, single, whole_double, Float32,
    Value,
};
use crate::ltc::TimecodeFrame;
use crate::media_item::{
    conflict_free, conflict_of, first_conflict, overlaps, rate_of, ItemModel,
};
use crate::rounding::{
    lemma_round_cancel, lemma_round_exact, lemma_round_monotone, lemma_round_relative,
    lemma_round_upper, lemma_round_zero, round_ratio,
};
use crate::timecode_parser::{position_of, resolved_fps, TimecodePosition};
use vstd::arithmetic::div_mod::{lemma_fundamental_div_mod, lemma_fundamental_div_mod_converse};
use vstd::arithmetic::power2::{
    lemma2_to64, lemma2_to64_rest, lemma_pow2_adds, lemma_pow2_pos, lemma_pow2_strictly_increases,
    pow2,
};
use vstd::prelude::*;

verus! {

/// How many frames a media item may play before three roundings in single precision can add up to
/// half a frame. A day at 30 frames per second has fewer.
pub const MAX_FRAMES_PLAYED: u32 = 2_796_200;

/// What a media item of `n` frames at `f / 2^149` frames per second may last, where it starts at
/// second `a` and its end is found to be no later than second `b`: less than a nanosecond more
/// than the seconds in between.
proof fn lemma_seconds_apart(n: nat, f: nat, a: nat, b: nat)
    requires
        n > 0,
        0 < f < pow2(277),
        a <= 0x10_0000,
        b <= 0x10_0000,
        ({
            let lasts = round_ratio(53, (n * pow2(1074)) * pow2(1074), f * pow2(925));
            round_ratio(53, a * pow2(1074) + lasts, 1) <= b * pow2(1074)
        }),
    ensures
        a <= b,
        (n * pow2(149)) * 0x8000_0000 <= f * ((b - a) * 0x8000_0000 + 1),
{
    let w = pow2(1074);
    let v = pow2(925);
    let z = pow2(149);
    let e = pow2(53);
    lemma2_to64_rest();
    assert(e == 0x20_0000_0000_0000);
    lemma_pow2_adds(925, 149);
    lemma_pow2_pos(925);
    lemma_pow2_pos(149);
    lemma_pow2_pos(1074);
    let exact = (n * w) * w;
    let unit = f * v;
    assert(unit > 0) by (nonlinear_arith)
        requires
            unit == f * v,
            f > 0,
            v > 0,
    ;
    // The quotient has all its bits.
    lemma_pow2_adds(277, 925);
    lemma_pow2_adds(1202, 52);
    lemma_pow2_adds(1074, 1074);
    lemma_pow2_strictly_increases(1254, 2148);
    assert(unit <= pow2(1202)) by (nonlinear_arith)
        requires
            unit == f * v,
            f <= pow2(277),
            pow2(1202) == pow2(277) * v,
    ;
    assert(exact >= w * w) by (nonlinear_arith)
        requires
            exact == (n * w) * w,
            n >= 1,
    ;
    assert(unit * pow2(52) <= pow2(1254)) by (nonlinear_arith)
        requires
            unit <= pow2(1202),
            pow2(1254) == pow2(1202) * pow2(52),
    ;
    let lasts = round_ratio(53, exact, unit);
    lemma_round_relative(53, exact, unit);
    let total = a * w + lasts;
    lemma_round_relative(53, total, 1);
    let ends = round_ratio(53, total, 1);
    let f1 = e - 1;
    assert(ends * 1 == ends);
    assert(e * ends <= e * (b * w)) by (nonlinear_arith)
        requires
            ends <= b * w,
    ;
    // (e - 1) * lasts <= w * ((e - 1) * (b - a) + b)
    let apart = b - a;
    assert(f1 * lasts <= w * (f1 * apart + b)) by (nonlinear_arith)
        requires
            f1 * total <= e * (b * w),
            total == a * w + lasts,
            f1 == e - 1,
            apart == b - a,
    ;
    assert(f1 * apart + b >= 0) by (nonlinear_arith)
        requires
            0 <= f1 * lasts <= w * (f1 * apart + b),
            w > 0,
    ;
    assert(apart >= 0);
    let room = (f1 * apart + b) as nat;
    // (e - 1)^2 * n * z <= e * f * room
    assert(f1 * exact <= e * (lasts * unit));
    assert((f1 * f1) * (n * z) <= e * (f * room)) by {
        lemma_seconds_cancel(n, f, e, f1 as nat, w, v, z, lasts, room);
    }
    let k = apart as nat;
    let two31: nat = 0x8000_0000;
    assert(two31 * (e * room) <= (f1 * f1) * (k * two31 + 1)) by (nonlinear_arith)
        requires
            e == 0x20_0000_0000_0000,
            f1 == e - 1,
            room == f1 * k + b,
            two31 == 0x8000_0000,
            0 <= k <= 0x10_0000,
            0 <= b <= 0x10_0000,
    ;
    let square = f1 * f1;
    let limit = k * two31 + 1;
    assert((n * z) * two31 <= f * limit) by (nonlinear_arith)
        requires
            square * (n * z) <= e * (f * room),
            two31 * (e * room) <= square * limit,
            square > 0,
            two31 > 0,
            f > 0,
    ;
}

proof fn lemma_seconds_cancel(
    n: nat,
    f: nat,
    e: nat,
    f1: nat,
    w: nat,
    v: nat,
    z: nat,
    lasts: nat,
    room: nat,
)
    requires
        w == v * z,
        v > 0,
        z > 0,
        f1 * ((n * w) * w) <= e * (lasts * (f * v)),
        f1 * lasts <= w * room,
    ensures
        (f1 * f1) * (n * z) <= e * (f * room),
{
    // Both sides are multiplied by `v * w`, which is not zero.
    let c = v * w;
    assert(c > 0) by (nonlinear_arith)
        requires
            c == v * w,
            w == v * z,
            v > 0,
            z > 0,
    ;
    assert(((f1 * f1) * (n * z)) * c == f1 * (f1 * ((n * w) * w))) by (nonlinear_arith)
        requires
            c == v * w,
            w == v * z,
    ;
    let g = (e * f) * v;
    assert(f1 * (f1 * ((n * w) * w)) <= f1 * (e * (lasts * (f * v)))) by (nonlinear_arith)
        requires
            f1 * ((n * w) * w) <= e * (lasts * (f * v)),
    ;
    assert(f1 * (e * (lasts * (f * v))) == g * (f1 * lasts)) by (nonlinear_arith)
        requires
            g == (e * f) * v,
    ;
    assert(g * (f1 * lasts) <= g * (w * room)) by (nonlinear_arith)
        requires
            f1 * lasts <= w * room,
    ;
    assert(g * (w * room) == (e * (f * room)) * c) by (nonlinear_arith)
        requires
            g == (e * f) * v,
            c == v * w,
    ;
    let left = (f1 * f1) * (n * z);
    let right = e * (f * room);
    assert(left <= right) by (nonlinear_arith)
        requires
            left * c <= right * c,
            c > 0,
    ;
}

/// The frames that a media item of `n` frames at `f / 2^149` frames per second plays, at `p`
/// frames of timecode per second, where it lasts less than a nanosecond more than `k` seconds:
/// no more than there are in those seconds, as long as these are not too many, and otherwise no
/// more than those of about a quarter of a second in addition.
proof fn lemma_frames_apart(n: nat, f: nat, k: nat, p: nat, whole: nat)
    requires
        0 < n <= u32::MAX,
        f > 0,
        k <= 0x10_0000,
        p <= 255,
        whole == k * p + p / 4 + 1 || (whole == k * p && whole <= MAX_FRAMES_PLAYED),
        (n * pow2(149)) * 0x8000_0000 <= f * (k * 0x8000_0000 + 1),
    ensures
        ({
            let count = round_ratio(24, n * pow2(149), 1);
            let seconds = round_ratio(24, count * pow2(149), f);
            let frames = round_ratio(24, seconds * (p * pow2(149)), pow2(149));
            &&& count < pow2(277)
            &&& seconds < pow2(277)
            &&& frames < pow2(277)
            &&& nearest_single(frames) <= whole
        }),
{
    let z = pow2(149);
    let e = pow2(24);
    lemma2_to64();
    assert(e == 0x100_0000);
    lemma_pow2_pos(149);
    let two31: nat = 0x8000_0000;
    let limit: nat = k * two31 + 1;
    let count = round_ratio(24, n * z, 1);
    let seconds = round_ratio(24, count * z, f);
    let frames = round_ratio(24, seconds * (p * z), z);
    // The number of frames of the item.
    lemma_round_relative(24, n * z, 1);
    assert(count * 1 == count);
    lemma_pow2_adds(32, 149);
    assert(n * z <= pow2(181)) by (nonlinear_arith)
        requires
            n <= pow2(32),
            pow2(181) == pow2(32) * z,
    ;
    lemma_round_upper(24, n * z, 1, 181);
    lemma_pow2_strictly_increases(181, 277);
    // The frames of timecode, from the seconds.
    assert(seconds * (p * z) == (seconds * p) * z) by (nonlinear_arith);
    lemma_round_cancel(24, seconds * p, 1, z);
    assert(1 * z == z);
    lemma_round_relative(24, seconds * p, 1);
    assert(frames * 1 == frames);
    lemma_pow2_adds(24, 125);
    lemma_pow2_adds(22, 127);
    lemma_pow2_pos(125);
    if count * z < f * pow2(23) {
        lemma_pow2_adds(23, 1);
        assert(count * z <= f * e) by (nonlinear_arith)
            requires
                count * z < f * pow2(23),
                e == pow2(23) * 2,
        ;
        lemma_round_upper(24, count * z, f, 24);
        lemma_pow2_strictly_increases(24, 277);
        lemma_pow2_strictly_increases(33, 148);
        lemma_pow2_adds(32, 1);
        lemma_pow2_strictly_increases(148, 277);
        assert(seconds * p <= e * 255) by (nonlinear_arith)
            requires
                seconds <= e,
                p <= 255,
        ;
        assert(frames <= 2 * (e * 255)) by (nonlinear_arith)
            requires
                e * frames <= (e + 1) * (seconds * p),
                seconds * p <= e * 255,
                e >= 1,
        ;
        lemma_pow2_adds(148, 1);
        lemma_small_frames(frames, z, pow2(148));
    } else {
        lemma_round_relative(24, count * z, f);
        lemma_frames_bound(n, f, p, z, e, two31, limit, count, seconds, frames);
        let exact = k * p;
        let cube = (e * e) * e;
        let upper = ((e + 1) * (e + 1)) * (e + 1);
        assert(cube == 0x100_0000_0000_0000_0000) by (nonlinear_arith)
            requires
                e == 0x100_0000,
                cube == (e * e) * e,
        ;
        assert(upper == 0x100_0003_0000_0300_0001) by (nonlinear_arith)
            requires
                e == 0x100_0000,
                upper == ((e + 1) * (e + 1)) * (e + 1),
        ;
        let bound = exact * two31 + p;
        assert(p * limit == bound) by (nonlinear_arith)
            requires
                limit == k * two31 + 1,
                exact == k * p,
                bound == exact * two31 + p,
        ;
        assert(exact <= 0x10_0000 * p) by (nonlinear_arith)
            requires
                exact == k * p,
                k <= 0x10_0000,
        ;
        assert(2 * (upper * bound) < (2 * whole + 1) * (two31 * cube)) by (nonlinear_arith)
            requires
                cube == 0x100_0000_0000_0000_0000,
                upper == 0x100_0003_0000_0300_0001,
                two31 == 0x8000_0000,
                bound == exact * two31 + p,
                exact <= 0x10_0000 * p,
                whole == exact + p / 4 + 1 || (whole == exact && whole <= 2_796_200),
                p <= 255,
        ;
        let scale = two31 * cube;
        assert(2 * frames < (2 * whole + 1) * z) by (nonlinear_arith)
            requires
                scale * frames <= (upper * bound) * z,
                2 * (upper * bound) < (2 * whole + 1) * scale,
                scale > 0,
                z > 0,
        ;
        lemma_nearest_below(frames, z, whole);
        assert(frames <= pow2(29) * z) by (nonlinear_arith)
            requires
                2 * frames < (2 * whole + 1) * z,
                whole <= 0x1000_0000,
                pow2(29) == 0x2000_0000,
        ;
        lemma_pow2_adds(29, 149);
        lemma_pow2_strictly_increases(178, 277);
        lemma_seconds_bound(n, f, z, e, two31, limit, count, seconds);
        assert(seconds <= pow2(23) * z) by (nonlinear_arith)
            requires
                two31 * seconds <= (4 * limit) * z,
                limit <= 0x10_0000 * two31 + 1,
                two31 == 0x8000_0000,
                pow2(23) == 0x80_0000,
        ;
        lemma_pow2_adds(23, 149);
        lemma_pow2_strictly_increases(172, 277);
    }
}

proof fn lemma_small_frames(frames: nat, z: nat, half: nat)
    requires
        frames < half,
        z == 2 * half,
        z == pow2(149),
    ensures
        nearest_single(frames) == 0,
{
    lemma_fundamental_div_mod_converse(
        frames as int,
        z as int,
        0,
        frames as int,
    );
}

proof fn lemma_nearest_below(frames: nat, z: nat, whole: nat)
    requires
        z > 0,
        z == pow2(149),
        2 * frames < (2 * whole + 1) * z,
    ensures
        nearest_single(frames) <= whole,
{
    let c = frames / z;
    let r = frames % z;
    lemma_fundamental_div_mod(frames as int, z as int);
    assert((2 * r >= z ==> c + 1 <= whole) && c <= whole) by (nonlinear_arith)
        requires
            frames == z * c + r,
            0 <= r < z,
            2 * frames < (2 * whole + 1) * z,
            z > 0,
    ;
}

/// Each of the three roundings adds no more than one part in `e`.
proof fn lemma_frames_bound(
    n: nat,
    f: nat,
    p: nat,
    z: nat,
    e: nat,
    two31: nat,
    limit: nat,
    count: nat,
    seconds: nat,
    frames: nat,
)
    requires
        f > 0,
        e * count <= (e + 1) * (n * z),
        e * (seconds * f) <= (e + 1) * (count * z),
        e * frames <= (e + 1) * (seconds * p),
        (n * z) * two31 <= f * limit,
    ensures
        (two31 * ((e * e) * e)) * frames <= ((((e + 1) * (e + 1)) * (e + 1)) * (p * limit)) * z,
{
    let g = e + 1;
    let cube = (e * e) * e;
    let upper = (g * g) * g;
    let a = e * e;
    // e^3 * frames * f <= (e + 1)^3 * p * n * z * z
    assert((a * f) * (e * frames) <= (a * f) * (g * (seconds * p))) by (nonlinear_arith)
        requires
            e * frames <= g * (seconds * p),
    ;
    assert((a * f) * (g * (seconds * p)) == ((e * g) * p) * (e * (seconds * f)))
        by (nonlinear_arith)
        requires
            a == e * e,
    ;
    assert(((e * g) * p) * (e * (seconds * f)) <= ((e * g) * p) * (g * (count * z)))
        by (nonlinear_arith)
        requires
            e * (seconds * f) <= g * (count * z),
    ;
    assert(((e * g) * p) * (g * (count * z)) == (((g * g) * p) * z) * (e * count))
        by (nonlinear_arith);
    assert((((g * g) * p) * z) * (e * count) <= (((g * g) * p) * z) * (g * (n * z)))
        by (nonlinear_arith)
        requires
            e * count <= g * (n * z),
    ;
    assert((((g * g) * p) * z) * (g * (n * z)) == ((upper * p) * z) * (n * z))
        by (nonlinear_arith)
        requires
            upper == (g * g) * g,
    ;
    let left = (a * f) * (e * frames);
    let right = ((upper * p) * z) * (n * z);
    assert(left * two31 <= right * two31) by (nonlinear_arith)
        requires
            left <= right,
    ;
    let h = (upper * p) * z;
    assert(right * two31 == h * ((n * z) * two31)) by (nonlinear_arith)
        requires
            right == h * (n * z),
    ;
    assert(h * ((n * z) * two31) <= h * (f * limit)) by (nonlinear_arith)
        requires
            (n * z) * two31 <= f * limit,
    ;
    assert(left * two31 == ((two31 * cube) * frames) * f) by (nonlinear_arith)
        requires
            left == (a * f) * (e * frames),
            a == e * e,
            cube == (e * e) * e,
    ;
    assert(h * (f * limit) == ((upper * (p * limit)) * z) * f) by (nonlinear_arith)
        requires
            h == (upper * p) * z,
    ;
    let x = (two31 * cube) * frames;
    let y = (upper * (p * limit)) * z;
    assert(x <= y) by (nonlinear_arith)
        requires
            x * f <= y * f,
            f > 0,
    ;
}

proof fn lemma_seconds_bound(
    n: nat,
    f: nat,
    z: nat,
    e: nat,
    two31: nat,
    limit: nat,
    count: nat,
    seconds: nat,
)
    requires
        f > 0,
        e > 0,
        e * count <= (e + 1) * (n * z),
        e * (seconds * f) <= (e + 1) * (count * z),
        (n * z) * two31 <= f * limit,
    ensures
        two31 * seconds <= (4 * limit) * z,
{
    assert(count <= 2 * (n * z)) by (nonlinear_arith)
        requires
            e * count <= (e + 1) * (n * z),
            e >= 1,
    ;
    assert(seconds * f <= 2 * (count * z)) by (nonlinear_arith)
        requires
            e * (seconds * f) <= (e + 1) * (count * z),
            e >= 1,
    ;
    assert(count * z <= (2 * (n * z)) * z) by (nonlinear_arith)
        requires
            count <= 2 * (n * z),
    ;
    assert((seconds * f) * two31 <= (4 * ((n * z) * z)) * two31) by (nonlinear_arith)
        requires
            seconds * f <= 2 * (count * z),
            count * z <= (2 * (n * z)) * z,
    ;
    assert((4 * ((n * z) * z)) * two31 == (4 * z) * ((n * z) * two31)) by (nonlinear_arith);
    assert((4 * z) * ((n * z) * two31) <= (4 * z) * (f * limit)) by (nonlinear_arith)
        requires
            (n * z) * two31 <= f * limit,
    ;
    let x = two31 * seconds;
    let y = (4 * limit) * z;
    assert(x * f == (seconds * f) * two31) by (nonlinear_arith)
        requires
            x == two31 * seconds,
    ;
    assert(y * f == (4 * z) * (f * limit)) by (nonlinear_arith)
        requires
            y == (4 * limit) * z,
    ;
    assert(x <= y) by (nonlinear_arith)
        requires
            x * f <= y * f,
            f > 0,
    ;
}

/// Whether a value is one of single precision.
pub open spec fn is_single(value: Value) -> bool {
    value matches Value::Finite { units, .. } ==> units < pow2(277)
}

/// What an encoding in single precision stands for is a value of single precision.
pub proof fn law_encodings_are_single(number: Float32)
    ensures
        is_single(number@),
{
    lemma2_to64();
    let bits = (number.bits % 0x8000_0000) as nat;
    let leading = pow2(23);
    let fraction = bits % leading;
    let exponent = bits / leading;
    assert(leading == 0x80_0000);
    if exponent == 0 {
        lemma_pow2_strictly_increases(23, 277);
    } else if exponent < 255 {
        let s = (exponent - 1) as nat;
        lemma_pow2_pos(s);
        lemma_pow2_adds(24, s);
        if s < 253 {
            lemma_pow2_strictly_increases((24 + s) as nat, 277);
        }
        assert((leading + fraction) * pow2(s) < pow2(24) * pow2(s)) by (nonlinear_arith)
            requires
                leading + fraction < pow2(24),
                pow2(s) > 0,
        ;
    }
}

proof fn lemma_small_double(n: nat)
    requires
        n <= pow2(53),
    ensures
        of_nat(double(), n) == (Value::Finite { negative: false, units: n * pow2(1074) }),
{
    lemma_round_exact(53, n, 1074);
    lemma_pow2_pos(1074);
    lemma_pow2_adds(53, 1074);
    assert(n * pow2(1074) <= pow2(1127)) by (nonlinear_arith)
        requires
            n <= pow2(53),
            pow2(1127) == pow2(53) * pow2(1074),
    ;
    lemma_pow2_strictly_increases(1127, 2098);
}

/// Whether single precision holds a number of frames.
pub open spec fn is_exact(frames: nat) -> bool {
    of_nat(single(), frames) == (Value::Finite { negative: false, units: frames * pow2(149) })
}

/// At a whole frame rate a timecode stands at the frame that counting gives, as long as single
/// precision holds the frames of its whole seconds. It does for the timecodes of a day at any
/// frame rate that timecode reports.
pub proof fn law_timecode_frames_are_counted(timecode: Timecode, fps: u8)
    requires
        is_exact(timecode_seconds(timecode) * fps as nat),
    ensures
        timecode_frames(timecode, of_nat(single(), fps as nat)) == timecode_seconds(timecode)
            * fps as nat + timecode.frames,
{
    let seconds = timecode_seconds(timecode);
    let frames = seconds * fps as nat;
    lemma2_to64();
    lemma_small_product(seconds, fps as nat);
    lemma_pow2_pos(149);
    lemma_fundamental_div_mod_converse(
        (frames * pow2(149)) as int,
        pow2(149) as int,
        frames as int,
        0,
    );
    assert(frames <= 933_555 * 255) by (nonlinear_arith)
        requires
            frames == seconds * fps as nat,
            seconds <= 933_555,
            fps <= 255,
    ;
}

/// Every number of frames up to `2^24` can be told apart.
pub proof fn law_small_counts_are_exact(frames: nat)
    requires
        frames <= 0x100_0000,
    ensures
        is_exact(frames),
{
    lemma2_to64();
    lemma_small_single(frames);
}

proof fn lemma_no_offset(position: TimecodePosition, server_fps: Value)
    ensures
        rounded_u32(
            quotient(
                single(),
                product(single(), of_nat(single(), 0), server_fps),
                rate_of(position),
            ),
        ) == 0,
{
    lemma2_to64();
    lemma_small_single(0);
    lemma_small_single(position.fps as nat);
    lemma_pow2_pos(149);
    lemma_pow2_pos(277);
    assert(0 * pow2(149) == 0) by (nonlinear_arith);
    let start = product(single(), of_nat(single(), 0), server_fps);
    match server_fps {
        Value::Finite { negative, units } => {
            assert(0 * units == 0) by (nonlinear_arith);
            lemma_round_zero(24, pow2(149));
            assert(start == (Value::Finite { negative, units: 0 }));
        },
        _ => {},
    }
    let rate = position.fps as nat * pow2(149);
    if rate > 0 {
        lemma_round_zero(24, rate);
    }
    lemma_fundamental_div_mod_converse(0, pow2(149) as int, 0, 0);
}

/// At the first frame at which a media item plays, it plays from its own first frame, whatever
/// the output delay and the frame rate of the server.
pub proof fn law_media_starts_at_its_first_frame(
    item: ItemModel,
    position: TimecodePosition,
    server_fps: Value,
)
    requires
        position.total_frames == item.start_frame(rate_of(position)),
    ensures
        item.offset(position, server_fps) == 0,
        item.active(position) <==> item.duration(rate_of(position)) > 0,
{
    lemma_no_offset(position, server_fps);
}

/// When the start timecode of a media item without output delay is received, the item starts at
/// frame 0.
pub proof fn law_start_timecode_starts_media(
    item: ItemModel,
    frame: TimecodeFrame,
    fallback_fps: u8,
    server_fps: Value,
)
    requires
        item.output_delay_frames == 0,
        frame.hours == item.start_tc.hours,
        frame.minutes == item.start_tc.minutes,
        frame.seconds == item.start_tc.seconds,
        frame.frames == item.start_tc.frames,
        is_exact(
            timecode_seconds(item.start_tc) * resolved_fps(
                frame.frames_per_second,
                fallback_fps,
            ) as nat,
        ),
    ensures
        ({
            let position = position_of(frame, fallback_fps);
            &&& item.start_frame(rate_of(position)) == position.total_frames
            &&& item.offset(position, server_fps) == 0
            &&& item.active(position) <==> item.duration(rate_of(position)) > 0
        }),
{
    let position = position_of(frame, fallback_fps);
    law_timecode_frames_are_counted(item.start_tc, position.fps);
    let seconds = timecode_seconds(item.start_tc);
    assert(seconds * position.fps as nat <= 933_555 * 255) by (nonlinear_arith)
        requires
            seconds <= 933_555,
            position.fps <= 255,
    ;
    law_media_starts_at_its_first_frame(item, position, server_fps);
}

/// An output delay shifts a media item to earlier frames of the timeline, as far as it goes, and
/// changes nothing else: at a frame that is earlier by the delay, the item is active where it
/// would be without delay, and seeks to the same frame.
pub proof fn law_output_delay_shifts_media(
    item: ItemModel,
    earlier: TimecodePosition,
    position: TimecodePosition,
    server_fps: Value,
)
    requires
        position.fps == earlier.fps,
        position.total_frames == earlier.total_frames + item.output_delay_frames,
        item.output_delay_frames <= timecode_frames(item.start_tc, rate_of(position)),
    ensures
        ({
            let prompt = ItemModel { output_delay_frames: 0, ..item };
            &&& item.active(earlier) <==> prompt.active(position)
            &&& item.offset(earlier, server_fps) == prompt.offset(position, server_fps)
            &&& item.start_frame(rate_of(position)) + item.output_delay_frames
                == prompt.start_frame(rate_of(position))
        }),
{
}

proof fn lemma_nearest_is(units: nat, z: nat, n: nat)
    requires
        z > 0,
        z == pow2(149),
        (2 * n - 1) * z <= 2 * units < (2 * n + 1) * z,
    ensures
        nearest_single(units) == n,
{
    let c = units / z;
    let r = units % z;
    lemma_fundamental_div_mod(units as int, z as int);
    assert((2 * r >= z && c + 1 == n) || (2 * r < z && c == n)) by (nonlinear_arith)
        requires
            units == z * c + r,
            0 <= r < z,
            (2 * n - 1) * z <= 2 * units < (2 * n + 1) * z,
            z > 0,
    ;
}

/// A number of frames that is not too large comes back when it is multiplied by a frame rate and
/// divided by it, though both results are rounded.
proof fn lemma_rounded_there_and_back(n: nat, p: nat, z: nat, there: nat, back: nat)
    requires
        n < 0x40_0000,
        p > 0,
        z > 0,
        0xff_ffff * (n * p * z) <= 0x100_0000 * there <= 0x100_0001 * (n * p * z),
        0xff_ffff * there <= 0x100_0000 * (back * p) <= 0x100_0001 * there,
    ensures
        (2 * n - 1) * z <= 2 * back < (2 * n + 1) * z,
{
    let e: nat = 0x100_0000;
    let exact = n * p * z;
    assert(e * (e * (back * p)) <= (e + 1) * ((e + 1) * exact)) by (nonlinear_arith)
        requires
            e * there <= (e + 1) * exact,
            e * (back * p) <= (e + 1) * there,
    ;
    assert((e - 1) * ((e - 1) * exact) <= e * (e * (back * p))) by (nonlinear_arith)
        requires
            (e - 1) * exact <= e * there,
            (e - 1) * there <= e * (back * p),
            e >= 1,
    ;
    assert(exact == (n * z) * p) by (nonlinear_arith)
        requires
            exact == n * p * z,
    ;
    let square = e * e;
    let up = (e + 1) * (e + 1);
    let down = (e - 1) * (e - 1);
    assert(square == 0x1_0000_0000_0000 && up == 0x1_0000_0200_0001 && down
        == 0xffff_fe00_0001) by (nonlinear_arith)
        requires
            e == 0x100_0000,
            square == e * e,
            up == (e + 1) * (e + 1),
            down == (e - 1) * (e - 1),
    ;
    assert(square * back <= up * (n * z)) by (nonlinear_arith)
        requires
            e * (e * (back * p)) <= (e + 1) * ((e + 1) * exact),
            exact == (n * z) * p,
            square == e * e,
            up == (e + 1) * (e + 1),
            p > 0,
    ;
    assert(down * (n * z) <= square * back) by (nonlinear_arith)
        requires
            (e - 1) * ((e - 1) * exact) <= e * (e * (back * p)),
            exact == (n * z) * p,
            square == e * e,
            down == (e - 1) * (e - 1),
            p > 0,
    ;
    assert(2 * (up * n) < (2 * n + 1) * square);
    assert((2 * n - 1) * square <= 2 * (down * n));
    assert(2 * back < (2 * n + 1) * z) by (nonlinear_arith)
        requires
            square * back <= up * (n * z),
            2 * (up * n) < (2 * n + 1) * square,
            square > 0,
            z > 0,
    ;
    assert((2 * n - 1) * z <= 2 * back) by (nonlinear_arith)
        requires
            down * (n * z) <= square * back,
            (2 * n - 1) * square <= 2 * (down * n),
            square > 0,
            z > 0,
    ;
}

/// Frames that were multiplied by a whole rate and divided by another one, where the exact result
/// is the whole number `q`.
proof fn lemma_whole_rates(q: nat, p: nat)
    requires
        q < 0x40_0000,
        0 < p <= 255,
    ensures
        rounded_u32(
            quotient(
                single(),
                rounded(single(), false, (q * p) * pow2(149), 1),
                of_nat(single(), p),
            ),
        ) == q,
{
    let z = pow2(149);
    lemma2_to64();
    lemma_small_single(p);
    lemma_pow2_pos(149);
    let rate = p * z;
    assert(rate > 0) by (nonlinear_arith)
        requires
            rate == p * z,
            p > 0,
            z > 0,
    ;
    let exact = (q * p) * z;
    let there = round_ratio(24, exact, 1);
    assert(q * p <= 0x40_0000 * 255) by (nonlinear_arith)
        requires
            q <= 0x40_0000,
            p <= 255,
    ;
    lemma_pow2_adds(30, 149);
    assert(exact <= pow2(179)) by (nonlinear_arith)
        requires
            exact == (q * p) * z,
            q * p <= 0x4000_0000,
            pow2(30) == 0x4000_0000,
            pow2(179) == pow2(30) * z,
    ;
    lemma_round_upper(24, exact, 1, 179);
    lemma_pow2_strictly_increases(179, 277);
    assert(there * 1 == there);
    if q == 0 {
        assert(exact == 0) by (nonlinear_arith)
            requires
                exact == (q * p) * z,
                q == 0,
        ;
        lemma_round_zero(24, 1);
        assert(0 * z == 0) by (nonlinear_arith);
        lemma_round_zero(24, rate);
        lemma_pow2_pos(277);
        lemma_fundamental_div_mod_converse(0, z as int, 0, 0);
    } else {
        lemma_round_relative(24, exact, 1);
        // The quotient has all its bits.
        lemma_pow2_adds(24, 125);
        lemma_pow2_strictly_increases(23, 24);
        lemma_pow2_strictly_increases(9, 125);
        assert(exact >= z) by (nonlinear_arith)
            requires
                exact == (q * p) * z,
                q >= 1,
                p >= 1,
        ;
        assert(2 * there >= pow2(24) * (2 * 255)) by (nonlinear_arith)
            requires
                2 * there >= z,
                z == pow2(24) * pow2(125),
                pow2(125) >= 2 * 255,
        ;
        lemma_round_cancel(24, there, p, z);
        assert(there >= p * pow2(23)) by (nonlinear_arith)
            requires
                there >= pow2(24) * 255,
                p <= 255,
                pow2(23) <= pow2(24),
        ;
        lemma_round_relative(24, there, p);
        let back = round_ratio(24, there, p);
        assert(there <= p * pow2(179)) by (nonlinear_arith)
            requires
                there <= pow2(179),
                p >= 1,
        ;
        lemma_round_upper(24, there, p, 179);
        lemma_rounded_there_and_back(q, p, z, there, back);
        lemma_nearest_is(back, z, q);
    }
}

/// Where the server runs at a whole number of frames per second, and timecode has come as far as
/// the whole number `q` of these frames, the frame to seek to is exactly `q`.
pub proof fn law_whole_rates_seek_exactly(
    item: ItemModel,
    position: TimecodePosition,
    server_fps: nat,
    q: nat,
)
    requires
        position.fps > 0,
        item.start_frame(rate_of(position)) <= position.total_frames,
        position.total_frames - item.start_frame(rate_of(position)) <= 0x100_0000,
        server_fps <= 0x100_0000,
        q < 0x40_0000,
        (position.total_frames - item.start_frame(rate_of(position))) * server_fps == q
            * position.fps,
    ensures
        item.offset(position, of_nat(single(), server_fps)) == q,
{
    let n = (position.total_frames - item.start_frame(rate_of(position))) as nat;
    lemma2_to64();
    lemma_small_product(n, server_fps);
    lemma_whole_rates(q, position.fps as nat);
}

/// A server that runs at `k` times the frame rate of timecode is `k` times as many frames in as
/// timecode is past the start.
pub proof fn law_multiple_rates_multiply_the_seek_frame(
    item: ItemModel,
    position: TimecodePosition,
    k: nat,
)
    requires
        position.fps > 0,
        item.start_frame(rate_of(position)) <= position.total_frames,
        position.total_frames - item.start_frame(rate_of(position)) <= 0x100_0000,
        k * position.fps <= 0x100_0000,
        k * (position.total_frames - item.start_frame(rate_of(position))) < 0x40_0000,
    ensures
        item.offset(position, of_nat(single(), k * position.fps as nat)) == k * (
        position.total_frames - item.start_frame(rate_of(position))),
{
    let n = (position.total_frames - item.start_frame(rate_of(position))) as nat;
    let p = position.fps as nat;
    assert(n * (k * p) == (k * n) * p) by (nonlinear_arith);
    law_whole_rates_seek_exactly(item, position, k * p, k * n);
}

/// Where the server runs at the frame rate of timecode, a media item is as many frames in as
/// timecode is past its start, as long as these frames are not too many.
pub proof fn law_equal_rates_seek_frame_by_frame(item: ItemModel, position: TimecodePosition)
    requires
        position.fps > 0,
        item.start_frame(rate_of(position)) <= position.total_frames,
        ({
            let n = (position.total_frames - item.start_frame(rate_of(position))) as nat;
            n < 0x40_0000 || (n <= 0x100_0000 && is_exact(n * position.fps as nat))
        }),
    ensures
        item.offset(position, rate_of(position)) == position.total_frames - item.start_frame(
            rate_of(position),
        ),
{
    let n = (position.total_frames - item.start_frame(rate_of(position))) as nat;
    let p = position.fps as nat;
    let z = pow2(149);
    lemma2_to64();
    lemma_small_single(n);
    lemma_small_single(p);
    lemma_small_product(n, p);
    lemma_pow2_pos(149);
    if n < 0x40_0000 {
        lemma_whole_rates(n, p);
    } else {
        let rate = p * z;
        assert(rate > 0) by (nonlinear_arith)
            requires
                rate == p * z,
                p > 0,
                z > 0,
        ;
        assert(((n * p) * z) * z == (n * z) * rate) by (nonlinear_arith)
            requires
                rate == p * z,
        ;
        lemma_round_cancel(24, n * z, 1, rate);
        assert(1 * rate == rate);
        lemma_fundamental_div_mod_converse(
            (n * z) as int,
            z as int,
            n as int,
            0,
        );
    }
}

/// The second from which a media item is taken to play: that of its start, or the next one where
/// it starts at frames within a second.
pub open spec fn start_second(item: ItemModel) -> int {
    timecode_seconds(item.start_tc) + if item.start_tc.frames > 0 {
        1int
    } else {
        0int
    }
}

/// The second at which a media item ends.
pub open spec fn end_second(item: ItemModel) -> int {
    match item.end_secs() {
        Value::Finite { units, .. } => (units / pow2(1074)) as int,
        _ => 0,
    }
}

/// Whether a media item ends before another one starts, in seconds.
pub open spec fn ends_before(a: ItemModel, b: ItemModel) -> bool {
    !less(b.start_secs(), a.end_secs())
}

/// By how many frames the output delay of a media item goes past the start of the timeline.
pub open spec fn held_back(item: ItemModel, position: TimecodePosition) -> int {
    let start = timecode_frames(item.start_tc, rate_of(position));
    if item.output_delay_frames > start {
        item.output_delay_frames - start
    } else {
        0
    }
}

/// Where `a` ends before `b` starts, the frames between them are enough, if `a` plays any. It is
/// enough that those of one second are left. None need be left where single precision holds the
/// frames at which they start, and those that `a` plays are not too many.
pub open spec fn leaves_room(a: ItemModel, b: ItemModel, position: TimecodePosition) -> bool {
    let seconds = end_second(a) - start_second(a);
    let between = timecode_seconds(b.start_tc) - timecode_seconds(a.start_tc) - seconds;
    let left = between * position.fps + b.start_tc.frames - a.start_tc.frames - held_back(
        a,
        position,
    );
    ||| a.duration(rate_of(position)) == 0
    ||| left >= position.fps
    ||| {
        &&& left >= 0
        &&& seconds * position.fps <= MAX_FRAMES_PLAYED
        &&& is_exact(timecode_seconds(a.start_tc) * position.fps as nat)
        &&& is_exact(timecode_seconds(b.start_tc) * position.fps as nat)
    }
}

proof fn lemma_duration(item: ItemModel, position: TimecodePosition, f: nat)
    requires
        item.fps == (Value::Finite { negative: false, units: f }),
        f > 0,
        ({
            let count = round_ratio(24, item.duration_frames as nat * pow2(149), 1);
            let seconds = round_ratio(24, count * pow2(149), f);
            let frames = round_ratio(
                24,
                seconds * (position.fps as nat * pow2(149)),
                pow2(149),
            );
            &&& count < pow2(277)
            &&& seconds < pow2(277)
            &&& frames < pow2(277)
            &&& nearest_single(frames) <= u32::MAX
        }),
    ensures
        ({
            let count = round_ratio(24, item.duration_frames as nat * pow2(149), 1);
            let seconds = round_ratio(24, count * pow2(149), f);
            let frames = round_ratio(
                24,
                seconds * (position.fps as nat * pow2(149)),
                pow2(149),
            );
            item.duration(rate_of(position)) == nearest_single(frames)
        }),
{
    lemma2_to64();
    lemma_small_single(position.fps as nat);
}

proof fn lemma_no_duration(item: ItemModel, position: TimecodePosition)
    requires
        !is_invalid_rate(item.fps),
        item.duration_frames == 0 || !(item.fps is Finite),
    ensures
        item.duration(rate_of(position)) == 0,
{
    lemma2_to64();
    lemma_small_single(position.fps as nat);
    lemma_pow2_pos(149);
    lemma_pow2_pos(277);
    let n = item.duration_frames as nat;
    let count = of_nat(single(), n);
    lemma_round_upper_single(n);
    assert(count is Finite);
    let seconds = quotient(single(), count, item.fps);
    if n == 0 {
        lemma_small_single(0);
        assert(0 * pow2(149) == 0) by (nonlinear_arith);
        match item.fps {
            Value::Finite { units, .. } => {
                lemma_round_zero(24, units);
            },
            _ => {},
        }
    }
    if seconds is Finite {
        let rate = (position.fps as nat * pow2(149)) as nat;
        assert(0 * rate == 0) by (nonlinear_arith);
        lemma_round_zero(24, pow2(149));
        lemma_fundamental_div_mod_converse(
            0,
            pow2(149) as int,
            0,
            0,
        );
    }
}

proof fn lemma_round_upper_single(n: nat)
    requires
        n <= u32::MAX,
    ensures
        of_nat(single(), n) is Finite,
{
    lemma2_to64();
    lemma_pow2_pos(149);
    lemma_pow2_adds(32, 149);
    assert(n * pow2(149) <= pow2(181)) by (nonlinear_arith)
        requires
            n <= pow2(32),
            pow2(181) == pow2(32) * pow2(149),
    ;
    lemma_round_upper(24, n * pow2(149), 1, 181);
    lemma_pow2_strictly_increases(181, 277);
}

/// A timecode stands no further from the frame that counting gives than single precision rounds.
proof fn lemma_timecode_frames_near(timecode: Timecode, fps: u8)
    ensures
        ({
            let exact = timecode_seconds(timecode) * fps as nat;
            let frames = timecode_frames(timecode, of_nat(single(), fps as nat)) - timecode.frames;
            &&& 0x100_0000 * frames <= 0x100_0001 * exact
            &&& 0xff_ffff * exact <= 0x100_0000 * (frames + 1)
        }),
{
    let seconds = timecode_seconds(timecode);
    let exact = seconds * fps as nat;
    let z = pow2(149);
    lemma2_to64();
    lemma_pow2_pos(149);
    lemma_small_product(seconds, fps as nat);
    assert(exact <= pow2(28)) by (nonlinear_arith)
        requires
            exact == seconds * fps as nat,
            seconds <= 933_555,
            fps <= 255,
            pow2(28) == 0x1000_0000,
    ;
    lemma_pow2_adds(28, 149);
    assert(exact * z <= pow2(177)) by (nonlinear_arith)
        requires
            exact <= pow2(28),
            pow2(177) == pow2(28) * z,
    ;
    lemma_round_upper(24, exact * z, 1, 177);
    lemma_pow2_strictly_increases(177, 277);
    lemma_round_relative(24, exact * z, 1);
    let units = round_ratio(24, exact * z, 1);
    assert(units * 1 == units);
    let count = units / z;
    lemma_fundamental_div_mod(units as int, z as int);
    assert(count <= pow2(28)) by (nonlinear_arith)
        requires
            units == z * count + units % z,
            units % z >= 0,
            units <= pow2(28) * z,
            z > 0,
    ;
    let rest = (units % z) as int;
    assert(0x100_0000 * count <= 0x100_0001 * exact) by (nonlinear_arith)
        requires
            units == z * count + rest,
            0 <= rest,
            0x100_0000 * units <= 0x100_0001 * (exact * z),
            z > 0,
    ;
    assert(0xff_ffff * exact <= 0x100_0000 * (count + 1)) by (nonlinear_arith)
        requires
            units == z * count + rest,
            rest < z,
            0xff_ffff * (exact * z) <= 0x100_0000 * units,
            z > 0,
    ;
}

/// How much the frames between two timecodes are off because of rounding: by no more than those of
/// three quarters of a second.
proof fn lemma_starts_apart(earlier: Timecode, later: Timecode, fps: u8)
    requires
        fps > 0,
    ensures
        ({
            let rate = of_nat(single(), fps as nat);
            let first = timecode_seconds(earlier) * fps as nat;
            let second = timecode_seconds(later) * fps as nat;
            let from = timecode_frames(earlier, rate) - earlier.frames;
            let to = timecode_frames(later, rate) - later.frames;
            from - first + fps / 4 + 1 <= to - second + fps
        }),
{
    let first = timecode_seconds(earlier) * fps as nat;
    let second = timecode_seconds(later) * fps as nat;
    assert(first <= 933_555 * fps && second <= 933_555 * fps) by (nonlinear_arith)
        requires
            first == timecode_seconds(earlier) * fps as nat,
            second == timecode_seconds(later) * fps as nat,
            timecode_seconds(earlier) <= 933_555,
            timecode_seconds(later) <= 933_555,
    ;
    if fps <= 17 {
        law_small_counts_are_exact(first);
        law_small_counts_are_exact(second);
        law_timecode_frames_are_counted(earlier, fps);
        law_timecode_frames_are_counted(later, fps);
    } else {
        lemma_timecode_frames_near(earlier, fps);
        lemma_timecode_frames_near(later, fps);
    }
}

/// The second at which a media item ends that ends before another one starts, and what it may last
/// then.
proof fn lemma_end_second(a: ItemModel, b: ItemModel)
    requires
        a.duration_frames > 0,
        is_single(a.fps),
        !is_invalid_rate(a.fps),
        a.fps is Finite,
        ends_before(a, b),
    ensures
        start_second(a) <= end_second(a) <= timecode_seconds(b.start_tc),
        a.fps == (Value::Finite { negative: false, units: a.fps->units }),
        a.fps->units > 0,
        (a.duration_frames * pow2(149)) * 0x8000_0000 <= a.fps->units * ((end_second(a)
            - start_second(a)) * 0x8000_0000 + 1),
{
    let n = a.duration_frames as nat;
    let f = a.fps->units;
    let w = pow2(1074);
    let start = start_second(a) as nat;
    let other = timecode_seconds(b.start_tc);
    lemma2_to64();
    lemma2_to64_rest();
    lemma_pow2_pos(925);
    lemma_pow2_pos(1074);
    lemma_small_double(start);
    lemma_small_double(other);
    lemma_small_double(n);
    assert(f * pow2(925) > 0) by (nonlinear_arith)
        requires
            f > 0,
            pow2(925) > 0,
    ;
    let lasts = round_ratio(53, (n * w) * w, f * pow2(925));
    let total = start * w + lasts;
    if total == 0 {
        lemma_round_zero(53, 1);
    }
    let sum = round_ratio(53, total, 1);
    let end = whole_double(sum, true);
    law_ceiling_is_the_next_whole_number(false, sum);
    assert(a.end_secs() == (Value::Finite { negative: false, units: end * w }));
    lemma_fundamental_div_mod_converse((end * w) as int, w as int, end as int, 0);
    assert(end <= other) by (nonlinear_arith)
        requires
            end * w <= other * w,
            w > 0,
    ;
    lemma_seconds_apart(n, f, start, end);
}

/// A media item that ends before another one starts, in seconds, ends before it in frames.
proof fn lemma_ends_before(a: ItemModel, b: ItemModel, position: TimecodePosition)
    requires
        is_single(a.fps),
        !is_invalid_rate(a.fps),
        a.output_delay_frames == b.output_delay_frames,
        ends_before(a, b),
        leaves_room(a, b, position),
    ensures
        a.duration(rate_of(position)) == 0 || a.end_frame(rate_of(position)) <= b.start_frame(
            rate_of(position),
        ),
{
    let n = a.duration_frames as nat;
    let p = position.fps as nat;
    if n == 0 || !(a.fps is Finite) {
        lemma_no_duration(a, position);
    } else if a.duration(rate_of(position)) > 0 {
        lemma_end_second(a, b);
        let f = a.fps->units;
        let first = timecode_seconds(a.start_tc);
        let other = timecode_seconds(b.start_tc);
        let k = (end_second(a) - start_second(a)) as nat;
        let between = other - first - k;
        assert(between * p == other * p - first * p - k * p) by (nonlinear_arith)
            requires
                between == other - first - k,
        ;
        assert(k * p <= 0xf_ffff * 255) by (nonlinear_arith)
            requires
                k <= 0xf_ffff,
                p <= 255,
        ;
        let left = between * p + b.start_tc.frames - a.start_tc.frames - held_back(a, position);
        if p > 0 && left >= p {
            lemma_frames_apart(n, f, k, p, k * p + p / 4 + 1);
            lemma_duration(a, position, f);
            lemma_starts_apart(a.start_tc, b.start_tc, position.fps);
        } else {
            if p == 0 {
                assert(first * p == 0 && other * p == 0 && k * p == 0) by (nonlinear_arith)
                    requires
                        p == 0,
                ;
                law_small_counts_are_exact(0);
            }
            lemma_frames_apart(n, f, k, p, k * p);
            lemma_duration(a, position, f);
            law_timecode_frames_are_counted(a.start_tc, position.fps);
            law_timecode_frames_are_counted(b.start_tc, position.fps);
        }
    }
}

/// Two media items on a layer that do not conflict never play at the same position, where the one
/// that ends before the other starts leaves room for its rounded frames.
pub proof fn law_media_without_conflict_never_plays_together(
    items: Seq<ItemModel>,
    i: int,
    j: int,
    position: TimecodePosition,
)
    requires
        conflict_free(items),
        0 <= i < items.len(),
        0 <= j < items.len(),
        i != j,
        items[i].layer == items[j].layer,
        items[i].output_delay_frames == items[j].output_delay_frames,
        is_single(items[i].fps) && !is_invalid_rate(items[i].fps),
        is_single(items[j].fps) && !is_invalid_rate(items[j].fps),
        ends_before(items[i], items[j]) ==> leaves_room(items[i], items[j], position),
        ends_before(items[j], items[i]) ==> leaves_room(items[j], items[i], position),
    ensures
        !(items[i].active(position) && items[j].active(position)),
{
    let a = items[i];
    let b = items[j];
    if i < j {
        assert(!overlaps(items[i], items[j]));
    } else {
        assert(!overlaps(items[j], items[i]));
    }
    if ends_before(a, b) {
        lemma_ends_before(a, b, position);
    } else {
        lemma_ends_before(b, a, position);
    }
}

/// Media items of a day leave room at every frame rate that timecode reports, where the earlier
/// one starts at a frame that its second has, and is not delayed past the start of the timeline.
pub proof fn law_media_of_a_day_leaves_room(a: ItemModel, b: ItemModel, position: TimecodePosition)
    requires
        position.fps <= 30,
        timecode_seconds(a.start_tc) < 86_400,
        timecode_seconds(b.start_tc) < 86_400,
        a.start_tc.frames <= position.fps,
        a.output_delay_frames <= timecode_frames(a.start_tc, rate_of(position)),
        is_single(a.fps) && !is_invalid_rate(a.fps),
        ends_before(a, b),
    ensures
        leaves_room(a, b, position),
{
    if a.duration_frames == 0 || !(a.fps is Finite) {
        lemma_no_duration(a, position);
    } else {
        let p = position.fps as nat;
        let first = timecode_seconds(a.start_tc);
        let other = timecode_seconds(b.start_tc);
        let seconds = end_second(a) - start_second(a);
        let between = other - first - seconds;
        lemma_end_second(a, b);
        assert(first * p <= 86_400 * 30 && other * p <= 86_400 * 30) by (nonlinear_arith)
            requires
                first <= 86_400,
                other <= 86_400,
                p <= 30,
        ;
        law_small_counts_are_exact(first * p);
        law_small_counts_are_exact(other * p);
        assert(seconds * p <= 86_400 * 30) by (nonlinear_arith)
            requires
                seconds <= 86_400,
                p <= 30,
        ;
        assert(a.start_tc.frames <= between * p) by (nonlinear_arith)
            requires
                a.start_tc.frames <= p,
                a.start_tc.frames == 0 || between >= 1,
                between >= 0,
        ;
    }
}

proof fn lemma_info_is_listed(infos: Seq<InfoModel>, file: Seq<char>)
    ensures
        info_for(infos, file) matches Some(info) ==> infos.contains(info),
    decreases infos.len(),
{
    if infos.len() > 0 && infos[0].filename != file {
        lemma_info_is_listed(infos.drop_first(), file);
        match info_for(infos, file) {
            Some(info) => {
                let k = choose|k: int| 0 <= k < infos.drop_first().len() && infos.drop_first()[k]
                    == info;
                assert(infos[k + 1] == info);
            },
            None => {},
        }
    }
}

proof fn lemma_items_of_cues(cues: Seq<Cue>, infos: Seq<InfoModel>, delay: u32, i: int)
    requires
        cue_items(cues, infos, delay) is Ok,
        0 <= i < cue_items(cues, infos, delay)->Ok_0.len(),
    ensures
        ({
            let item = cue_items(cues, infos, delay)->Ok_0[i];
            &&& item.output_delay_frames == delay
            &&& !is_invalid_rate(item.fps)
            &&& exists|info: InfoModel| #[trigger]
                infos.contains(info) && item.fps == info.frame_rate
        }),
    decreases cues.len(),
{
    if cues.len() > 0 {
        let before = cue_items(cues.drop_last(), infos, delay)->Ok_0;
        if i < before.len() {
            lemma_items_of_cues(cues.drop_last(), infos, delay, i);
        } else {
            lemma_info_is_listed(infos, cues.last().file);
        }
    }
}

/// Of the media items that a controller is set up with, no two are active on a layer at the same
/// position, where the one that ends before the other starts leaves room for its rounded frames.
pub proof fn law_accepted_media_never_plays_together(
    cues: Seq<Cue>,
    infos: Seq<InfoModel>,
    delay: u32,
    i: int,
    j: int,
    position: TimecodePosition,
)
    requires
        forall|info: InfoModel| #[trigger] infos.contains(info) ==> is_single(info.frame_rate),
        cue_items(cues, infos, delay) is Ok,
        conflict_free(cue_items(cues, infos, delay)->Ok_0),
        ({
            let items = cue_items(cues, infos, delay)->Ok_0;
            &&& 0 <= i < items.len()
            &&& 0 <= j < items.len()
            &&& i != j
            &&& items[i].layer == items[j].layer
            &&& ends_before(items[i], items[j]) ==> leaves_room(items[i], items[j], position)
            &&& ends_before(items[j], items[i]) ==> leaves_room(items[j], items[i], position)
        }),
    ensures
        ({
            let items = cue_items(cues, infos, delay)->Ok_0;
            !(items[i].active(position) && items[j].active(position))
        }),
{
    let items = cue_items(cues, infos, delay)->Ok_0;
    lemma_items_of_cues(cues, infos, delay, i);
    lemma_items_of_cues(cues, infos, delay, j);
    law_media_without_conflict_never_plays_together(items, i, j, position);
}

/// A media item is over by a second, in exact arithmetic: what it lasts, `duration_frames / fps`
/// seconds, is no more than the seconds from its start. A start at frames within a second counts
/// as one at the next second. The frame rate counts in units of `2^-149`.
pub open spec fn is_over_by(item: ItemModel, second: int) -> bool {
    let start = item.start_tc;
    let from = start.hours * 3600 + start.minutes * 60 + start.seconds + if start.frames > 0 {
        1int
    } else {
        0int
    };
    item.duration_frames * pow2(149) <= item.fps->units * (second - from)
}

/// A media item lasts at least `2^-31` seconds beyond a second, in exact arithmetic.
pub open spec fn is_on_after(item: ItemModel, second: int) -> bool {
    let start = item.start_tc;
    let from = start.hours * 3600 + start.minutes * 60 + start.seconds + if start.frames > 0 {
        1int
    } else {
        0int
    };
    (item.duration_frames * pow2(149)) * 0x8000_0000 > item.fps->units * ((second - from)
        * 0x8000_0000 + 1)
}

/// The frame rate of a media item is a number greater than zero.
pub open spec fn has_rate(item: ItemModel) -> bool {
    &&& item.fps matches Value::Finite { negative, units } && !negative && units > 0
    &&& is_single(item.fps)
}

/// A timecode stands at as many seconds as its hours, minutes and seconds have.
pub proof fn law_seconds_are_counted(timecode: Timecode)
    ensures
        timecode_seconds(timecode) == timecode.hours * 3600 + timecode.minutes * 60
            + timecode.seconds,
{
}

proof fn lemma_over_by(a: ItemModel, b: ItemModel)
    requires
        has_rate(a),
        is_over_by(a, timecode_seconds(b.start_tc) as int),
    ensures
        ends_before(a, b),
{
    let other = timecode_seconds(b.start_tc);
    lemma2_to64();
    lemma2_to64_rest();
    lemma_pow2_pos(1074);
    lemma_ends_by(a, other);
    lemma_small_double(other);
    assert(end_second(a) * pow2(1074) <= other * pow2(1074)) by (nonlinear_arith)
        requires
            end_second(a) <= other,
    ;
}

proof fn lemma_ends_by(a: ItemModel, other: nat)
    requires
        has_rate(a),
        is_over_by(a, other as int),
        other <= pow2(53),
    ensures
        0 <= end_second(a) <= other,
        a.end_secs() == (Value::Finite {
            negative: false,
            units: (end_second(a) * pow2(1074)) as nat,
        }),
{
    let n = a.duration_frames as nat;
    let f = a.fps->units;
    let z = pow2(149);
    let v = pow2(925);
    let w = pow2(1074);
    let start = start_second(a) as nat;
    lemma2_to64();
    lemma2_to64_rest();
    lemma_pow2_pos(149);
    lemma_pow2_pos(925);
    lemma_pow2_pos(1074);
    lemma_pow2_adds(925, 149);
    lemma_small_double(start);
    lemma_small_double(n);
    assert(other >= start) by (nonlinear_arith)
        requires
            n * z <= f * (other - start),
            f > 0,
            n * z >= 0,
    ;
    let m = (other - start) as nat;
    let unit = f * v;
    assert(unit > 0) by (nonlinear_arith)
        requires
            unit == f * v,
            f > 0,
            v > 0,
    ;
    assert((n * w) * w <= (m * w) * unit) by (nonlinear_arith)
        requires
            n * z <= f * m,
            w == v * z,
            unit == f * v,
    ;
    let lasts = round_ratio(53, (n * w) * w, unit);
    lemma_round_monotone(53, (n * w) * w, (m * w) * unit, unit);
    lemma_round_cancel(53, m * w, 1, unit);
    assert(1 * unit == unit);
    lemma_round_exact(53, m, 1074);
    assert(lasts <= m * w);
    let total = start * w + lasts;
    assert(start * w + m * w == other * w) by (nonlinear_arith)
        requires
            other == start + m,
    ;
    lemma_round_monotone(53, total, other * w, 1);
    lemma_round_exact(53, other, 1074);
    let sum = round_ratio(53, total, 1);
    assert(sum <= other * w);
    if total == 0 {
        lemma_round_zero(53, 1);
    }
    lemma_pow2_adds(53, 1074);
    lemma_pow2_strictly_increases(1127, 2098);
    assert(other * w <= pow2(1127)) by (nonlinear_arith)
        requires
            other <= pow2(53),
            pow2(1127) == pow2(53) * w,
    ;
    assert(m * w <= other * w) by (nonlinear_arith)
        requires
            m <= other,
    ;
    let end = whole_double(sum, true);
    assert(a.end_secs() == (Value::Finite { negative: false, units: end * w }));
    lemma_fundamental_div_mod(sum as int, w as int);
    let q = sum / w;
    assert(end <= other) by (nonlinear_arith)
        requires
            sum == w * q + sum % w,
            sum % w >= 0,
            sum <= other * w,
            w > 0,
            (sum % w != 0 && end == q + 1) || (sum % w == 0 && end == q),
    ;
    lemma_fundamental_div_mod_converse((end * w) as int, w as int, end as int, 0);
}

/// A media item starts at the second of its timecode, and ends at the first whole second by which
/// it is over, where rounding makes up for less than `2^-31` seconds.
pub proof fn law_media_ends_at_the_next_whole_second(item: ItemModel, second: nat)
    requires
        has_rate(item),
        item.duration_frames > 0,
        second <= 0x10_0000,
        is_over_by(item, second as int),
    ensures
        item.start_secs() == (Value::Finite {
            negative: false,
            units: ((item.start_tc.hours * 3600 + item.start_tc.minutes * 60
                + item.start_tc.seconds) * pow2(1074)) as nat,
        }),
        ({
            let end = end_second(item);
            &&& item.end_secs() == (Value::Finite {
                negative: false,
                units: (end * pow2(1074)) as nat,
            })
            &&& 0 <= end <= second
            &&& !is_on_after(item, end)
        }),
{
    let n = item.duration_frames as nat;
    let f = item.fps->units;
    let w = pow2(1074);
    let start = start_second(item) as nat;
    lemma2_to64();
    lemma2_to64_rest();
    lemma_pow2_pos(925);
    lemma_pow2_pos(1074);
    lemma_small_double(timecode_seconds(item.start_tc));
    lemma_ends_by(item, second);
    lemma_small_double(start);
    lemma_small_double(n);
    let unit = f * pow2(925);
    assert(unit > 0) by (nonlinear_arith)
        requires
            unit == f * pow2(925),
            f > 0,
            pow2(925) > 0,
    ;
    let lasts = round_ratio(53, (n * w) * w, unit);
    let total = start * w + lasts;
    if total == 0 {
        lemma_round_zero(53, 1);
    }
    let sum = round_ratio(53, total, 1);
    law_ceiling_is_the_next_whole_number(false, sum);
    assert(whole_double(sum, true) * w == end_second(item) * w);
    lemma_seconds_apart(n, f, start, end_second(item) as nat);
}

/// An item without frames ends at the second from which it is taken to play.
proof fn lemma_empty_item_ends(a: ItemModel, b: ItemModel)
    requires
        has_rate(a),
        a.duration_frames == 0,
        ends_before(a, b),
    ensures
        start_second(a) <= timecode_seconds(b.start_tc),
{
    let f = a.fps->units;
    let w = pow2(1074);
    let start = start_second(a) as nat;
    let other = timecode_seconds(b.start_tc);
    lemma2_to64();
    lemma2_to64_rest();
    lemma_pow2_pos(925);
    lemma_pow2_pos(1074);
    lemma_pow2_pos(2098);
    lemma_small_double(start);
    lemma_small_double(other);
    lemma_small_double(0);
    let unit = f * pow2(925);
    assert(unit > 0) by (nonlinear_arith)
        requires
            unit == f * pow2(925),
            f > 0,
            pow2(925) > 0,
    ;
    assert((0 * w) * w == 0) by (nonlinear_arith);
    lemma_round_zero(53, unit);
    lemma_round_exact(53, start, 1074);
    if start * w == 0 {
        lemma_round_zero(53, 1);
    }
    law_ceiling_is_the_next_whole_number(false, start * w);
    assert(start * w <= other * w);
    assert(start <= other) by (nonlinear_arith)
        requires
            start * w <= other * w,
            w > 0,
    ;
}

/// Media items on different layers do not conflict. Nor do two of which one is over by the second
/// at which the other starts, whichever of them is listed first.
pub proof fn law_media_apart_does_not_conflict(a: ItemModel, b: ItemModel)
    requires
        has_rate(a),
        has_rate(b),
        ({
            ||| a.layer != b.layer
            ||| is_over_by(
                a,
                b.start_tc.hours * 3600 + b.start_tc.minutes * 60 + b.start_tc.seconds,
            )
            ||| is_over_by(
                b,
                a.start_tc.hours * 3600 + a.start_tc.minutes * 60 + a.start_tc.seconds,
            )
        }),
    ensures
        !overlaps(a, b),
        !overlaps(b, a),
{
    if a.layer == b.layer {
        if is_over_by(a, timecode_seconds(b.start_tc) as int) {
            lemma_over_by(a, b);
        } else {
            lemma_over_by(b, a);
        }
    }
}

/// Two media items on a layer conflict where each is still on after the second at which the other
/// starts, whichever of them is listed first.
pub proof fn law_media_at_the_same_time_conflicts(a: ItemModel, b: ItemModel)
    requires
        has_rate(a),
        has_rate(b),
        a.layer == b.layer,
        is_on_after(a, b.start_tc.hours * 3600 + b.start_tc.minutes * 60 + b.start_tc.seconds),
        is_on_after(b, a.start_tc.hours * 3600 + a.start_tc.minutes * 60 + a.start_tc.seconds),
    ensures
        overlaps(a, b),
        overlaps(b, a),
{
    lemma_on_after(a, b);
    lemma_on_after(b, a);
}

proof fn lemma_on_after(a: ItemModel, b: ItemModel)
    requires
        has_rate(a),
        is_on_after(a, timecode_seconds(b.start_tc) as int),
    ensures
        !ends_before(a, b),
{
    let f = a.fps->units;
    let other = timecode_seconds(b.start_tc) as int;
    let from = start_second(a);
    if ends_before(a, b) {
        if a.duration_frames == 0 {
            lemma_empty_item_ends(a, b);
            assert(f * ((other - from) * 0x8000_0000 + 1) >= 0) by (nonlinear_arith)
                requires
                    other >= from,
                    f > 0,
            ;
        } else {
            lemma_end_second(a, b);
            let k = end_second(a) - from;
            assert(f * (k * 0x8000_0000 + 1) <= f * ((other - from) * 0x8000_0000 + 1))
                by (nonlinear_arith)
                requires
                    k <= other - from,
                    f > 0,
            ;
        }
    }
}

/// A media item whose frame rate is not a number conflicts with none.
pub proof fn law_media_without_rate_does_not_conflict(a: ItemModel, b: ItemModel)
    requires
        a.fps is Nan,
    ensures
        !overlaps(a, b),
        !overlaps(b, a),
{
    lemma2_to64();
    lemma2_to64_rest();
    lemma_small_double(start_second(a) as nat);
    lemma_small_double(a.duration_frames as nat);
}

/// It makes no difference which of two media items comes first.
pub proof fn law_conflict_is_mutual(a: ItemModel, b: ItemModel)
    ensures
        overlaps(a, b) == overlaps(b, a),
{
}

/// Whether media items conflict does not depend on the order in which they are listed: those that
/// are free of conflicts stay so when they are listed in another order, or some of them only.
pub proof fn law_listing_order_makes_no_difference(
    items: Seq<ItemModel>,
    others: Seq<ItemModel>,
    places: Seq<int>,
)
    requires
        conflict_free(items),
        places.len() == others.len(),
        forall|k: int|
            0 <= k < places.len() ==> 0 <= #[trigger] places[k] < items.len() && others[k]
                == items[places[k]],
        forall|k: int, l: int|
            0 <= k < l < places.len() ==> #[trigger] places[k] != #[trigger] places[l],
    ensures
        conflict_free(others),
{
    assert forall|k: int, l: int| 0 <= k < l < others.len() implies !#[trigger] overlaps(
        others[k],
        others[l],
    ) by {
        let x = places[k];
        let y = places[l];
        if x < y {
            assert(!overlaps(items[x], items[y]));
        } else {
            assert(!overlaps(items[y], items[x]));
        }
    }
}

/// The conflict that is reported is a conflict of two different items of the list on one layer. Of
/// all pairs that conflict it is the one whose first item comes first, and of those the one whose
/// second item does.
pub proof fn law_reported_conflict_is_the_first(
    items: Seq<ItemModel>,
    i: int,
    j: int,
    k: int,
    l: int,
)
    requires
        first_conflict(items, i, j),
        0 <= k < l < items.len(),
        overlaps(items[k], items[l]),
    ensures
        0 <= i < j < items.len(),
        overlaps(items[i], items[j]),
        items[i].layer == items[j].layer,
        !conflict_free(items),
        i < k || (i == k && j <= l),
{
}

/// Media items that are not free of conflicts have a first one.
pub proof fn law_conflicts_have_a_first(items: Seq<ItemModel>)
    requires
        !conflict_free(items),
    ensures
        exists|i: int, j: int| first_conflict(items, i, j),
{
    let (k, l) = choose|k: int, l: int|
        0 <= k < l < items.len() && #[trigger] overlaps(items[k], items[l]);
    lemma_first_conflict(items, k, l);
}

proof fn lemma_first_conflict(items: Seq<ItemModel>, k: int, l: int)
    requires
        0 <= k < l < items.len(),
        overlaps(items[k], items[l]),
    ensures
        exists|i: int, j: int| first_conflict(items, i, j),
    decreases k, l,
{
    if !first_conflict(items, k, l) {
        let (x, y) = choose|x: int, y: int|
            0 <= x < y < items.len() && (x < k || (x == k && y < l)) && #[trigger] overlaps(
                items[x],
                items[y],
            );
        lemma_first_conflict(items, x, y);
    }
}

/// A media item is active at the frames of the timeline from its start on, as many as it plays, and
/// at no other frame.
pub proof fn law_media_is_active_for_its_duration(item: ItemModel, position: TimecodePosition)
    ensures
        ({
            let start = item.start_frame(rate_of(position));
            let frames = item.duration(rate_of(position));
            &&& item.active(position) <==> 0 <= position.total_frames - start < frames
            &&& item.end_frame(rate_of(position)) - start == frames
        }),
{
}

/// The output delay takes a media item that many frames earlier, but not past the first frame of
/// the timeline.
pub proof fn law_start_is_earlier_by_the_delay(item: ItemModel, rate: Value)
    ensures
        ({
            let start = timecode_frames(item.start_tc, rate);
            let delay = item.output_delay_frames;
            &&& item.start_frame(rate) + delay == if start >= delay {
                start
            } else {
                delay as nat
            }
        }),
{
}

/// The frames of a media item cannot be counted only where it has started and ends beyond the last
/// frame that can be counted.
pub proof fn law_uncountable_media_ends_too_late(item: ItemModel, position: TimecodePosition)
    ensures
        !item.countable(position) <==> item.start_frame(rate_of(position)) <= position.total_frames
            && item.start_frame(rate_of(position)) + item.duration(rate_of(position)) > u32::MAX,
{
}

/// A media item that conflicts is named with the layer, and both items with their own times.
pub proof fn law_conflict_names_both_items(a: ItemModel, b: ItemModel)
    ensures
        ({
            let conflict = conflict_of(a, b);
            &&& conflict.layer == a.layer
            &&& (conflict.first, conflict.second) == (a.filename, b.filename)
            &&& (conflict.first_start, conflict.first_end) == (a.start_secs(), a.end_secs())
            &&& (conflict.second_start, conflict.second_end) == (b.start_secs(), b.end_secs())
        }),
{
}

} // verus!
