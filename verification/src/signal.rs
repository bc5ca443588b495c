//! What holds of audio samples on their way to the decoder.
//!
//! Samples are numbers between -1 and 1, and the decoder takes signed 16-bit levels. The laws here
//! say how close a level is to the exact multiple of its sample, in whole numbers.

use crate::audio::normalised;
use crate::float::{lemma_small_single, less, of_int, single, Float32, Value};
use crate::rounding::{
    lemma_round_cancel, lemma_round_exact, lemma_round_monotone, lemma_round_relative,
    lemma_round_upper, lemma_round_zero, round_ratio,
};
use crate::timecode_parser::{sample_level, sample_levels};
use vstd::arithmetic::div_mod::{lemma_fundamental_div_mod, lemma_fundamental_div_mod_converse};
use vstd::arithmetic::power2::{
    lemma2_to64, lemma_pow2_adds, lemma_pow2_pos, lemma_pow2_strictly_increases, pow2,
};
use vstd::prelude::*;

verus! {

/// The magnitude of a level before it is held within the range.
spec fn full_level(units: nat) -> nat {
    round_ratio(24, units * 32767, 1) / pow2(149)
}

proof fn lemma_level(negative: bool, units: nat)
    ensures
        sample_level(Value::Finite { negative, units }) == if negative {
            if full_level(units) > 32768 {
                -32768
            } else {
                -full_level(units)
            }
        } else {
            if full_level(units) > 32767 {
                32767
            } else {
                full_level(units) as int
            }
        },
{
    let z = pow2(149);
    lemma2_to64();
    lemma_pow2_pos(149);
    lemma_small_single(32767);
    let x = units * 32767;
    assert(units * (32767 * z) == x * z) by (nonlinear_arith)
        requires
            x == units * 32767,
    ;
    lemma_round_cancel(24, x, 1, z);
    assert(1 * z == z);
    let near = round_ratio(24, x, 1);
    if near >= pow2(277) {
        lemma_pow2_adds(16, 149);
        lemma_pow2_strictly_increases(165, 277);
        lemma_fundamental_div_mod(near as int, z as int);
        let q = near / z;
        assert(q >= 32769) by (nonlinear_arith)
            requires
                near == z * q + near % z,
                near % z < z,
                near >= pow2(16) * z,
                pow2(16) == 65536,
                z > 0,
        ;
    }
}

proof fn lemma_full_level(units: nat)
    ensures
        0x100_0000 * (full_level(units) * pow2(149)) <= 0x100_0001 * (units * 32767),
        0xff_ffff * (units * 32767) < 0x100_0000 * ((full_level(units) + 1) * pow2(149)),
{
    let z = pow2(149);
    let x = units * 32767;
    let near = round_ratio(24, x, 1);
    lemma2_to64();
    lemma_pow2_pos(149);
    lemma_round_relative(24, x, 1);
    assert(near * 1 == near);
    lemma_fundamental_div_mod(near as int, z as int);
    let level = full_level(units);
    let rest = (near % z) as int;
    assert(level * z <= near < (level + 1) * z) by (nonlinear_arith)
        requires
            near == z * level + rest,
            0 <= rest < z,
    ;
}

/// The level of a sample is 32767 times the sample, cut off to a whole number, up to one part in
/// `2^24` of it, and held within the range of 16 bits. The sample counts in units of `2^-149`.
pub proof fn law_level_is_near(negative: bool, units: nat)
    ensures
        ({
            let level = sample_level(Value::Finite { negative, units });
            let size = if negative {
                -level
            } else {
                level as int
            };
            let limit: int = if negative {
                32768
            } else {
                32767
            };
            &&& 0 <= size <= limit
            &&& 0x100_0000 * (size * pow2(149)) <= 0x100_0001 * (units * 32767)
            &&& size == limit || 0xff_ffff * (units * 32767) < 0x100_0000 * ((size + 1)
                * pow2(149))
        }),
{
    lemma_pow2_pos(149);
    lemma_level(negative, units);
    lemma_full_level(units);
    let limit: nat = if negative {
        32768
    } else {
        32767
    };
    let full = full_level(units);
    if full > limit {
        assert(limit * pow2(149) <= full * pow2(149)) by (nonlinear_arith)
            requires
                limit <= full,
        ;
    }
}

/// Samples at full scale have the levels 32767 and -32767, and silence has level 0.
pub proof fn law_full_scale_has_full_level()
    ensures
        sample_level(of_int(single(), 1)) == 32767,
        sample_level(of_int(single(), 0)) == 0,
        sample_level(of_int(single(), -1)) == -32767,
{
    let z = pow2(149);
    lemma2_to64();
    lemma_pow2_pos(149);
    lemma_small_single(0);
    lemma_small_single(1);
    lemma_small_single(32767);
    lemma_level(false, z);
    lemma_level(true, z);
    lemma_level(false, 0);
    assert(1 * z == z && 0 * z == 0) by (nonlinear_arith);
    assert(z * 32767 == 32767 * z);
    lemma_round_exact(24, 32767, 149);
    lemma_round_zero(24, 1);
    lemma_fundamental_div_mod_converse((32767 * z) as int, z as int, 32767, 0);
    lemma_fundamental_div_mod_converse(0, z as int, 0, 0);
}

proof fn lemma_full_levels_keep_order(a: nat, b: nat)
    requires
        a <= b,
    ensures
        full_level(a) <= full_level(b),
{
    let z = pow2(149);
    lemma_pow2_pos(149);
    lemma_round_monotone(24, a * 32767, b * 32767, 1);
    let x = round_ratio(24, a * 32767, 1);
    let y = round_ratio(24, b * 32767, 1);
    lemma_fundamental_div_mod(x as int, z as int);
    lemma_fundamental_div_mod(y as int, z as int);
    let p = x / z;
    let q = y / z;
    assert(p <= q) by (nonlinear_arith)
        requires
            x == z * p + x % z,
            y == z * q + y % z,
            0 <= x % z,
            y % z < z,
            x <= y,
            z > 0,
    ;
}

/// Levels keep the order of samples: a louder sample never has a lower level.
pub proof fn law_levels_keep_order(a: Value, b: Value)
    requires
        less(a, b),
    ensures
        sample_level(a) <= sample_level(b),
{
    lemma2_to64();
    lemma_pow2_pos(149);
    lemma_small_single(32767);
    match (a, b) {
        (Value::Finite { negative: x, units: u }, Value::Finite { negative: y, units: v }) => {
            lemma_level(x, u);
            lemma_level(y, v);
            if !x && !y {
                lemma_full_levels_keep_order(u, v);
            } else if x && y {
                lemma_full_levels_keep_order(v, u);
            }
        },
        _ => {},
    }
}

/// Samples of opposite sign and the same size have opposite levels, but for the one level that
/// has no opposite.
pub proof fn law_levels_are_symmetric(units: nat)
    ensures
        ({
            let up = sample_level(Value::Finite { negative: false, units });
            let down = sample_level(Value::Finite { negative: true, units });
            up == -down || (up == 32767 && down == -32768)
        }),
{
    lemma_level(false, units);
    lemma_level(true, units);
}

/// A sample that is not a number is silence, and one that is infinite has the last level.
pub proof fn law_odd_samples_have_levels(sample: Value)
    ensures
        match sample {
            Value::Nan => sample_level(sample) == 0,
            Value::Infinite { negative } => sample_level(sample) == if negative {
                -32768
            } else {
                32767
            },
            _ => true,
        },
{
    lemma2_to64();
    lemma_pow2_pos(149);
    lemma_small_single(32767);
}

/// A signed 16-bit sample is normalised to itself divided by 32767, up to one part in `2^24`, with
/// its sign.
pub proof fn law_normalised_sample_is_near(sample: i16)
    ensures
        ({
            let size = if sample < 0 {
                -sample
            } else {
                sample as int
            };
            normalised(sample) matches Value::Finite { negative, units } && negative == (sample
                < 0) && 0xff_ffff * (size * pow2(149)) <= 0x100_0000 * (units * 32767)
                <= 0x100_0001 * (size * pow2(149))
        }),
{
    let z = pow2(149);
    let size: nat = if sample < 0 {
        (-sample) as nat
    } else {
        sample as nat
    };
    lemma2_to64();
    lemma_pow2_pos(149);
    lemma_small_single(size);
    lemma_small_single(32767);
    lemma_round_cancel(24, size * z, 32767, z);
    let units = round_ratio(24, size * z, 32767);
    lemma_pow2_adds(39, 110);
    lemma_pow2_pos(110);
    lemma_pow2_adds(23, 16);
    if size == 0 {
        assert(0 * z == 0) by (nonlinear_arith);
        lemma_round_zero(24, 32767);
        lemma_pow2_pos(277);
    } else {
        assert(size * z >= 32767 * pow2(23)) by (nonlinear_arith)
            requires
                size >= 1,
                z == pow2(39) * pow2(110),
                pow2(39) == pow2(23) * 65536,
                pow2(110) >= 1,
                pow2(23) >= 0,
        ;
        lemma_round_relative(24, size * z, 32767);
        lemma_pow2_adds(16, 149);
        assert(size * z <= 32767 * pow2(165)) by (nonlinear_arith)
            requires
                size <= 65536,
                pow2(165) == 65536 * z,
        ;
        lemma_round_upper(24, size * z, 32767, 165);
        lemma_pow2_strictly_increases(165, 277);
    }
}

/// A signed 16-bit sample that was normalised reaches the decoder as the level that it had, or as
/// one less in size.
pub proof fn law_normalised_sample_comes_back(sample: i16)
    ensures
        ({
            let level = sample_level(normalised(sample));
            &&& sample >= 0 ==> sample - 1 <= level <= sample
            &&& sample <= 0 ==> sample <= level <= sample + 1
        }),
{
    let z = pow2(149);
    lemma2_to64();
    lemma_pow2_pos(149);
    law_normalised_sample_is_near(sample);
    let size: nat = if sample < 0 {
        (-sample) as nat
    } else {
        sample as nat
    };
    let units = normalised(sample)->units;
    law_level_is_near(sample < 0, units);
    let level = sample_level(normalised(sample));
    let got = if sample < 0 {
        -level
    } else {
        level as int
    };
    // got * z <= (1 + 2^-24)^2 * size * z, and the size is at most 2^15.
    assert(got <= size) by (nonlinear_arith)
        requires
            0x100_0000 * (got * z) <= 0x100_0001 * (units * 32767),
            0x100_0000 * (units * 32767) <= 0x100_0001 * (size * z),
            size <= 32768,
            z > 0,
    ;
    if got + 1 < size {
        assert(false) by (nonlinear_arith)
            requires
                0xff_ffff * (units * 32767) < 0x100_0000 * ((got + 1) * z),
                0xff_ffff * (size * z) <= 0x100_0000 * (units * 32767),
                got + 2 <= size <= 32768,
                got >= 0,
                z > 0,
        ;
    }
}

/// Every sample of a row has its own level, in the same place.
pub proof fn law_every_sample_has_its_level(samples: Seq<Float32>, i: int)
    requires
        0 <= i < samples.len(),
    ensures
        sample_levels(samples).len() == samples.len(),
        sample_levels(samples)[i] == sample_level(samples[i]@),
{
}

} // verus!
