//! The light model: position, base intensity, tint, and a time-varying
//! intensity modulation.
//!
//! Intensities are held in milli-units (one thousandth of the unit the
//! compositor's radius rules speak of) and times in milliseconds, so the
//! whole model is exact integer arithmetic. The sinusoidal modulation uses
//! the crate's own fixed-point sine: a rational approximation whose value is
//! exactly zero at phase zero and never exceeds one in magnitude, which is
//! all the intensity rules rely on.

use vstd::prelude::*;

use crate::color::Rgba;
use crate::config::ConfigError;
use crate::geometry::Vec2i;
use vstd::arithmetic::div_mod::{
    lemma_div_pos_is_pos, lemma_fundamental_div_mod, lemma_fundamental_div_mod_converse_mod,
    lemma_mod_bound, lemma_mod_multiples_basic, lemma_multiply_divide_le,
    lemma_multiply_divide_lt,
};
use vstd::arithmetic::mul::{
    lemma_mul_inequality, lemma_mul_is_associative, lemma_mul_nonnegative, lemma_mul_upper_bound,
};

verus! {

/// How a light's effective intensity varies with time.
///
/// `Sin(amplitude, period, start)` adds `amplitude * sin(2 pi / period *
/// (time - start))` to the base intensity: amplitude in milli-units, period
/// in milliseconds (non-zero for a well-formed light), start in
/// milliseconds. `Static` adds nothing.
#[derive(Clone, Copy, PartialEq, Eq, Structural, Debug)]
pub enum LightMode {
    Static,
    Sin(u32, u32, u64),
}

impl LightMode {
    /// A sinusoidal modulation must have a non-zero period.
    pub open spec fn wf(self) -> bool {
        match self {
            LightMode::Static => true,
            LightMode::Sin(_amplitude, period, _start) => period > 0,
        }
    }

    /// The largest magnitude the modulation can add to the base intensity.
    pub open spec fn spec_amplitude(self) -> int {
        match self {
            LightMode::Static => 0,
            LightMode::Sin(amplitude, _period, _start) => amplitude as int,
        }
    }

    /// What the modulation adds to the base intensity at `time`, in
    /// milli-units.
    pub fn get_power_offset(&self, time_ms: u64) -> (off: i64)
        requires
            self.wf(),
        ensures
            off == spec_power_offset(*self, time_ms as int),
    {
        match self {
            LightMode::Static => 0,
            LightMode::Sin(amplitude, period, start) => {
                let ph = phase_milliturns(time_ms, *start, *period);
                let s = sin_milli(ph);
                if s >= 0 {
                    proof {
                        lemma_mul_upper_bound(*amplitude as int, u32::MAX as int, s as int, 1000);
                        lemma_mul_nonnegative(*amplitude as int, s as int);
                    }
                    ((*amplitude as u64 * (s as u64)) / 1000) as i64
                } else {
                    proof {
                        lemma_mul_upper_bound(*amplitude as int, u32::MAX as int, -s as int, 1000);
                        lemma_mul_nonnegative(*amplitude as int, -s as int);
                    }
                    -(((*amplitude as u64 * ((-s) as u64)) / 1000) as i64)
                }
            },
        }
    }
}

/// What the modulation adds to the base intensity at `time`.
pub open spec fn spec_power_offset(mode: LightMode, time: int) -> int {
    match mode {
        LightMode::Static => 0,
        LightMode::Sin(amplitude, period, start) => {
            let s = spec_sin_milli(spec_phase_milliturns(time, start as int, period as int));
            if s >= 0 {
                (amplitude * s) / 1000
            } else {
                -((amplitude * (-s)) / 1000)
            }
        },
    }
}

/// A light source: world position, base intensity in milli-units (positive
/// for a well-formed light), its modulation, and the tint it paints on
/// otherwise-empty pixels it claims.
#[derive(Clone, Copy, PartialEq, Eq, Structural, Debug)]
pub struct Light {
    pub pt: Vec2i,
    pub power: u32,
    pub light_mode: LightMode,
    pub color: Rgba,
}

impl Light {
    /// Base intensity positive, modulation well-formed, position in range.
    pub open spec fn wf(self) -> bool {
        self.power > 0 && self.light_mode.wf() && self.pt.wf()
    }

    /// Builds a light, rejecting a zero-period sinusoidal modulation and a
    /// zero base intensity.
    pub fn new(pt: Vec2i, power: u32, light_mode: LightMode, color: Rgba)
        -> (r: Result<Light, ConfigError>)
        requires
            pt.wf(),
        ensures
            match r {
                Ok(l) => l == (Light { pt, power, light_mode, color }) && l.wf(),
                Err(e) => (!light_mode.wf() || power == 0)
                    && e == (if !light_mode.wf() {
                        ConfigError::ZeroPeriod
                    } else {
                        ConfigError::ZeroIntensity
                    }),
            },
    {
        let mode_ok = match &light_mode {
            LightMode::Static => true,
            LightMode::Sin(_amplitude, period, _start) => *period > 0,
        };
        if !mode_ok {
            Err(ConfigError::ZeroPeriod)
        } else if power == 0 {
            Err(ConfigError::ZeroIntensity)
        } else {
            Ok(Light { pt, power, light_mode, color })
        }
    }

    /// The effective intensity at `time_ms`: base intensity plus the
    /// modulation's offset, in milli-units.
    pub fn calc_power(&self, time_ms: u64) -> (p: i64)
        requires
            self.wf(),
        ensures
            p == spec_effective_intensity(*self, time_ms as int),
    {
        let off = self.light_mode.get_power_offset(time_ms);
        proof {
            lemma_power_offset_bounds(self.light_mode, time_ms as int);
        }
        self.power as i64 + off
    }
}

/// The effective intensity of `l` at `time`: base plus modulation offset.
pub open spec fn spec_effective_intensity(l: Light, time: int) -> int {
    l.power + spec_power_offset(l.light_mode, time)
}

/// The crate's fixed-point sine on a half turn, scaled by 1000: for `t` in
/// `[0, 500]` milli-turns this is `16000 t (500 - t) / (1250000 - 4 t (500 -
/// t))`, a rational approximation of `1000 sin(pi t / 500)` that is exactly
/// `0` at both ends and exactly `1000` at the quarter turn.
pub open spec fn spec_sin_half_milli(t: int) -> int {
    (16000 * t * (500 - t)) / (1250000 - 4 * t * (500 - t))
}

/// The fixed-point sine on a full turn, scaled by 1000, for `t` in
/// `[0, 1000)` milli-turns: the half-turn curve, negated on the second half.
pub open spec fn spec_sin_milli(t: int) -> int {
    if t <= 500 {
        spec_sin_half_milli(t)
    } else {
        -spec_sin_half_milli(t - 500)
    }
}

/// On `[0, 500]` the product `t * (500 - t)` stays within `[0, 62500]`.
proof fn lemma_sin_arg_product_bounds(t: int)
    requires
        0 <= t <= 500,
    ensures
        0 <= t * (500 - t) <= 62500,
{
    assert(0 <= t * (500 - t) <= 62500) by (nonlinear_arith)
        requires 0 <= t <= 500;
}

/// The half-turn fixed-point sine stays within `[0, 1000]`.
pub proof fn lemma_sin_half_milli_bounds(t: int)
    requires
        0 <= t <= 500,
    ensures
        0 <= spec_sin_half_milli(t) <= 1000,
{
    let u = t * (500 - t);
    lemma_sin_arg_product_bounds(t);
    let den = 1250000 - 4 * u;
    lemma_mul_is_associative(16000, t, 500 - t);
    lemma_mul_is_associative(4, t, 500 - t);
    lemma_div_pos_is_pos(16000 * u, den);
    assert(16000 * u <= den * 1000) by (nonlinear_arith)
        requires 0 <= u <= 62500 && den == 1250000 - 4 * u;
    lemma_multiply_divide_le(16000 * u, den, 1000);
}

/// The full-turn fixed-point sine stays within `[-1000, 1000]`.
pub proof fn lemma_sin_milli_bounds(t: int)
    requires
        0 <= t < 1000,
    ensures
        -1000 <= spec_sin_milli(t) <= 1000,
{
    if t <= 500 {
        lemma_sin_half_milli_bounds(t);
    } else {
        lemma_sin_half_milli_bounds(t - 500);
    }
}

/// The half-turn fixed-point sine, on `t` in `[0, 500]` milli-turns.
fn sin_half_milli(t: u32) -> (r: u32)
    requires
        t <= 500,
    ensures
        r == spec_sin_half_milli(t as int),
        r <= 1000,
{
    proof {
        lemma_sin_arg_product_bounds(t as int);
        lemma_mul_is_associative(16000, t as int, 500 - t as int);
        lemma_mul_is_associative(4, t as int, 500 - t as int);
    }
    let u = t * (500 - t);
    let num = 16000 * u;
    let den = 1250000 - 4 * u;
    proof {
        lemma_sin_half_milli_bounds(t as int);
    }
    num / den
}

/// The full-turn fixed-point sine, on `t` in `[0, 1000)` milli-turns.
fn sin_milli(t: u32) -> (r: i32)
    requires
        t < 1000,
    ensures
        r == spec_sin_milli(t as int),
        -1000 <= r <= 1000,
{
    if t <= 500 {
        sin_half_milli(t) as i32
    } else {
        -(sin_half_milli(t - 500) as i32)
    }
}

/// Where in its cycle a wave of the given period stands at `time`, in
/// milli-turns: the elapsed time since `start`, reduced modulo the period
/// and scaled to `[0, 1000)`.
pub open spec fn spec_phase_milliturns(time: int, start: int, period: int) -> int {
    (((time - start) % period) * 1000) / period
}

/// The phase of any wave with a positive period lies in `[0, 1000)`.
pub proof fn lemma_phase_range(time: int, start: int, period: int)
    requires
        period > 0,
    ensures
        0 <= spec_phase_milliturns(time, start, period) < 1000,
{
    let e = (time - start) % period;
    lemma_mod_bound(time - start, period);
    lemma_mul_nonnegative(e, 1000);
    lemma_div_pos_is_pos(e * 1000, period);
    assert(e * 1000 < period * 1000) by (nonlinear_arith)
        requires 0 <= e < period;
    lemma_multiply_divide_lt(e * 1000, period, 1000);
}

/// The phase at `time_ms` of a wave of period `period` started at
/// `start_ms`, in milli-turns.
fn phase_milliturns(time_ms: u64, start_ms: u64, period: u32) -> (ph: u32)
    requires
        period > 0,
    ensures
        ph == spec_phase_milliturns(time_ms as int, start_ms as int, period as int),
        ph < 1000,
{
    let p = period as u64;
    let e: u64 = if time_ms >= start_ms {
        (time_ms - start_ms) % p
    } else {
        let d = (start_ms - time_ms) % p;
        if d == 0 {
            0
        } else {
            p - d
        }
    };
    proof {
        let x = time_ms as int - start_ms as int;
        if time_ms < start_ms {
            lemma_negative_elapsed_mod(start_ms as int - time_ms as int, p as int);
        }
        assert(e == x % (p as int));
        lemma_phase_range(time_ms as int, start_ms as int, period as int);
        lemma_mod_bound(x, p as int);
        assert((e as int) * 1000 <= (p as int) * 1000) by (nonlinear_arith)
            requires 0 <= e as int <= p as int;
    }
    ((e * 1000) / p) as u32
}

/// Reducing a negative elapsed time `-x` modulo a positive period `p` gives
/// `p - x % p`, folded back to `0` when `x` is a whole number of periods.
proof fn lemma_negative_elapsed_mod(x: int, p: int)
    requires
        x > 0,
        p > 0,
    ensures
        (-x) % p == if x % p == 0 { 0int } else { p - x % p },
{
    let q = x / p;
    let d = x % p;
    lemma_fundamental_div_mod(x, p);
    lemma_mod_bound(x, p);
    if d == 0 {
        assert(-x == p * (-q)) by (nonlinear_arith)
            requires x == q * p + d && d == 0;
        lemma_mod_multiples_basic(-q, p);
    } else {
        assert(-x == (-q - 1) * p + (p - d)) by (nonlinear_arith)
            requires x == q * p + d;
        lemma_fundamental_div_mod_converse_mod(-x, p, -q - 1, p - d);
    }
}

/// The modulation offset never exceeds the mode's amplitude in magnitude.
pub proof fn lemma_power_offset_bounds(mode: LightMode, time: int)
    requires
        mode.wf(),
    ensures
        -mode.spec_amplitude() <= spec_power_offset(mode, time) <= mode.spec_amplitude(),
{
    match mode {
        LightMode::Static => {},
        LightMode::Sin(amplitude, period, start) => {
            let a = amplitude as int;
            let ph = spec_phase_milliturns(time, start as int, period as int);
            lemma_phase_range(time, start as int, period as int);
            lemma_sin_milli_bounds(ph);
            let s = spec_sin_milli(ph);
            if s >= 0 {
                lemma_mul_nonnegative(a, s);
                lemma_div_pos_is_pos(a * s, 1000);
                lemma_mul_inequality(s, 1000, a);
                assert(a * s == s * a && 1000 * a == a * 1000) by (nonlinear_arith);
                lemma_multiply_divide_le(a * s, 1000, a);
            } else {
                lemma_mul_nonnegative(a, -s);
                lemma_div_pos_is_pos(a * (-s), 1000);
                lemma_mul_inequality(-s, 1000, a);
                assert(a * (-s) == (-s) * a && 1000 * a == a * 1000) by (nonlinear_arith);
                lemma_multiply_divide_le(a * (-s), 1000, a);
            }
        },
    }
}

/// A sinusoidally modulated light's effective intensity stays within one
/// amplitude of its base intensity, at every time.
pub proof fn lemma_sinusoidal_intensity_bounds(l: Light, amplitude: u32, period: u32, start: u64, time: int)
    requires
        l.wf(),
        l.light_mode == LightMode::Sin(amplitude, period, start),
    ensures
        l.power - amplitude <= spec_effective_intensity(l, time) <= l.power + amplitude,
{
    lemma_power_offset_bounds(l.light_mode, time);
}

/// At the phase start itself a sinusoidally modulated light's effective
/// intensity is exactly its base intensity.
pub proof fn lemma_sinusoidal_phase_start(l: Light, amplitude: u32, period: u32, start: u64)
    requires
        l.wf(),
        l.light_mode == LightMode::Sin(amplitude, period, start),
    ensures
        spec_effective_intensity(l, start as int) == l.power,
{
    let p = period as int;
    lemma_mod_bound(0, p);
    assert(0int % p == 0) by {
        lemma_mod_multiples_basic(0, p);
    }
    assert(spec_phase_milliturns(start as int, start as int, p) == 0);
    assert(spec_sin_half_milli(0) == 0);
    assert(amplitude as int * 0 == 0) by (nonlinear_arith);
}

} // verus!
