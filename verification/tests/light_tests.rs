use nyx::color::Rgba;
use nyx::config::ConfigError;
use nyx::geometry::Vec2i;
use nyx::light::{Light, LightMode};

fn grey() -> Rgba {
    Rgba::new(26, 26, 26, 255)
}

#[test]
fn static_light_keeps_base_intensity() {
    let l = Light::new(Vec2i::new(0, 0), 3600, LightMode::Static, grey()).unwrap();
    assert_eq!(l.calc_power(0), 3600);
    assert_eq!(l.calc_power(12345), 3600);
}

#[test]
fn sinusoidal_at_phase_start_is_base() {
    // P5: effective_intensity(t0) == base.
    let l = Light::new(Vec2i::new(0, 0), 1200, LightMode::Sin(50, 5000, 7000), grey()).unwrap();
    assert_eq!(l.calc_power(7000), 1200);
}

#[test]
fn sinusoidal_peaks_at_quarter_and_trough_at_three_quarters() {
    // Period 4000 ms, amplitude 150: the fixed-point sine is exactly +-1 at
    // the quarter turns, so the offset is exactly +-150 there.
    let l = Light::new(Vec2i::new(0, 0), 3600, LightMode::Sin(150, 4000, 0), grey()).unwrap();
    assert_eq!(l.calc_power(1000), 3750);
    assert_eq!(l.calc_power(3000), 3450);
    assert_eq!(l.calc_power(2000), 3600);
}

#[test]
fn sinusoidal_stays_within_amplitude_over_full_period() {
    // P5: over a full period the effective intensity stays in
    // [base - amplitude, base + amplitude].
    let base: u32 = 1200;
    let amp: u32 = 50;
    let l = Light::new(Vec2i::new(0, 0), base, LightMode::Sin(amp, 5000, 0), grey()).unwrap();
    for t in 0..5000u64 {
        let p = l.calc_power(t);
        assert!(p >= (base - amp) as i64, "t={} p={}", t, p);
        assert!(p <= (base + amp) as i64, "t={} p={}", t, p);
    }
}

#[test]
fn sinusoidal_is_periodic() {
    let l = Light::new(Vec2i::new(0, 0), 1000, LightMode::Sin(100, 2500, 0), grey()).unwrap();
    for t in 0..2500u64 {
        assert_eq!(l.calc_power(t), l.calc_power(t + 2500));
    }
}

#[test]
fn sinusoidal_before_phase_start_matches_cycle() {
    // Times before the phase start fall on the same wave: one full period
    // earlier gives the same value.
    let l = Light::new(Vec2i::new(0, 0), 1000, LightMode::Sin(100, 2000, 10000), grey()).unwrap();
    assert_eq!(l.calc_power(8000), l.calc_power(10000));
    assert_eq!(l.calc_power(8500), l.calc_power(10500));
}

#[test]
fn zero_period_rejected_at_construction() {
    let r = Light::new(Vec2i::new(0, 0), 1200, LightMode::Sin(50, 0, 0), grey());
    assert_eq!(r.unwrap_err(), ConfigError::ZeroPeriod);
}

#[test]
fn zero_intensity_rejected_at_construction() {
    let r = Light::new(Vec2i::new(0, 0), 0, LightMode::Static, grey());
    assert_eq!(r.unwrap_err(), ConfigError::ZeroIntensity);
}

#[test]
fn power_offset_static_is_zero() {
    let m = LightMode::Static;
    assert_eq!(m.get_power_offset(0), 0);
    assert_eq!(m.get_power_offset(999), 0);
}
