use nyx::color::Rgba;
use nyx::compositor::{composite, light_claims_pixel, light_may_touch_frame, ActiveLight, Frame};
use nyx::dither::{dither_idx, dither_threshold};

fn black() -> Rgba {
    Rgba::new(0, 0, 0, 255)
}

fn white() -> Rgba {
    Rgba::new(255, 255, 255, 255)
}

fn grey() -> Rgba {
    Rgba::new(26, 26, 26, 255)
}

fn red() -> Rgba {
    Rgba::new(200, 10, 10, 255)
}

fn light_at(x: i64, y: i64, power: i64, color: Rgba) -> ActiveLight {
    ActiveLight { x, y, power, color }
}

/// The claim rule, written out independently for checking expectations:
/// power > 0 and (squared distance scaled by 1000^2 under the hard-core
/// bound, or under the dither threshold bound).
fn expect_claim(lx: i64, ly: i64, power: i64, x: usize, y: usize) -> bool {
    if power <= 0 {
        return false;
    }
    let dx = (lx - x as i64) as i128;
    let dy = (ly - y as i64) as i128;
    let d2 = dx * dx + dy * dy;
    let p = power as i128;
    let t = dither_threshold(dither_idx(x as u32, y as u32)) as i128;
    d2 * 1_000_000 < 16 * p * p || d2 * 1_000_000 <= t * t * p * p
}

#[test]
fn end_to_end_five_by_five_static_light() {
    // P8: a 5x5 framebuffer, one static light at (2,2) with intensity 1.0
    // (1000 milli-units), sentinel black. Pixel (2,2) is hard-lit
    // (dist 0 < 4); every pixel's expected value follows the claim formula.
    let source = Frame::new(5, 5, black());
    let lights = vec![light_at(2, 2, 1000, grey())];
    let out = composite(&source, &lights, black());
    assert_eq!(out.width, 5);
    assert_eq!(out.height, 5);
    assert!(expect_claim(2, 2, 1000, 2, 2));
    for x in 0..5usize {
        for y in 0..5usize {
            let expected = if expect_claim(2, 2, 1000, x, y) { grey() } else { black() };
            assert_eq!(out.get_pixel(x, y), expected, "pixel ({}, {})", x, y);
        }
    }
    // With intensity 1.0 the hard core of radius 4 covers the whole 5x5
    // frame: dist(2,2 -> 4,4) = sqrt(8) < 4.
    assert_eq!(out.get_pixel(4, 4), grey());
    assert_eq!(out.get_pixel(0, 0), grey());
}

#[test]
fn weak_light_leaves_far_pixel_at_sentinel() {
    // At intensity 0.5 pixel (4,4) is outside the hard core
    // (8 * 10^6 >= 16 * 500^2) and its dither threshold is 0, so the soft
    // edge does not claim it either.
    let source = Frame::new(5, 5, black());
    let lights = vec![light_at(2, 2, 500, grey())];
    let out = composite(&source, &lights, black());
    assert!(!expect_claim(2, 2, 500, 4, 4));
    assert_eq!(out.get_pixel(4, 4), black());
    assert!(expect_claim(2, 2, 500, 2, 2));
    assert_eq!(out.get_pixel(2, 2), grey());
}

#[test]
fn compositor_is_deterministic() {
    // P2: identical inputs give byte-identical output.
    let mut source = Frame::new(8, 6, black());
    source.set_pixel(3, 2, white());
    source.set_pixel(7, 5, red());
    let lights = vec![
        light_at(2, 2, 1500, grey()),
        light_at(6, 4, 800, red()),
    ];
    let a = composite(&source, &lights, black());
    let b = composite(&source, &lights, black());
    assert_eq!(a.width, b.width);
    assert_eq!(a.height, b.height);
    assert_eq!(a.pixels, b.pixels);
}

#[test]
fn first_light_in_list_wins_overlapping_pixel() {
    // P3: two overlapping lights both cover pixel (5,5); the output there
    // follows the first light in the list, never the second.
    let source = Frame::new(10, 10, black());
    let first = light_at(5, 5, 1000, grey());
    let second = light_at(5, 5, 1000, red());
    assert!(expect_claim(5, 5, 1000, 5, 5));
    let out_ab = composite(&source, &vec![first, second], black());
    assert_eq!(out_ab.get_pixel(5, 5), grey());
    let out_ba = composite(&source, &vec![second, first], black());
    assert_eq!(out_ba.get_pixel(5, 5), red());
}

#[test]
fn scene_pixel_shows_through_light() {
    // P4: a non-sentinel source pixel covered by a light keeps its scene
    // color instead of taking the light's tint. The source is read from
    // the vertically flipped row.
    let mut source = Frame::new(5, 5, black());
    // Output pixel (2,1) reads source row 5 - 1 - 1 = 3.
    source.set_pixel(2, 3, white());
    let lights = vec![light_at(2, 1, 1000, grey())];
    let out = composite(&source, &lights, black());
    assert!(expect_claim(2, 1, 1000, 2, 1));
    assert_eq!(out.get_pixel(2, 1), white());
}

#[test]
fn source_rows_are_vertically_flipped() {
    // A scene pixel drawn in source row r appears in output row h - 1 - r
    // wherever a light claims it.
    let mut source = Frame::new(3, 3, black());
    source.set_pixel(0, 0, white());
    source.set_pixel(1, 2, red());
    let lights = vec![light_at(1, 1, 2000, grey())];
    let out = composite(&source, &lights, black());
    assert_eq!(out.get_pixel(0, 2), white());
    assert_eq!(out.get_pixel(1, 0), red());
}

#[test]
fn no_lights_gives_all_sentinel() {
    let mut source = Frame::new(4, 4, black());
    source.set_pixel(1, 1, white());
    let lights: Vec<ActiveLight> = vec![];
    let out = composite(&source, &lights, black());
    for x in 0..4usize {
        for y in 0..4usize {
            assert_eq!(out.get_pixel(x, y), black());
        }
    }
}

#[test]
fn nonpositive_intensity_claims_nothing() {
    let source = Frame::new(4, 4, black());
    let zero = light_at(1, 1, 0, grey());
    let negative = light_at(1, 1, -500, grey());
    assert!(!light_claims_pixel(&zero, 1, 1));
    assert!(!light_claims_pixel(&negative, 1, 1));
    let out = composite(&source, &vec![zero, negative], black());
    for x in 0..4usize {
        for y in 0..4usize {
            assert_eq!(out.get_pixel(x, y), black());
        }
    }
}

#[test]
fn claim_rule_matches_hard_core_and_soft_edge() {
    // A pixel exactly at the light's position is always claimed; the soft
    // edge admits a pixel exactly when the threshold comparison says so.
    let l = light_at(0, 0, 250, grey());
    assert!(light_claims_pixel(&l, 0, 0));
    for x in 0..12usize {
        for y in 0..12usize {
            assert_eq!(
                light_claims_pixel(&l, x, y),
                expect_claim(0, 0, 250, x, y),
                "pixel ({}, {})",
                x,
                y
            );
        }
    }
}

#[test]
fn sentinel_color_is_a_parameter() {
    // With white as the sentinel, untouched source pixels count as empty
    // and a black source pixel counts as drawn scene content.
    let mut source = Frame::new(4, 4, white());
    source.set_pixel(1, 1, black());
    let lights = vec![light_at(1, 2, 1000, grey())];
    let out = composite(&source, &lights, white());
    // Output (1,2) reads the flipped source row 4 - 1 - 2 = 1: black there
    // is scene content and shows through.
    assert_eq!(out.get_pixel(1, 2), black());
    // Output (0,0) reads source (0,3), still the sentinel: the light tints it.
    assert_eq!(out.get_pixel(0, 0), grey());
}

#[test]
fn offscreen_light_filter() {
    // The radius-expanded bounding box test, in milli-pixel space, on a
    // 256 x 144 frame.
    // A light on screen passes.
    assert!(light_may_touch_frame(128_000, 72_000, 1200, 256, 144));
    // A light far left of the frame is excluded: reach 1200 * 16 = 19200
    // milli-pixels does not bring x = -20000 above zero.
    assert!(!light_may_touch_frame(-20_000, 72_000, 1200, 256, 144));
    // The same light with a larger radius passes.
    assert!(light_may_touch_frame(-20_000, 72_000, 1300, 256, 144));
    // A light beyond the right edge is excluded.
    assert!(!light_may_touch_frame(256_000 + 19_200, 72_000, 1200, 256, 144));
    // A light just inside the expanded box on the bottom edge passes.
    assert!(light_may_touch_frame(128_000, 144_000 + 19_100, 1200, 256, 144));
}
