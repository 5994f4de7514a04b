//! The dithered lighting compositor.
//!
//! For every pixel of a low-resolution framebuffer the compositor walks the
//! active light list in order and gives the pixel to the first light that
//! claims it; the pixel then shows the source scene (read from the
//! vertically flipped row, a fixed contract of the render target) unless the
//! source holds the sentinel color, in which case it shows the light's own
//! tint. Unclaimed pixels stay at the sentinel.
//!
//! A light of effective intensity `P` (milli-units, so `P / 1000` in the
//! radius unit) claims pixel `(x, y)` from screen position `(lx, ly)` when
//! either `dist < 4 * P / 1000` (the hard-lit core) or `dist / (P / 1000) <=
//! T` where `T` is the dither threshold at the pixel's position in the tiled
//! 4x4 table (the soft edge). With `d2 = dx*dx + dy*dy` the two rules are
//! exactly the integer comparisons `d2 * 1000000 < 16 * P * P` and
//! `d2 * 1000000 <= T * T * P * P`, which is how they are stated and
//! computed here: squaring both sides of each comparison is exact because
//! both sides are non-negative, and no claim is made when `P <= 0`.

use vstd::prelude::*;

use crate::color::Rgba;
use crate::dither::{dither_idx, dither_threshold, spec_dither, spec_dither_idx};
use crate::geometry::coord_ok;
use vstd::arithmetic::div_mod::{
    lemma_fundamental_div_mod_converse, lemma_multiply_divide_lt,
};
use vstd::arithmetic::mul::{
    lemma_mul_inequality, lemma_mul_is_distributive_add_other_way, lemma_mul_nonnegative,
    lemma_mul_upper_bound,
};

verus! {

/// Largest framebuffer side length the compositor works on.
pub const FRAME_MAX: usize = 0x8000;

/// Largest magnitude of a light's screen coordinate, in milli-pixels.
pub const LIGHT_COORD_BOUND: i64 = 0x8000_0000;

/// Largest magnitude of a light's effective intensity, in milli-units.
pub const LIGHT_POWER_BOUND: i64 = 0x100_0000_0000;

/// A 2D grid of RGBA pixels in row-major order.
pub struct Frame {
    pub width: usize,
    pub height: usize,
    pub pixels: Vec<Rgba>,
}

impl Frame {
    /// Sides within [`FRAME_MAX`] and exactly one pixel per grid position.
    pub open spec fn wf(self) -> bool {
        self.width <= FRAME_MAX && self.height <= FRAME_MAX
            && self.pixels@.len() == self.width * self.height
    }

    /// The pixel at column `x` of row `y`.
    pub open spec fn spec_pixel(self, x: int, y: int) -> Rgba {
        self.pixels@[y * self.width + x]
    }

    /// A frame of the given dimensions with every pixel set to `fill`.
    pub fn new(width: usize, height: usize, fill: Rgba) -> (f: Frame)
        requires
            width <= FRAME_MAX,
            height <= FRAME_MAX,
        ensures
            f.wf(),
            f.width == width,
            f.height == height,
            forall|i: int| 0 <= i < width * height ==> f.pixels@[i] == fill,
    {
        proof {
            lemma_mul_upper_bound(width as int, FRAME_MAX as int, height as int, FRAME_MAX as int);
            lemma_mul_nonnegative(width as int, height as int);
        }
        let n = width * height;
        let mut pixels: Vec<Rgba> = Vec::new();
        let mut i: usize = 0;
        while i < n
            invariant
                i <= n,
                pixels@.len() == i,
                forall|k: int| 0 <= k < i ==> pixels@[k] == fill,
            decreases n - i,
        {
            pixels.push(fill);
            i += 1;
        }
        Frame { width, height, pixels }
    }

    /// Reads the pixel at `(x, y)`.
    pub fn get_pixel(&self, x: usize, y: usize) -> (c: Rgba)
        requires
            self.wf(),
            x < self.width,
            y < self.height,
        ensures
            c == self.spec_pixel(x as int, y as int),
    {
        proof {
            lemma_rowmajor_in_range(self.width as int, self.height as int, x as int, y as int);
            lemma_mul_upper_bound(
                self.width as int, FRAME_MAX as int, self.height as int, FRAME_MAX as int);
        }
        self.pixels[y * self.width + x]
    }

    /// Writes the pixel at `(x, y)`, leaving every other pixel unchanged.
    pub fn set_pixel(&mut self, x: usize, y: usize, c: Rgba)
        requires
            old(self).wf(),
            x < old(self).width,
            y < old(self).height,
        ensures
            final(self).wf(),
            final(self).width == old(self).width,
            final(self).height == old(self).height,
            final(self).pixels@ == old(self).pixels@.update(
                y * old(self).width + x, c),
    {
        proof {
            lemma_rowmajor_in_range(self.width as int, self.height as int, x as int, y as int);
            lemma_mul_upper_bound(
                self.width as int, FRAME_MAX as int, self.height as int, FRAME_MAX as int);
        }
        let i = y * self.width + x;
        self.pixels.set(i, c);
    }
}

/// A row-major position lies inside the pixel vector.
pub proof fn lemma_rowmajor_in_range(w: int, h: int, x: int, y: int)
    requires
        0 <= x < w,
        0 <= y < h,
    ensures
        0 <= y * w + x < w * h,
{
    lemma_mul_nonnegative(y, w);
    lemma_mul_inequality(y, h - 1, w);
    lemma_mul_is_distributive_add_other_way(w, h - 1, 1);
    assert(h * w == w * h) by (nonlinear_arith);
    assert((h - 1) * w + 1 * w == h * w);
}

/// Distinct grid positions have distinct row-major indices.
pub proof fn lemma_rowmajor_injective(w: int, x1: int, y1: int, x2: int, y2: int)
    requires
        0 < w,
        0 <= x1 < w,
        0 <= x2 < w,
        0 <= y1,
        0 <= y2,
        y1 * w + x1 == y2 * w + x2,
    ensures
        x1 == x2,
        y1 == y2,
{
    let i = y1 * w + x1;
    lemma_fundamental_div_mod_converse(i, w, y1, x1);
    lemma_fundamental_div_mod_converse(i, w, y2, x2);
}

/// A light as the compositor sees it for one frame: screen position in
/// whole pixels of the low-resolution frame, effective intensity in
/// milli-units (both precomputed for the frame), and the tint it paints on
/// empty pixels.
#[derive(Clone, Copy, PartialEq, Eq, Structural, Debug)]
pub struct ActiveLight {
    pub x: i64,
    pub y: i64,
    pub power: i64,
    pub color: Rgba,
}

impl ActiveLight {
    /// Position and intensity small enough that the squared-distance
    /// comparisons cannot overflow.
    pub open spec fn in_range(self) -> bool {
        -LIGHT_COORD_BOUND <= self.x <= LIGHT_COORD_BOUND
            && -LIGHT_COORD_BOUND <= self.y <= LIGHT_COORD_BOUND
            && -LIGHT_POWER_BOUND <= self.power <= LIGHT_POWER_BOUND
    }
}

/// Whether the light claims pixel `(x, y)`: the hard-lit core or the
/// ordered-dither soft edge, in exact squared integer form. A light with a
/// non-positive effective intensity claims nothing.
pub open spec fn spec_claims(l: ActiveLight, x: int, y: int) -> bool {
    let dx = l.x - x;
    let dy = l.y - y;
    let d2 = dx * dx + dy * dy;
    let t = spec_dither(spec_dither_idx(x, y));
    l.power > 0 && (d2 * 1000000 < 16 * (l.power * l.power)
        || d2 * 1000000 <= (t * t) * (l.power * l.power))
}

/// Whether the light claims pixel `(x, y)`.
pub fn light_claims_pixel(l: &ActiveLight, x: usize, y: usize) -> (b: bool)
    requires
        l.in_range(),
        x < FRAME_MAX,
        y < FRAME_MAX,
    ensures
        b == spec_claims(*l, x as int, y as int),
{
    if l.power <= 0 {
        return false;
    }
    let dx: i64 = l.x - x as i64;
    let dy: i64 = l.y - y as i64;
    proof {
        assert(0 <= dx * dx <= 0x1_0000_0000_0000_0000) by (nonlinear_arith)
            requires -0x1_0000_0000 <= dx <= 0x1_0000_0000;
        assert(0 <= dy * dy <= 0x1_0000_0000_0000_0000) by (nonlinear_arith)
            requires -0x1_0000_0000 <= dy <= 0x1_0000_0000;
        assert(0 < l.power * l.power <= 0x1_0000_0000_0000_0000_0000) by (nonlinear_arith)
            requires 0 < l.power <= 0x100_0000_0000;
    }
    let d2: u128 = (dx as i128 * dx as i128 + dy as i128 * dy as i128) as u128;
    let lhs: u128 = d2 * 1000000;
    let p2: u128 = (l.power as u128) * (l.power as u128);
    let idx = dither_idx(x as u32, y as u32);
    let t: u128 = dither_threshold(idx) as u128;
    proof {
        assert((t * t) * p2 <= 0xffff * 0x1_0000_0000_0000_0000_0000) by (nonlinear_arith)
            requires t <= 255 && 0 <= p2 <= 0x1_0000_0000_0000_0000_0000;
    }
    lhs < 16 * p2 || lhs <= (t * t) * p2
}

/// The index of the first light at or after position `i` of the list that
/// claims pixel `(x, y)`, if any.
pub open spec fn spec_first_claimer_from(
    lights: Seq<ActiveLight>, x: int, y: int, i: int) -> Option<int>
    decreases lights.len() - i,
{
    if i < 0 || i >= lights.len() {
        None
    } else if spec_claims(lights[i], x, y) {
        Some(i)
    } else {
        spec_first_claimer_from(lights, x, y, i + 1)
    }
}

/// The index of the first light in the list that claims pixel `(x, y)`.
pub open spec fn spec_first_claimer(lights: Seq<ActiveLight>, x: int, y: int) -> Option<int> {
    spec_first_claimer_from(lights, x, y, 0)
}

/// Finds the first light in the list that claims pixel `(x, y)`.
fn find_first_claimer(lights: &Vec<ActiveLight>, x: usize, y: usize) -> (r: Option<usize>)
    requires
        forall|i: int| 0 <= i < lights@.len() ==> (#[trigger] lights@[i]).in_range(),
        x < FRAME_MAX,
        y < FRAME_MAX,
    ensures
        match r {
            Some(j) => j < lights@.len()
                && spec_first_claimer(lights@, x as int, y as int) == Some(j as int),
            None => spec_first_claimer(lights@, x as int, y as int) is None,
        },
{
    let n = lights.len();
    let mut j: usize = 0;
    while j < n
        invariant
            j <= n,
            n == lights@.len(),
            x < FRAME_MAX,
            y < FRAME_MAX,
            forall|i: int| 0 <= i < lights@.len() ==> (#[trigger] lights@[i]).in_range(),
            spec_first_claimer(lights@, x as int, y as int)
                == spec_first_claimer_from(lights@, x as int, y as int, j as int),
        decreases n - j,
    {
        if light_claims_pixel(&lights[j], x, y) {
            return Some(j);
        }
        j += 1;
    }
    None
}

/// What the output pixel at `(x, y)` must be: the first claiming light
/// shows the source scene pixel from the vertically flipped row, or its own
/// tint where the source holds the sentinel; with no claiming light the
/// pixel stays at the sentinel.
pub open spec fn spec_composite_pixel(
    src: Seq<Rgba>, w: int, h: int, lights: Seq<ActiveLight>, sentinel: Rgba,
    x: int, y: int) -> Rgba {
    match spec_first_claimer(lights, x, y) {
        Some(i) => {
            let s = src[(h - 1 - y) * w + x];
            if s == sentinel {
                lights[i].color
            } else {
                s
            }
        },
        None => sentinel,
    }
}

/// Composites the active lights over the source scene into a fresh buffer
/// of the same dimensions. The source is only read, never written.
pub fn composite(source: &Frame, lights: &Vec<ActiveLight>, sentinel: Rgba) -> (out: Frame)
    requires
        source.wf(),
        forall|i: int| 0 <= i < lights@.len() ==> (#[trigger] lights@[i]).in_range(),
    ensures
        out.wf(),
        out.width == source.width,
        out.height == source.height,
        forall|x: int, y: int| 0 <= x < source.width && 0 <= y < source.height
            ==> out.spec_pixel(x, y) == spec_composite_pixel(
                source.pixels@, source.width as int, source.height as int,
                lights@, sentinel, x, y),
{
    let w = source.width;
    let h = source.height;
    let ghost spec_of = |x: int, y: int| spec_composite_pixel(
        source.pixels@, w as int, h as int, lights@, sentinel, x, y);
    let mut out = Frame::new(w, h, sentinel);
    proof {
        assert forall|px: int, py: int| 0 <= px < w && 0 <= py < h
            implies out.spec_pixel(px, py) == sentinel by {
            lemma_rowmajor_in_range(w as int, h as int, px, py);
        }
    }
    let mut x: usize = 0;
    while x < w
        invariant
            x <= w,
            w == source.width,
            h == source.height,
            source.wf(),
            forall|i: int| 0 <= i < lights@.len() ==> (#[trigger] lights@[i]).in_range(),
            out.wf(),
            out.width == w,
            out.height == h,
            spec_of == |px: int, py: int| spec_composite_pixel(
                source.pixels@, w as int, h as int, lights@, sentinel, px, py),
            forall|px: int, py: int| 0 <= px < x && 0 <= py < h
                ==> out.spec_pixel(px, py) == spec_of(px, py),
            forall|px: int, py: int| x <= px < w && 0 <= py < h
                ==> out.spec_pixel(px, py) == sentinel,
        decreases w - x,
    {
        let mut y: usize = 0;
        while y < h
            invariant
                y <= h,
                x < w,
                w == source.width,
                h == source.height,
                source.wf(),
                forall|i: int| 0 <= i < lights@.len() ==> (#[trigger] lights@[i]).in_range(),
                out.wf(),
                out.width == w,
                out.height == h,
                spec_of == |px: int, py: int| spec_composite_pixel(
                    source.pixels@, w as int, h as int, lights@, sentinel, px, py),
                forall|px: int, py: int| 0 <= px < x && 0 <= py < h
                    ==> out.spec_pixel(px, py) == spec_of(px, py),
                forall|py: int| 0 <= py < y ==> out.spec_pixel(x as int, py) == spec_of(x as int, py),
                forall|py: int| y <= py < h ==> out.spec_pixel(x as int, py) == sentinel,
                forall|px: int, py: int| x < px < w && 0 <= py < h
                    ==> out.spec_pixel(px, py) == sentinel,
            decreases h - y,
        {
            let ghost old_out = out;
            match find_first_claimer(lights, x, y) {
                Some(j) => {
                    let sy = h - 1 - y;
                    let s = source.get_pixel(x, sy);
                    let c = if s == sentinel {
                        lights[j].color
                    } else {
                        s
                    };
                    out.set_pixel(x, y, c);
                    proof {
                        assert(c == spec_of(x as int, y as int));
                    }
                },
                None => {
                    proof {
                        assert(spec_of(x as int, y as int) == sentinel);
                    }
                },
            }
            proof {
                lemma_rowmajor_in_range(w as int, h as int, x as int, y as int);
                assert forall|px: int, py: int| 0 <= px < w && 0 <= py < h
                    && !(px == x && py == y)
                    implies out.spec_pixel(px, py) == old_out.spec_pixel(px, py) by {
                    lemma_rowmajor_in_range(w as int, h as int, px, py);
                    if py * w + px == y * w + x {
                        lemma_rowmajor_injective(w as int, px, py, x as int, y as int);
                    }
                }
                assert(out.spec_pixel(x as int, y as int) == spec_of(x as int, y as int));
            }
            y += 1;
        }
        x += 1;
    }
    out
}

/// Whether a light's radius-expanded bounding box can intersect the visible
/// frame: position in milli-pixels, intensity in milli-units, frame sides in
/// whole pixels. Lights that fail this test are excluded from the per-frame
/// active list before the compositor runs.
pub open spec fn spec_light_may_touch(x: int, y: int, power: int, w: int, h: int) -> bool {
    let reach = power * 16;
    reach + x > 0 && reach + y > 0 && x - reach < w * 1000 && y - reach < h * 1000
}

/// Whether a light's radius-expanded bounding box can intersect the frame.
pub fn light_may_touch_frame(x: i64, y: i64, power: u32, width: usize, height: usize)
    -> (b: bool)
    requires
        coord_ok(x as int),
        coord_ok(y as int),
        width <= FRAME_MAX,
        height <= FRAME_MAX,
    ensures
        b == spec_light_may_touch(x as int, y as int, power as int, width as int, height as int),
{
    let reach: i64 = power as i64 * 16;
    let w_milli: i64 = width as i64 * 1000;
    let h_milli: i64 = height as i64 * 1000;
    reach + x > 0 && reach + y > 0 && x - reach < w_milli && y - reach < h_milli
}

/// For fixed source buffer, light list and sentinel, the compositor's
/// output is fully determined: any two buffers that satisfy its pixel rule
/// are identical.
pub proof fn lemma_composite_deterministic(
    src: Seq<Rgba>, w: int, h: int, lights: Seq<ActiveLight>, sentinel: Rgba,
    o1: Seq<Rgba>, o2: Seq<Rgba>)
    requires
        0 <= w,
        0 <= h,
        o1.len() == w * h,
        o2.len() == w * h,
        forall|x: int, y: int| 0 <= x < w && 0 <= y < h
            ==> #[trigger] o1[y * w + x] == spec_composite_pixel(src, w, h, lights, sentinel, x, y),
        forall|x: int, y: int| 0 <= x < w && 0 <= y < h
            ==> #[trigger] o2[y * w + x] == spec_composite_pixel(src, w, h, lights, sentinel, x, y),
    ensures
        o1 == o2,
{
    assert forall|i: int| 0 <= i < o1.len() implies o1[i] == o2[i] by {
        assert(w > 0) by {
            if w == 0 {
                assert(w * h == 0) by (nonlinear_arith) requires w == 0;
            }
        }
        let x = i % w;
        let y = i / w;
        vstd::arithmetic::div_mod::lemma_mod_bound(i, w);
        vstd::arithmetic::div_mod::lemma_fundamental_div_mod(i, w);
        assert(i < w * h);
        assert(y < h) by {
            assert(w * h == h * w) by (nonlinear_arith);
            lemma_multiply_divide_lt(i, w, h);
        }
        assert(0 <= y);
        assert(y * w + x == i) by {
            assert(i == w * y + x);
            assert(w * y == y * w) by (nonlinear_arith);
        }
        assert(o1[y * w + x] == spec_composite_pixel(src, w, h, lights, sentinel, x, y));
        assert(o2[y * w + x] == spec_composite_pixel(src, w, h, lights, sentinel, x, y));
    }
    assert(o1 =~= o2);
}

/// Walking toward the first claimer: if every light before `i` declines the
/// pixel and light `i` claims it, the scan from any point at or before `i`
/// ends at `i`.
proof fn lemma_first_claimer_from_reaches(
    lights: Seq<ActiveLight>, x: int, y: int, i: int, k: int)
    requires
        0 <= k <= i < lights.len(),
        spec_claims(lights[i], x, y),
        forall|j: int| k <= j < i ==> !spec_claims(lights[j], x, y),
    ensures
        spec_first_claimer_from(lights, x, y, k) == Some(i),
    decreases i - k,
{
    if k < i {
        lemma_first_claimer_from_reaches(lights, x, y, i, k + 1);
    }
}

/// Ordering tie-break: when a light claims a pixel and every light earlier
/// in the list declines it, that light is the pixel's first claimer — later
/// lights are never consulted.
pub proof fn lemma_first_light_wins(lights: Seq<ActiveLight>, x: int, y: int, i: int)
    requires
        0 <= i < lights.len(),
        spec_claims(lights[i], x, y),
        forall|j: int| 0 <= j < i ==> !spec_claims(lights[j], x, y),
    ensures
        spec_first_claimer(lights, x, y) == Some(i),
{
    lemma_first_claimer_from_reaches(lights, x, y, i, 0);
}

/// Ordering tie-break at the pixel level: the output pixel is resolved by
/// the first claiming light's rule alone, whatever lights follow it.
pub proof fn lemma_first_light_resolves_pixel(
    src: Seq<Rgba>, w: int, h: int, lights: Seq<ActiveLight>, sentinel: Rgba,
    x: int, y: int, i: int)
    requires
        0 <= i < lights.len(),
        spec_claims(lights[i], x, y),
        forall|j: int| 0 <= j < i ==> !spec_claims(lights[j], x, y),
    ensures
        spec_composite_pixel(src, w, h, lights, sentinel, x, y) == (
            if src[(h - 1 - y) * w + x] == sentinel {
                lights[i].color
            } else {
                src[(h - 1 - y) * w + x]
            }),
{
    lemma_first_light_wins(lights, x, y, i);
}

/// Sentinel pass-through: a claimed pixel whose source scene pixel is not
/// the sentinel shows that scene pixel, never the light's tint.
pub proof fn lemma_scene_shows_through(
    src: Seq<Rgba>, w: int, h: int, lights: Seq<ActiveLight>, sentinel: Rgba,
    x: int, y: int)
    requires
        spec_first_claimer(lights, x, y) is Some,
        src[(h - 1 - y) * w + x] != sentinel,
    ensures
        spec_composite_pixel(src, w, h, lights, sentinel, x, y) == src[(h - 1 - y) * w + x],
{
}

} // verus!
