//! Integer points and axis-aligned rectangles in milli-pixels.
//!
//! World and screen positions are held as 64-bit integers counting
//! thousandths of a pixel, so vector arithmetic and rectangle intersection
//! are exact. Coordinates are kept within [`COORD_BOUND`] so that sums and
//! differences never overflow; that bound is far beyond any screen or maze.

use vstd::prelude::*;

verus! {

/// Largest magnitude a coordinate or extent may have, in milli-pixels.
pub const COORD_BOUND: i64 = 0x4000_0000_0000;

/// The coordinate is small enough that sums of two never overflow.
pub open spec fn coord_ok(v: int) -> bool {
    -COORD_BOUND <= v <= COORD_BOUND
}

/// A 2D point or displacement in milli-pixels.
#[derive(Clone, Copy, PartialEq, Eq, Structural, Debug)]
pub struct Vec2i {
    pub x: i64,
    pub y: i64,
}

impl Vec2i {
    /// The point is within [`COORD_BOUND`] on both axes.
    pub open spec fn wf(self) -> bool {
        coord_ok(self.x as int) && coord_ok(self.y as int)
    }

    /// Builds a point from its coordinates.
    pub fn new(x: i64, y: i64) -> (v: Vec2i)
        ensures
            v == (Vec2i { x, y }),
    {
        Vec2i { x, y }
    }

    /// Componentwise sum.
    pub fn add(self, other: Vec2i) -> (r: Vec2i)
        requires
            self.wf(),
            other.wf(),
        ensures
            r.x == self.x + other.x,
            r.y == self.y + other.y,
    {
        Vec2i { x: self.x + other.x, y: self.y + other.y }
    }

    /// Componentwise difference.
    pub fn sub(self, other: Vec2i) -> (r: Vec2i)
        requires
            self.wf(),
            other.wf(),
        ensures
            r.x == self.x - other.x,
            r.y == self.y - other.y,
    {
        Vec2i { x: self.x - other.x, y: self.y - other.y }
    }
}

/// An axis-aligned rectangle: top-left corner and extents, in milli-pixels.
#[derive(Clone, Copy, PartialEq, Eq, Structural, Debug)]
pub struct Recti {
    pub x: i64,
    pub y: i64,
    pub w: i64,
    pub h: i64,
}

impl Recti {
    /// Corner and extents are in range and the extents are non-negative.
    pub open spec fn wf(self) -> bool {
        coord_ok(self.x as int) && coord_ok(self.y as int)
            && 0 <= self.w <= COORD_BOUND && 0 <= self.h <= COORD_BOUND
    }
}

/// The two rectangles overlap on a region of positive width and height.
pub open spec fn spec_rects_overlap(a: Recti, b: Recti) -> bool {
    max_int(a.x as int, b.x as int) < min_int(a.x + a.w, b.x + b.w)
        && max_int(a.y as int, b.y as int) < min_int(a.y + a.h, b.y + b.h)
}

/// The overlap region of two rectangles that do overlap.
pub open spec fn spec_rects_overlap_region(a: Recti, b: Recti) -> Recti {
    let left = max_int(a.x as int, b.x as int);
    let top = max_int(a.y as int, b.y as int);
    let right = min_int(a.x + a.w, b.x + b.w);
    let bottom = min_int(a.y + a.h, b.y + b.h);
    Recti { x: left as i64, y: top as i64, w: (right - left) as i64, h: (bottom - top) as i64 }
}

/// The larger of two integers.
pub open spec fn max_int(a: int, b: int) -> int {
    if a >= b { a } else { b }
}

/// The smaller of two integers.
pub open spec fn min_int(a: int, b: int) -> int {
    if a <= b { a } else { b }
}

/// Axis-aligned rectangle intersection: the overlap region of the two boxes
/// when it has positive area, and `None` when they are apart or merely touch.
pub fn check_collide(a_pt: Vec2i, a_w: i64, a_h: i64, b_pt: Vec2i, b_w: i64, b_h: i64)
    -> (r: Option<Recti>)
    requires
        (Recti { x: a_pt.x, y: a_pt.y, w: a_w, h: a_h }).wf(),
        (Recti { x: b_pt.x, y: b_pt.y, w: b_w, h: b_h }).wf(),
    ensures
        ({
            let ra = Recti { x: a_pt.x, y: a_pt.y, w: a_w, h: a_h };
            let rb = Recti { x: b_pt.x, y: b_pt.y, w: b_w, h: b_h };
            match r {
                Some(ov) => spec_rects_overlap(ra, rb) && ov == spec_rects_overlap_region(ra, rb),
                None => !spec_rects_overlap(ra, rb),
            }
        }),
{
    let ra = Recti { x: a_pt.x, y: a_pt.y, w: a_w, h: a_h };
    let rb = Recti { x: b_pt.x, y: b_pt.y, w: b_w, h: b_h };
    rect_intersect(ra, rb)
}

/// The overlap region of two rectangles when it has positive area.
pub fn rect_intersect(a: Recti, b: Recti) -> (r: Option<Recti>)
    requires
        a.wf(),
        b.wf(),
    ensures
        match r {
            Some(ov) => spec_rects_overlap(a, b) && ov == spec_rects_overlap_region(a, b),
            None => !spec_rects_overlap(a, b),
        },
{
    let left = if a.x >= b.x { a.x } else { b.x };
    let top = if a.y >= b.y { a.y } else { b.y };
    let a_right = a.x + a.w;
    let b_right = b.x + b.w;
    let right = if a_right <= b_right { a_right } else { b_right };
    let a_bottom = a.y + a.h;
    let b_bottom = b.y + b.h;
    let bottom = if a_bottom <= b_bottom { a_bottom } else { b_bottom };
    if left < right && top < bottom {
        Some(Recti { x: left, y: top, w: right - left, h: bottom - top })
    } else {
        None
    }
}

} // verus!
