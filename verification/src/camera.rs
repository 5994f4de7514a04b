//! The camera's world-to-screen bookkeeping.
//!
//! The camera holds a world anchor; a world point appears on screen at
//! `point - anchor` (this crate fixes that sign convention once, here).
//! Whatever displacement moves the player is applied to the anchor as well
//! by the caller, keeping the player visually centered.

use vstd::prelude::*;

use crate::geometry::Vec2i;

verus! {

/// World anchor of the view and the offset it aims to keep to its target.
pub struct CameraManager {
    pub pt: Vec2i,
    pub target_offset: Vec2i,
}

impl CameraManager {
    /// Both points are within coordinate range.
    pub open spec fn wf(self) -> bool {
        self.pt.wf() && self.target_offset.wf()
    }

    /// A camera anchored at `pt`, remembering its offset to `target`.
    pub fn new(pt: Vec2i, target: Vec2i) -> (cm: CameraManager)
        requires
            pt.wf(),
            target.wf(),
        ensures
            cm.pt == pt,
            cm.target_offset.x == target.x - pt.x,
            cm.target_offset.y == target.y - pt.y,
    {
        CameraManager { pt, target_offset: target.sub(pt) }
    }

    /// Where a world point appears on screen: the point minus the anchor.
    pub fn calc_offset(&self, pt: Vec2i) -> (r: Vec2i)
        requires
            self.pt.wf(),
            pt.wf(),
        ensures
            r.x == pt.x - self.pt.x,
            r.y == pt.y - self.pt.y,
    {
        pt.sub(self.pt)
    }

    /// Moves the anchor by the displacement the player just made.
    pub fn apply_displacement(&mut self, d: Vec2i)
        requires
            old(self).pt.wf(),
            d.wf(),
        ensures
            final(self).pt.x == old(self).pt.x + d.x,
            final(self).pt.y == old(self).pt.y + d.y,
            final(self).target_offset == old(self).target_offset,
    {
        self.pt = self.pt.add(d);
    }
}

} // verus!
