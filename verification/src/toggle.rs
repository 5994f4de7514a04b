//! Rising-edge detection for a held key.
//!
//! A [`ToggleKey`] reports `true` only on the tick at which a key goes from
//! released to held, giving press-once semantics on top of a per-tick
//! "is the key currently down" snapshot.

use vstd::prelude::*;

verus! {

/// Remembers whether its key was held on the previous tick.
pub struct ToggleKey {
    was_down: bool,
}

impl ToggleKey {
    /// Whether the key was held on the most recent tick fed to [`Self::down`].
    pub closed spec fn spec_was_down(self) -> bool {
        self.was_down
    }

    /// A fresh tracker whose key counts as released.
    pub fn new() -> (t: ToggleKey)
        ensures
            !t.spec_was_down(),
    {
        ToggleKey { was_down: false }
    }

    /// Feeds one tick's held state; reports `true` exactly on the tick the
    /// key goes from released to held.
    pub fn down(&mut self, state: bool) -> (r: bool)
        ensures
            r == (state && !old(self).spec_was_down()),
            final(self).spec_was_down() == state,
    {
        if !self.was_down && state {
            self.was_down = true;
            return true;
        } else if !state {
            self.was_down = false;
        }
        false
    }
}

} // verus!
