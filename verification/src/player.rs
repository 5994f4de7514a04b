//! The player: position, extents, carried light, and movement intent.
//!
//! Each tick the caller hands in a snapshot of which movement keys are
//! held. Rising edges push the key onto an ordered intent list and releases
//! remove it; the active direction is the most recent key whose opposite is
//! not also held. Movement applies the active direction at a fixed speed of
//! 20 pixels per second, and the displacement is returned so the caller can
//! apply the identical shift to the camera anchor. Collision against a
//! static rectangle pushes the player out along the axis of smaller
//! overlap, again returning the correction.

use vstd::prelude::*;

use crate::geometry::{Recti, Vec2i, rect_intersect, spec_rects_overlap,
    spec_rects_overlap_region};
use crate::light::Light;
use crate::toggle::ToggleKey;

verus! {

/// A movement direction key.
#[derive(Clone, Copy, PartialEq, Eq, Structural, Debug)]
pub enum DirKey {
    Up,
    Down,
    Left,
    Right,
}

/// The direction opposite to `d`.
pub open spec fn spec_opposite(d: DirKey) -> DirKey {
    match d {
        DirKey::Up => DirKey::Down,
        DirKey::Down => DirKey::Up,
        DirKey::Left => DirKey::Right,
        DirKey::Right => DirKey::Left,
    }
}

impl DirKey {
    /// The direction opposite to this one.
    pub fn opposite(&self) -> (r: DirKey)
        ensures
            r == spec_opposite(*self),
    {
        match *self {
            DirKey::Up => DirKey::Down,
            DirKey::Down => DirKey::Up,
            DirKey::Left => DirKey::Right,
            DirKey::Right => DirKey::Left,
        }
    }
}

/// One tick's snapshot of which movement keys are currently held.
#[derive(Clone, Copy, PartialEq, Eq, Structural, Debug)]
pub struct KeysHeld {
    pub up: bool,
    pub down: bool,
    pub left: bool,
    pub right: bool,
}

/// The predicate that keeps every key but `d`.
pub open spec fn not_key(d: DirKey) -> spec_fn(DirKey) -> bool {
    |k: DirKey| k != d
}

/// How one key's snapshot updates the ordered intent list: a rising edge
/// appends the key, a release removes every occurrence, a steadily held
/// key leaves the list unchanged.
pub open spec fn spec_apply_key(keys: Seq<DirKey>, d: DirKey, rising: bool, held: bool)
    -> Seq<DirKey> {
    if rising {
        keys.push(d)
    } else if !held {
        keys.filter(not_key(d))
    } else {
        keys
    }
}

/// The intent list after one tick's snapshot, applied in the fixed order
/// right, left, down, up; `*_was` are the per-key held states remembered
/// from the previous tick.
pub open spec fn spec_keys_after(keys: Seq<DirKey>, held: KeysHeld,
    up_was: bool, down_was: bool, left_was: bool, right_was: bool) -> Seq<DirKey> {
    let k1 = spec_apply_key(keys, DirKey::Right, held.right && !right_was, held.right);
    let k2 = spec_apply_key(k1, DirKey::Left, held.left && !left_was, held.left);
    let k3 = spec_apply_key(k2, DirKey::Down, held.down && !down_was, held.down);
    spec_apply_key(k3, DirKey::Up, held.up && !up_was, held.up)
}

/// The active direction: scanning the intent list from the most recent key
/// down, the first key whose opposite is not also in the list; `None` when
/// every key is cancelled by its opposite or the list is empty.
pub open spec fn spec_dir_scan(keys: Seq<DirKey>, i: int) -> Option<DirKey>
    decreases i,
{
    if i <= 0 {
        None
    } else if !keys.contains(spec_opposite(keys[i - 1])) {
        Some(keys[i - 1])
    } else {
        spec_dir_scan(keys, i - 1)
    }
}

/// The displacement one tick of movement produces: the active direction
/// scaled to `step` milli-pixels, or rest when there is none.
pub open spec fn spec_move_delta(scan: Option<DirKey>, step: int) -> (int, int) {
    match scan {
        Some(DirKey::Up) => (0, -step),
        Some(DirKey::Down) => (0, step),
        Some(DirKey::Left) => (-step, 0),
        Some(DirKey::Right) => (step, 0),
        None => (0, 0),
    }
}

/// The correction that pushes the player rectangle out of `other` along
/// the axis of smaller overlap.
pub open spec fn spec_push_out(rect: Recti, other: Recti) -> (int, int) {
    let ov = spec_rects_overlap_region(rect, other);
    if ov.w > ov.h {
        if rect.y < other.y {
            (0, other.y - (rect.y + rect.h))
        } else {
            (0, other.y + other.h - rect.y)
        }
    } else {
        if rect.x < other.x {
            (other.x - (rect.x + rect.w), 0)
        } else {
            (other.x + other.w - rect.x, 0)
        }
    }
}

/// The player: position and extents in milli-pixels, the light it
/// carries, per-key edge trackers, the ordered intent list, the last
/// active direction, and the walls hit this tick.
pub struct Player {
    pub pt: Vec2i,
    pub w: i64,
    pub h: i64,
    pub light: Light,
    pub keys: Vec<DirKey>,
    pub up_tk: ToggleKey,
    pub down_tk: ToggleKey,
    pub left_tk: ToggleKey,
    pub right_tk: ToggleKey,
    pub last_dir: DirKey,
    pub wall_dirs: Vec<DirKey>,
}

/// The largest player extent, in milli-pixels.
pub const PLAYER_EXTENT_BOUND: i64 = 0x100000;

/// The player is far enough from the coordinate bound that one tick of
/// movement at `delta_ms` milliseconds cannot leave it.
pub open spec fn spec_can_move(p: Player, delta_ms: int) -> bool {
    -crate::geometry::COORD_BOUND + 20 * delta_ms <= p.pt.x
        <= crate::geometry::COORD_BOUND - 20 * delta_ms
    && -crate::geometry::COORD_BOUND + 20 * delta_ms <= p.pt.y
        <= crate::geometry::COORD_BOUND - 20 * delta_ms
}

impl Player {
    /// Position in range and extents non-negative and bounded.
    pub open spec fn wf(self) -> bool {
        self.pt.wf() && 0 <= self.w <= PLAYER_EXTENT_BOUND && 0 <= self.h <= PLAYER_EXTENT_BOUND
    }

    /// A player at `pt` with the given extents and light, with no keys
    /// held, facing right, and no walls hit.
    pub fn new(pt: Vec2i, w: i64, h: i64, light: Light) -> (p: Player)
        requires
            pt.wf(),
            0 <= w <= PLAYER_EXTENT_BOUND,
            0 <= h <= PLAYER_EXTENT_BOUND,
        ensures
            p.pt == pt && p.w == w && p.h == h && p.light == light,
            p.keys@.len() == 0,
            !p.up_tk.spec_was_down() && !p.down_tk.spec_was_down(),
            !p.left_tk.spec_was_down() && !p.right_tk.spec_was_down(),
            p.last_dir == DirKey::Right,
            p.wall_dirs@.len() == 0,
            p.wf(),
    {
        Player {
            pt,
            w,
            h,
            light,
            keys: Vec::new(),
            up_tk: ToggleKey::new(),
            down_tk: ToggleKey::new(),
            left_tk: ToggleKey::new(),
            right_tk: ToggleKey::new(),
            last_dir: DirKey::Right,
            wall_dirs: Vec::new(),
        }
    }

    /// Moves the carried light to the player's center.
    pub fn update_light_pt(&mut self)
        requires
            old(self).wf(),
        ensures
            final(self).light.pt.x == old(self).pt.x + old(self).w / 2,
            final(self).light.pt.y == old(self).pt.y + old(self).h / 2,
            final(self).light.power == old(self).light.power,
            final(self).light.light_mode == old(self).light.light_mode,
            final(self).light.color == old(self).light.color,
            *final(self) == (Player { light: final(self).light, ..*old(self) }),
    {
        let cx = self.pt.x + self.w / 2;
        let cy = self.pt.y + self.h / 2;
        self.light.pt = Vec2i { x: cx, y: cy };
    }

    /// Feeds one tick's key snapshot into the edge trackers and the
    /// ordered intent list.
    pub fn set_keys_down(&mut self, held: KeysHeld)
        ensures
            final(self).keys@ == spec_keys_after(old(self).keys@, held,
                old(self).up_tk.spec_was_down(), old(self).down_tk.spec_was_down(),
                old(self).left_tk.spec_was_down(), old(self).right_tk.spec_was_down()),
            final(self).up_tk.spec_was_down() == held.up,
            final(self).down_tk.spec_was_down() == held.down,
            final(self).left_tk.spec_was_down() == held.left,
            final(self).right_tk.spec_was_down() == held.right,
            *final(self) == (Player {
                keys: final(self).keys,
                up_tk: final(self).up_tk,
                down_tk: final(self).down_tk,
                left_tk: final(self).left_tk,
                right_tk: final(self).right_tk,
                ..*old(self)
            }),
    {
        let up = self.up_tk.down(held.up);
        let down = self.down_tk.down(held.down);
        let left = self.left_tk.down(held.left);
        let right = self.right_tk.down(held.right);

        if right {
            self.keys.push(DirKey::Right);
        } else if !held.right {
            remove_key(&mut self.keys, DirKey::Right);
        }
        if left {
            self.keys.push(DirKey::Left);
        } else if !held.left {
            remove_key(&mut self.keys, DirKey::Left);
        }
        if down {
            self.keys.push(DirKey::Down);
        } else if !held.down {
            remove_key(&mut self.keys, DirKey::Down);
        }
        if up {
            self.keys.push(DirKey::Up);
        } else if !held.up {
            remove_key(&mut self.keys, DirKey::Up);
        }
    }

    /// The current movement state: `(true, last direction)` when no key
    /// wins the scan (the player rests), or `(false, d)` for the active
    /// direction `d`, which is also remembered as the last direction.
    pub fn calc_dir(&mut self) -> (r: (bool, DirKey))
        ensures
            ({
                let scan = spec_dir_scan(old(self).keys@, old(self).keys@.len() as int);
                match scan {
                    Some(d) => r == (false, d) && final(self).last_dir == d,
                    None => r == (true, old(self).last_dir)
                        && final(self).last_dir == old(self).last_dir,
                }
            }),
            *final(self) == (Player { last_dir: final(self).last_dir, ..*old(self) }),
    {
        let n = self.keys.len();
        let mut i: usize = n;
        while i > 0
            invariant
                i <= n,
                n == self.keys@.len(),
                *self == *old(self),
                spec_dir_scan(self.keys@, n as int) == spec_dir_scan(self.keys@, i as int),
            decreases i,
        {
            let k = self.keys[i - 1];
            let opp = k.opposite();
            if !keys_contains(&self.keys, opp) {
                self.last_dir = k;
                return (false, k);
            }
            i -= 1;
        }
        (true, self.last_dir)
    }

    /// Applies one tick of movement: the active direction, scaled by the
    /// fixed speed of 20 milli-pixels per millisecond of `delta_ms`, moves
    /// the player; the displacement is returned for the caller to apply to
    /// the camera anchor as well.
    pub fn move_player(&mut self, delta_ms: u64) -> (disp: Vec2i)
        requires
            old(self).wf(),
            delta_ms <= 1000000,
            spec_can_move(*old(self), delta_ms as int),
        ensures
            final(self).wf(),
            ({
                let scan = spec_dir_scan(old(self).keys@, old(self).keys@.len() as int);
                let delta = spec_move_delta(scan, 20 * delta_ms);
                disp.x == delta.0 && disp.y == delta.1
                    && final(self).pt.x == old(self).pt.x + disp.x
                    && final(self).pt.y == old(self).pt.y + disp.y
                    && final(self).last_dir == (match scan {
                        Some(d) => d,
                        None => old(self).last_dir,
                    })
            }),
            *final(self) == (Player {
                pt: final(self).pt,
                last_dir: final(self).last_dir,
                ..*old(self)
            }),
    {
        let step: i64 = 20 * delta_ms as i64;
        let (idle, dir) = self.calc_dir();
        let mut dx: i64 = 0;
        let mut dy: i64 = 0;
        if !idle {
            match dir {
                DirKey::Up => { dy = -step; },
                DirKey::Down => { dy = step; },
                DirKey::Left => { dx = -step; },
                DirKey::Right => { dx = step; },
            }
        }
        self.pt = Vec2i { x: self.pt.x + dx, y: self.pt.y + dy };
        Vec2i { x: dx, y: dy }
    }

    /// One full tick: feeds the key snapshot, moves the player, recenters
    /// the carried light, and clears the walls hit last tick. Returns the
    /// displacement for the caller to apply to the camera anchor.
    pub fn update(&mut self, held: KeysHeld, delta_ms: u64) -> (disp: Vec2i)
        requires
            old(self).wf(),
            delta_ms <= 1000000,
            spec_can_move(*old(self), delta_ms as int),
        ensures
            final(self).wf(),
            ({
                let keys2 = spec_keys_after(old(self).keys@, held,
                    old(self).up_tk.spec_was_down(), old(self).down_tk.spec_was_down(),
                    old(self).left_tk.spec_was_down(), old(self).right_tk.spec_was_down());
                let scan = spec_dir_scan(keys2, keys2.len() as int);
                let delta = spec_move_delta(scan, 20 * delta_ms);
                disp.x == delta.0 && disp.y == delta.1
                    && final(self).keys@ == keys2
                    && final(self).pt.x == old(self).pt.x + disp.x
                    && final(self).pt.y == old(self).pt.y + disp.y
                    && final(self).last_dir == (match scan {
                        Some(d) => d,
                        None => old(self).last_dir,
                    })
            }),
            final(self).up_tk.spec_was_down() == held.up,
            final(self).down_tk.spec_was_down() == held.down,
            final(self).left_tk.spec_was_down() == held.left,
            final(self).right_tk.spec_was_down() == held.right,
            final(self).light.pt.x == final(self).pt.x + old(self).w / 2,
            final(self).light.pt.y == final(self).pt.y + old(self).h / 2,
            final(self).light.power == old(self).light.power,
            final(self).light.light_mode == old(self).light.light_mode,
            final(self).light.color == old(self).light.color,
            final(self).wall_dirs@.len() == 0,
            final(self).w == old(self).w,
            final(self).h == old(self).h,
    {
        self.set_keys_down(held);
        let disp = self.move_player(delta_ms);
        self.update_light_pt();
        self.wall_dirs = Vec::new();
        disp
    }

    /// Collision against an immovable rectangle: when the player rectangle
    /// properly overlaps `other`, pushes the player out along the axis of
    /// smaller overlap, records the active direction as a wall hit, and
    /// returns `(true, correction)` so the caller can shift the camera
    /// anchor identically; otherwise returns `(false, rest)` and changes
    /// nothing.
    pub fn collide_immovable(&mut self, other: Recti) -> (r: (bool, Vec2i))
        requires
            old(self).wf(),
            other.wf(),
        ensures
            ({
                let rect = Recti {
                    x: old(self).pt.x, y: old(self).pt.y, w: old(self).w, h: old(self).h };
                if !spec_rects_overlap(rect, other) {
                    r == (false, Vec2i { x: 0i64, y: 0i64 }) && *final(self) == *old(self)
                } else {
                    let mv = spec_push_out(rect, other);
                    let scan = spec_dir_scan(old(self).keys@, old(self).keys@.len() as int);
                    r.0 == true && r.1.x == mv.0 && r.1.y == mv.1
                        && final(self).pt.x == old(self).pt.x + mv.0
                        && final(self).pt.y == old(self).pt.y + mv.1
                        && final(self).wall_dirs@ == (match scan {
                            Some(d) => old(self).wall_dirs@.push(d),
                            None => old(self).wall_dirs@,
                        })
                        && final(self).last_dir == (match scan {
                            Some(d) => d,
                            None => old(self).last_dir,
                        })
                        && *final(self) == (Player {
                            pt: final(self).pt,
                            last_dir: final(self).last_dir,
                            wall_dirs: final(self).wall_dirs,
                            ..*old(self)
                        })
                }
            }),
    {
        let rect = Recti { x: self.pt.x, y: self.pt.y, w: self.w, h: self.h };
        match rect_intersect(rect, other) {
            None => (false, Vec2i { x: 0, y: 0 }),
            Some(overlap) => {
                let mut mvx: i64 = 0;
                let mut mvy: i64 = 0;
                if overlap.w > overlap.h {
                    if rect.y < other.y {
                        mvy = other.y - (rect.y + rect.h);
                    } else {
                        mvy = other.y + other.h - rect.y;
                    }
                } else if rect.x < other.x {
                    mvx = other.x - (rect.x + rect.w);
                } else {
                    mvx = other.x + other.w - rect.x;
                }

                let (idle, k) = self.calc_dir();
                if !idle {
                    self.wall_dirs.push(k);
                }
                self.pt = Vec2i { x: self.pt.x + mvx, y: self.pt.y + mvy };
                (true, Vec2i { x: mvx, y: mvy })
            },
        }
    }
}

/// Whether the intent list holds the key.
fn keys_contains(keys: &Vec<DirKey>, d: DirKey) -> (r: bool)
    ensures
        r == keys@.contains(d),
{
    let n = keys.len();
    let mut i: usize = 0;
    while i < n
        invariant
            i <= n,
            n == keys@.len(),
            forall|j: int| 0 <= j < i ==> keys@[j] != d,
        decreases n - i,
    {
        if keys[i] == d {
            return true;
        }
        i += 1;
    }
    false
}

/// Removes every occurrence of the key from the intent list, keeping the
/// order of the rest.
fn remove_key(keys: &mut Vec<DirKey>, d: DirKey)
    ensures
        final(keys)@ == old(keys)@.filter(not_key(d)),
{
    let n = keys.len();
    let mut out: Vec<DirKey> = Vec::new();
    let mut i: usize = 0;
    while i < n
        invariant
            i <= n,
            n == keys@.len(),
            keys@ == old(keys)@,
            out@ == keys@.subrange(0, i as int).filter(not_key(d)),
        decreases n - i,
    {
        let k = keys[i];
        proof {
            reveal(Seq::<_>::filter);
            let pre = keys@.subrange(0, i as int);
            let cur = keys@.subrange(0, i as int + 1);
            assert(cur.drop_last() =~= pre);
            assert(cur.last() == keys@[i as int]);
            assert(cur.filter(not_key(d)) == if not_key(d)(cur.last()) {
                pre.filter(not_key(d)).push(cur.last())
            } else {
                pre.filter(not_key(d))
            });
        }
        if !(k == d) {
            out.push(k);
        }
        i += 1;
    }
    proof {
        assert(keys@.subrange(0, n as int) =~= keys@);
    }
    *keys = out;
}

} // verus!
