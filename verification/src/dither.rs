//! The fixed 4x4 ordered-dither threshold table.
//!
//! The compositor decides per pixel whether the soft edge of a light still
//! claims it by comparing the scaled distance to a threshold read from this
//! table, tiled over the framebuffer by coordinate modulo 4. The table is a
//! permutation of `0..16`, which yields a uniform speckle instead of banding.

use vstd::prelude::*;

verus! {

/// Side length of the square dither tile.
pub const DITHER_SIZE: u32 = 4;

/// The threshold at position `i` of the flattened 4x4 dither tile.
pub open spec fn spec_dither(i: int) -> int {
    if i == 0 { 0 } else if i == 1 { 8 } else if i == 2 { 2 } else if i == 3 { 10 }
    else if i == 4 { 12 } else if i == 5 { 4 } else if i == 6 { 14 } else if i == 7 { 6 }
    else if i == 8 { 3 } else if i == 9 { 11 } else if i == 10 { 1 } else if i == 11 { 9 }
    else if i == 12 { 15 } else if i == 13 { 7 } else if i == 14 { 13 } else { 5 }
}

/// Position in the flattened dither tile at which a given threshold stands.
pub open spec fn spec_dither_pos(v: int) -> int {
    if v == 0 { 0 } else if v == 8 { 1 } else if v == 2 { 2 } else if v == 10 { 3 }
    else if v == 12 { 4 } else if v == 4 { 5 } else if v == 14 { 6 } else if v == 6 { 7 }
    else if v == 3 { 8 } else if v == 11 { 9 } else if v == 1 { 10 } else if v == 9 { 11 }
    else if v == 15 { 12 } else if v == 7 { 13 } else if v == 13 { 14 } else { 15 }
}

/// Index into the flattened dither tile for framebuffer position `(x, y)`.
pub open spec fn spec_dither_idx(x: int, y: int) -> int {
    (y % 4) * 4 + (x % 4)
}

/// Index into the flattened dither tile for framebuffer position `(x, y)`.
pub fn dither_idx(x: u32, y: u32) -> (i: usize)
    ensures
        i == spec_dither_idx(x as int, y as int),
        i < 16,
{
    ((y % DITHER_SIZE) * DITHER_SIZE + (x % DITHER_SIZE)) as usize
}

/// The threshold at position `i` of the flattened dither tile.
pub fn dither_threshold(i: usize) -> (t: u8)
    requires
        i < 16,
    ensures
        t == spec_dither(i as int),
{
    match i {
        0 => 0, 1 => 8, 2 => 2, 3 => 10,
        4 => 12, 5 => 4, 6 => 14, 7 => 6,
        8 => 3, 9 => 11, 10 => 1, 11 => 9,
        12 => 15, 13 => 7, 14 => 13, _ => 5,
    }
}

/// The dither table is a permutation of `{0, ..., 15}`: every threshold in
/// that range appears exactly once, so each of the 16 tile positions carries
/// a distinct cutoff and the soft edge of a light fades uniformly.
pub proof fn lemma_dither_table_is_permutation()
    ensures
        forall|i: int| 0 <= i < 16 ==> 0 <= #[trigger] spec_dither(i) < 16,
        forall|i: int, j: int|
            0 <= i < 16 && 0 <= j < 16 && i != j ==> spec_dither(i) != spec_dither(j),
        forall|v: int|
            0 <= v < 16 ==> 0 <= #[trigger] spec_dither_pos(v) < 16
                && spec_dither(spec_dither_pos(v)) == v,
{
}

} // verus!
