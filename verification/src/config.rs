//! Construction-time configuration errors.
//!
//! A light with a zero-period sinusoidal modulation, or a maze request whose
//! size or start cell cannot carry a carved interior, is rejected when it is
//! built; the core never invents a default in its place.

use vstd::prelude::*;

verus! {

/// Why a light or a maze request was rejected at construction.
#[derive(Clone, Copy, PartialEq, Eq, Structural, Debug)]
pub enum ConfigError {
    /// A light's base intensity must be positive.
    ZeroIntensity,
    /// A sinusoidal modulation's period must be non-zero.
    ZeroPeriod,
    /// A maze side length must be odd.
    MazeSizeNotOdd,
    /// A maze must be large enough to hold a carvable interior.
    MazeSizeTooSmall,
    /// A maze start cell must lie on odd coordinates.
    MazeStartNotOdd,
    /// A maze start cell must lie strictly inside the border.
    MazeStartOutOfRange,
}

} // verus!
