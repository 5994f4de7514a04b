//! Core logic of a small 2D maze game rendered at a low internal resolution:
//! an ordered-dither lighting compositor, a procedural maze generator, a
//! fixed-point light model with time-varying intensity, and the player and
//! camera bookkeeping that feeds the compositor.
//!
//! All quantities are held as plain integers. Lengths and positions are in
//! milli-pixels, intensities in milli-units and times in milliseconds, so
//! that every rule of the game is exact integer arithmetic.

pub mod camera;
pub mod color;
pub mod compositor;
pub mod config;
pub mod dither;
pub mod geometry;
pub mod light;
pub mod maze;
pub mod player;
pub mod rng;
pub mod toggle;
