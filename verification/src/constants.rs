use vstd::prelude::*;

verus! {

/// Width of the canvas, in pixels.
pub const CANVAS_WIDTH: u32 = 500;

/// Height of the canvas, in pixels.
pub const CANVAS_HEIGHT: u32 = 500;

/// Canvas units in one pixel: canvas coordinates are thousandths of a pixel.
pub const SUBPIXELS: i64 = 1000;

/// Pixels taken off the scaled width to leave a margin.
pub const MARGIN_WIDTH: i64 = 150;

/// Pixels taken off the scaled height to leave a margin.
pub const MARGIN_HEIGHT: i64 = 50;

/// The most canvas units that a projection may give to one microdegree. Up
/// to this scale the place of every point fits in 64 bits.
pub const MAX_SCALE: i64 = 0x4000_0000;

/// Coordinate units in one degree: coordinates are microdegrees.
pub const MICRODEGREES: i32 = 1_000_000;

/// The southernmost latitude, in microdegrees.
pub const MIN_LATITUDE: i32 = -90_000_000;

/// The northernmost latitude, in microdegrees.
pub const MAX_LATITUDE: i32 = 90_000_000;

/// The westernmost longitude, in microdegrees.
pub const MIN_LONGITUDE: i32 = -180_000_000;

/// The easternmost longitude, in microdegrees.
pub const MAX_LONGITUDE: i32 = 180_000_000;

} // verus!
