//! Projection of transit stops onto a fixed canvas, and the order in which an
//! animation visits them.
//!
//! Geographic coordinates are whole microdegrees and canvas coordinates are
//! whole thousandths of a pixel, so that every result is an exact integer
//! that the contracts can name.

pub mod constants;
pub mod errors;
pub mod gtfs;
pub mod utils;
pub mod vizualizations;

