pub mod boundaries;
pub mod math;
pub mod meta;
