//! Tracks the usage state of texture subresources (mip level x array layer x
//! aspect) and computes the state transitions (barriers) needed to keep
//! accesses legal when usage changes or when independently recorded histories
//! are stitched together.

pub mod range;
pub mod texture;
pub mod unit;
pub mod usage;
