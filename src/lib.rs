//! Intervals and selections (finite unions of intervals) over totally
//! ordered point types.

pub mod bound;
pub mod canonical;
pub mod interval;
pub mod laws;
pub mod normalize;
pub mod order;
pub mod raw_interval;
pub mod selection;
pub mod sweep;
pub mod tine;

pub use bound::Bound;
pub use interval::Interval;
pub use normalize::{Finite, NextLower, NextUpper, Normalize};
pub use order::{le, lt, ordered};
pub use raw_interval::RawInterval;
pub use selection::{Selection, TineSet};
pub use tine::{Split, Tine};
