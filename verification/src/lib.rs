//! A boundary-tagged heap allocator over a caller-granted arena.
//!
//! The heap partitions an aligned sub-span of the arena into chunks. An
//! allocated chunk carries a one-word tag just below its payload; a free
//! chunk carries its size at both ends and is indexed by a segregated
//! bin table with a two-word availability bitmap.

pub mod bins;
pub mod heap;
pub mod span;
pub mod tag;
pub mod utils;
