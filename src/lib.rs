//! Safepoint stackmap generation for functions in SSA form.
//!
//! At every instruction that may trigger a garbage collection, the pass finds
//! the reference-typed values that are live there and records them as
//! [`stackmap::SafepointRecord`]s (a read-only scan); it can then insert
//! stackmap marker instructions from those records (a separate mutating
//! phase), and, once the function is encoded, turn the markers into a table
//! of code offsets and storage locations.
//!
//! - [`ir`]: the functions the pass works on.
//! - [`liveness`], [`domtree`]: the live ranges and the dominator tree it reads.
//! - [`tracker`]: the set of live values at each point of a block.
//! - [`safepoint`]: which instructions are safepoints.
//! - [`stackmap`]: the records of a function.
//! - [`markers`]: putting markers in from the records.
//! - [`binemit`]: the table built from the markers of an encoded function.
//! - [`laws`]: what holds of the records.
pub mod ir;
pub mod error;
pub mod liveness;
pub mod domtree;
pub mod tracker;
pub mod safepoint;
pub mod stackmap;
pub mod markers;
pub mod laws;
pub mod binemit;
