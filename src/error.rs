//! The ways the pass can fail. Each is fatal to the compilation of the
//! function concerned.
use vstd::prelude::*;

verus! {

#[derive(Clone, Copy, Debug, PartialEq, Eq, Structural)]
pub enum StackmapError {
    /// A value of the function has no live range.
    MissingLivenessInfo { value: usize },
    /// A dominance query named a block that cannot be reached from the entry.
    UnreachableBlockQueried { block: usize },
    /// A record names an instruction that its block no longer holds.
    InvalidInsertionPosition { block: usize, inst: u32 },
}

} // verus!
