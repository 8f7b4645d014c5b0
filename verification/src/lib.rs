//! Verified core of a process explorer: process records, the process tree
//! and the rules that turn a system snapshot into those structures.

pub mod process;
pub mod process_tree;
pub mod snapshot;
pub mod lister;
pub mod report;

use vstd::prelude::*;

verus! {

/// Adds two sizes.
pub fn add(left: usize, right: usize) -> (sum: usize)
    requires
        left + right <= usize::MAX,
    ensures
        sum == left + right,
{
    left + right
}

} // verus!
