//! The fixed dimensions of the grid.

use vstd::prelude::*;

verus! {

/// Side length of a box.
pub const SCALE_FACTOR: usize = 3;

/// Side length of the grid, and the largest digit.
pub const NUMBER_LIMIT: usize = 9;

/// Number of cells in the grid.
pub const ENTRY_COUNT: usize = 81;

} // verus!
