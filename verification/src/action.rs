//! The moves a player can make.

use vstd::prelude::*;

verus! {

/// One move of a player.
#[derive(Clone, Copy, Debug, PartialEq, Eq, Structural)]
pub enum Action {
    /// Let the tree on the given cell grow by one size.
    Grow(i32),
    /// Throw a seed from the tree on the first cell onto the second cell.
    Seed(i32, i32),
    /// Harvest the mature tree on the given cell.
    Complete(i32),
    /// Do nothing for the rest of the day.
    Wait,
}

} // verus!
