//! Incremental grid-search engines: a step-wise A* shortest-path finder and a
//! randomized backtracking maze walker, both over fixed-size 8-connected grids.

use vstd::prelude::*;

pub mod grid;
pub mod history;
pub mod pathfinding;
pub mod square_grid;
pub mod walker;

verus! {

/// The eight directions between neighbouring cells, plus standing still.
#[derive(Debug, Clone, Copy, PartialEq, Eq, Structural)]
pub enum Direction {
    Still,
    Up,
    UpRight,
    Right,
    DownRight,
    Down,
    DownLeft,
    Left,
    UpLeft,
}

impl Default for Direction {
    /// The default direction is standing still.
    fn default() -> (r: Self)
        ensures
            r == Direction::Still,
    {
        Direction::Still
    }
}

} // verus!
