//! The four axis-aligned adjacency directions between grid cells.

use vstd::prelude::*;

verus! {

/// One of the four directions in which a grid cell can have a neighbour.
/// `Up` points toward smaller `y`, `Down` toward larger `y`, `Left` toward
/// smaller `x` and `Right` toward larger `x`.
#[derive(Clone, Copy, Debug, PartialEq, Eq, Structural)]
pub enum Side {
    Up,
    Right,
    Down,
    Left,
}

/// The direction that points back: `Up` and `Down` swap, `Right` and `Left` swap.
pub open spec fn opposite_spec(side: Side) -> Side {
    match side {
        Side::Up => Side::Down,
        Side::Right => Side::Left,
        Side::Down => Side::Up,
        Side::Left => Side::Right,
    }
}

/// Returns the opposite direction (`Up` <-> `Down`, `Right` <-> `Left`).
pub fn opposite_side(side: Side) -> (r: Side)
    ensures
        r == opposite_spec(side),
{
    match side {
        Side::Up => Side::Down,
        Side::Right => Side::Left,
        Side::Down => Side::Up,
        Side::Left => Side::Right,
    }
}

/// `opposite` is an involution: taking the opposite twice gives the side back.
pub proof fn lemma_opposite_involutive(side: Side)
    ensures
        opposite_spec(opposite_spec(side)) == side,
{
}

/// Numeric tag of a side, counting `Up`, `Right`, `Down`, `Left` as 1 to 4.
pub open spec fn side_index_spec(side: Side) -> usize {
    match side {
        Side::Up => 1usize,
        Side::Right => 2usize,
        Side::Down => 3usize,
        Side::Left => 4usize,
    }
}

impl Side {
    /// Returns the numeric tag of this side.
    pub fn side_index(self) -> (i: usize)
        ensures
            i == side_index_spec(self),
    {
        match self {
            Side::Up => 1,
            Side::Right => 2,
            Side::Down => 3,
            Side::Left => 4,
        }
    }
}

} // verus!
