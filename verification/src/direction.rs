//! The four sides of a grid cell.

use vstd::prelude::*;

verus! {

/// A side of a cell, and the way from a cell to the neighbour on that side.
#[derive(Copy, Clone, Debug, Hash, PartialEq, Eq, PartialOrd, Ord)]
pub enum Direction {
    Top,
    Right,
    Bottom,
    Left,
}

impl Direction {
    /// How many directions there are.
    pub const COUNT: usize = 4;

    /// The direction that leads back: top and bottom face each other, and so
    /// do left and right.
    pub open spec fn spec_opposite(self) -> Direction {
        match self {
            Direction::Top => Direction::Bottom,
            Direction::Right => Direction::Left,
            Direction::Bottom => Direction::Top,
            Direction::Left => Direction::Right,
        }
    }

    /// The direction that leads back from the neighbour on this side.
    #[verifier::when_used_as_spec(spec_opposite)]
    pub fn opposite(self) -> (back: Direction)
        ensures
            back == self.spec_opposite(),
    {
        match self {
            Direction::Top => Direction::Bottom,
            Direction::Right => Direction::Left,
            Direction::Bottom => Direction::Top,
            Direction::Left => Direction::Right,
        }
    }

    /// Turning round twice leads back to where one looked, and never to the
    /// side one started from after a single turn.
    pub proof fn lemma_opposite_involution(self)
        ensures
            self.spec_opposite().spec_opposite() == self,
            self.spec_opposite() != self,
    {
    }
}

} // verus!
