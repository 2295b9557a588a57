use vstd::prelude::*;

use crate::square::{Direction, Rank};

verus! {

/// One of the two sides.
#[derive(Debug, PartialEq, PartialOrd, Eq, Ord, Clone, Copy, Structural)]
pub enum Color {
    White,
    Black,
}

impl Color {
    /// The other side.
    pub open spec fn opposite(self) -> Color {
        match self {
            Color::White => Color::Black,
            Color::Black => Color::White,
        }
    }

    /// The change of the rank number made by one pawn push of this side.
    pub open spec fn dy(self) -> int {
        match self {
            Color::White => 1,
            Color::Black => -1,
        }
    }

    /// The direction in which this side's pawns advance.
    pub open spec fn forward_spec(self) -> Direction {
        match self {
            Color::White => Direction::North,
            Color::Black => Direction::South,
        }
    }

    /// The number of the rank that this side counts as its `rank`-th.
    pub open spec fn relative_rank_index(self, rank: int) -> int {
        match self {
            Color::White => rank,
            Color::Black => 7 - rank,
        }
    }

    /// The rank that this side counts as its `rank`-th: Black counts from the eighth down.
    pub fn relative_rank(self, rank: Rank) -> (r: Rank)
        ensures
            r as int == self.relative_rank_index(rank as int),
    {
        match self {
            Color::White => rank,
            Color::Black => Rank::from_index(7 - rank as u8),
        }
    }

    /// The direction in which this side's pawns advance.
    pub fn forward(self) -> (r: Direction)
        ensures
            r == self.forward_spec(),
            r.dx() == 0,
            r.dy() == self.dy(),
    {
        match self {
            Color::White => Direction::North,
            Color::Black => Direction::South,
        }
    }

    /// The other side.
    pub fn not(self) -> (r: Self)
        ensures
            r == self.opposite(),
    {
        match self {
            Color::White => Color::Black,
            Color::Black => Color::White,
        }
    }
}

} // verus!
