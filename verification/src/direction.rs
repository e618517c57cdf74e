use crate::map::Point2D;
use vstd::prelude::*;

verus! {

/// Cardinal directions, in the canonical side ordering of a tile.
#[derive(Debug, Copy, Clone, PartialEq, Eq, Structural)]
pub enum Direction {
    North,
    East,
    South,
    West,
}

impl Direction {
    /// Index of this direction in the canonical side ordering.
    pub open spec fn index_spec(self) -> int {
        match self {
            Direction::North => 0,
            Direction::East => 1,
            Direction::South => 2,
            Direction::West => 3,
        }
    }

    /// The opposite direction.
    pub open spec fn rev_spec(self) -> Direction {
        match self {
            Direction::North => Direction::South,
            Direction::East => Direction::West,
            Direction::South => Direction::North,
            Direction::West => Direction::East,
        }
    }

    /// The next direction clockwise.
    pub open spec fn succ_spec(self) -> Direction {
        match self {
            Direction::North => Direction::East,
            Direction::East => Direction::South,
            Direction::South => Direction::West,
            Direction::West => Direction::North,
        }
    }

    /// Unit offset of one step in this direction, as (dx, dy).
    pub open spec fn step_spec(self) -> (int, int) {
        match self {
            Direction::North => (0int, 1int),
            Direction::East => (1int, 0int),
            Direction::South => (0int, -1int),
            Direction::West => (-1int, 0int),
        }
    }

    /// Index of this direction in the canonical side ordering.
    pub fn index(&self) -> (r: usize)
        ensures
            r == self.index_spec(),
    {
        match self {
            Direction::North => 0,
            Direction::East => 1,
            Direction::South => 2,
            Direction::West => 3,
        }
    }

    /// The opposite direction.
    pub fn rev(&self) -> (r: Direction)
        ensures
            r == self.rev_spec(),
    {
        match self {
            Direction::North => Direction::South,
            Direction::East => Direction::West,
            Direction::South => Direction::North,
            Direction::West => Direction::East,
        }
    }

    /// Unit offset of one step in this direction.
    pub fn step(&self) -> (r: Point2D)
        ensures
            r.0 as int == self.step_spec().0,
            r.1 as int == self.step_spec().1,
    {
        match self {
            Direction::North => (0isize, 1isize),
            Direction::East => (1isize, 0isize),
            Direction::South => (0isize, -1isize),
            Direction::West => (-1isize, 0isize),
        }
    }

    /// All four directions, in the canonical side ordering.
    pub fn all() -> (r: Vec<Direction>)
        ensures
            r@ =~= Self::all_spec(),
    {
        let mut v: Vec<Direction> = Vec::new();
        v.push(Direction::North);
        v.push(Direction::East);
        v.push(Direction::South);
        v.push(Direction::West);
        v
    }

    /// All four directions, in the canonical side ordering.
    pub open spec fn all_spec() -> Seq<Direction> {
        seq![Direction::North, Direction::East, Direction::South, Direction::West]
    }
}

/// Reversing a direction twice yields the direction itself.
pub proof fn lemma_rev_involutive(d: Direction)
    ensures
        d.rev_spec().rev_spec() == d,
{
}

} // verus!
