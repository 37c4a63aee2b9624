use vstd::prelude::*;

verus! {

/// One of the four cardinal facings of a rover.
#[derive(Clone, Copy, Debug, PartialEq, Eq, Hash, Structural)]
pub enum Direction {
    North,
    East,
    South,
    West,
}

impl Direction {
    /// The facing reached by a quarter turn clockwise.
    pub open spec fn right_of(self) -> Direction {
        match self {
            Direction::North => Direction::East,
            Direction::East => Direction::South,
            Direction::South => Direction::West,
            Direction::West => Direction::North,
        }
    }

    /// The facing reached by a quarter turn counter-clockwise.
    pub open spec fn left_of(self) -> Direction {
        match self {
            Direction::North => Direction::West,
            Direction::East => Direction::North,
            Direction::South => Direction::East,
            Direction::West => Direction::South,
        }
    }

    /// Displacement along x of one step in this facing.
    pub open spec fn dx(self) -> int {
        match self {
            Direction::East => 1,
            Direction::West => -1,
            _ => 0,
        }
    }

    /// Displacement along y of one step in this facing.
    pub open spec fn dy(self) -> int {
        match self {
            Direction::North => 1,
            Direction::South => -1,
            _ => 0,
        }
    }

    /// A small integer that tells the four facings apart.
    pub open spec fn index(self) -> int {
        match self {
            Direction::North => 0,
            Direction::East => 1,
            Direction::South => 2,
            Direction::West => 3,
        }
    }

    pub fn turn_right(self) -> (r: Direction)
        ensures
            r == self.right_of(),
    {
        match self {
            Direction::North => Direction::East,
            Direction::East => Direction::South,
            Direction::South => Direction::West,
            Direction::West => Direction::North,
        }
    }

    pub fn turn_left(self) -> (r: Direction)
        ensures
            r == self.left_of(),
    {
        match self {
            Direction::North => Direction::West,
            Direction::East => Direction::North,
            Direction::South => Direction::East,
            Direction::West => Direction::South,
        }
    }

    /// The facing's name, as used in a rover's textual form.
    pub fn name(self) -> (r: &'static str)
        ensures
            self == Direction::North ==> r@ == "North"@,
            self == Direction::East ==> r@ == "East"@,
            self == Direction::South ==> r@ == "South"@,
            self == Direction::West ==> r@ == "West"@,
    {
        match self {
            Direction::North => "North",
            Direction::East => "East",
            Direction::South => "South",
            Direction::West => "West",
        }
    }
}

/// Turning right four times in a row gives back the facing one started with,
/// and a left turn undoes a right turn (and the other way round).
pub proof fn lemma_rotation_cycle(d: Direction)
    ensures
        d.right_of().right_of().right_of().right_of() == d,
        d.right_of().left_of() == d,
        d.left_of().right_of() == d,
{
}

} // verus!
