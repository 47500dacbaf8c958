use vstd::prelude::*;
use crate::xy::XY;

verus! {

/// The four compass directions a walker in the maze can face.
#[derive(Debug, Clone, Copy, Hash, Eq, PartialEq, Structural)]
pub enum Direction {
    North,
    South,
    East,
    West,
}

/// The stable index of each direction, used to address the four route
/// nodes of a cell inside the node arena.
pub open spec fn spec_dir_index(d: Direction) -> int {
    match d {
        Direction::North => 0,
        Direction::South => 1,
        Direction::East => 2,
        Direction::West => 3,
    }
}

/// The direction with the given stable index.
pub open spec fn spec_dir_of_index(i: int) -> Direction {
    if i == 0 {
        Direction::North
    } else if i == 1 {
        Direction::South
    } else if i == 2 {
        Direction::East
    } else {
        Direction::West
    }
}

impl Direction {
    /// The opposite direction.
    pub fn mirror(&self) -> (r: Direction)
        ensures
            r == self.spec_mirror(),
    {
        match self {
            Direction::North => Direction::South,
            Direction::South => Direction::North,
            Direction::East => Direction::West,
            Direction::West => Direction::East,
        }
    }

    pub open spec fn spec_mirror(self) -> Direction {
        match self {
            Direction::North => Direction::South,
            Direction::South => Direction::North,
            Direction::East => Direction::West,
            Direction::West => Direction::East,
        }
    }

    /// The direction after a quarter turn to the right.
    pub fn clockwise(&self) -> (r: Direction)
        ensures
            r == self.spec_clockwise(),
    {
        match self {
            Direction::North => Direction::East,
            Direction::South => Direction::West,
            Direction::East => Direction::South,
            Direction::West => Direction::North,
        }
    }

    pub open spec fn spec_clockwise(self) -> Direction {
        match self {
            Direction::North => Direction::East,
            Direction::South => Direction::West,
            Direction::East => Direction::South,
            Direction::West => Direction::North,
        }
    }

    /// The direction after a quarter turn to the left.
    pub fn counter_clockwise(&self) -> (r: Direction)
        ensures
            r == self.spec_counter_clockwise(),
    {
        match self {
            Direction::North => Direction::West,
            Direction::South => Direction::East,
            Direction::East => Direction::North,
            Direction::West => Direction::South,
        }
    }

    pub open spec fn spec_counter_clockwise(self) -> Direction {
        match self {
            Direction::North => Direction::West,
            Direction::South => Direction::East,
            Direction::East => Direction::North,
            Direction::West => Direction::South,
        }
    }

    /// The unit offset one forward step in this direction adds to a
    /// position, with x growing eastward and y growing southward.
    pub fn as_offset(&self) -> (r: XY)
        ensures
            r.x == self.spec_offset_x(),
            r.y == self.spec_offset_y(),
    {
        match self {
            Direction::North => XY::new(0, -1),
            Direction::South => XY::new(0, 1),
            Direction::East => XY::new(1, 0),
            Direction::West => XY::new(-1, 0),
        }
    }

    pub open spec fn spec_offset_x(self) -> int {
        match self {
            Direction::North => 0,
            Direction::South => 0,
            Direction::East => 1,
            Direction::West => -1,
        }
    }

    pub open spec fn spec_offset_y(self) -> int {
        match self {
            Direction::North => -1,
            Direction::South => 1,
            Direction::East => 0,
            Direction::West => 0,
        }
    }

    /// An arrow glyph pointing the way this direction points.
    pub fn as_char(&self) -> (r: char)
        ensures
            r == (match self {
                Direction::North => '^',
                Direction::South => 'v',
                Direction::East => '>',
                Direction::West => '<',
            }),
    {
        match self {
            Direction::North => '^',
            Direction::South => 'v',
            Direction::East => '>',
            Direction::West => '<',
        }
    }

    /// The compass initial of this direction.
    pub fn as_letter(&self) -> (r: char)
        ensures
            r == (match self {
                Direction::North => 'N',
                Direction::South => 'S',
                Direction::East => 'E',
                Direction::West => 'W',
            }),
    {
        match self {
            Direction::North => 'N',
            Direction::South => 'S',
            Direction::East => 'E',
            Direction::West => 'W',
        }
    }

    /// The direction with the given stable index.
    pub fn of_index(i: usize) -> (r: Direction)
        requires
            i < 4,
        ensures
            r == spec_dir_of_index(i as int),
    {
        if i == 0 {
            Direction::North
        } else if i == 1 {
            Direction::South
        } else if i == 2 {
            Direction::East
        } else {
            Direction::West
        }
    }

    /// The stable index of this direction.
    pub fn index(&self) -> (r: usize)
        ensures
            r == spec_dir_index(*self),
    {
        match self {
            Direction::North => 0,
            Direction::South => 1,
            Direction::East => 2,
            Direction::West => 3,
        }
    }
}

} // verus!
