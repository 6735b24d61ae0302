use crate::error::ErrorKind;
use crate::rng::random_below;
use rand::rngs::StdRng;
use vstd::prelude::*;

verus! {

/// A grid cell as a pair of mathematical integers `(x, y)`.
pub type Cell = (int, int);

/// The cell that a grid coordinate pair denotes.
pub open spec fn cell(p: [u8; 2]) -> Cell {
    (p[0] as int, p[1] as int)
}

/// One of the four compass directions. North decreases `y`, East increases `x`.
#[derive(Clone, Copy, Debug, PartialEq, Eq, Structural)]
pub enum Direction {
    North,
    East,
    South,
    West,
}

/// The cell one step from `c` in direction `d`.
pub open spec fn step(c: Cell, d: Direction) -> Cell {
    match d {
        Direction::North => (c.0, c.1 - 1),
        Direction::East => (c.0 + 1, c.1),
        Direction::South => (c.0, c.1 + 1),
        Direction::West => (c.0 - 1, c.1),
    }
}

/// The cell `k` steps from `c` in direction `d`.
pub open spec fn steps(c: Cell, d: Direction, k: int) -> Cell {
    match d {
        Direction::North => (c.0, c.1 - k),
        Direction::East => (c.0 + k, c.1),
        Direction::South => (c.0, c.1 + k),
        Direction::West => (c.0 - k, c.1),
    }
}

/// The direction of a single step from `a` to `b`, if `b` is an orthogonal neighbour of `a`.
pub open spec fn dir_between(a: Cell, b: Cell) -> Option<Direction> {
    if b == step(a, Direction::North) {
        Some(Direction::North)
    } else if b == step(a, Direction::East) {
        Some(Direction::East)
    } else if b == step(a, Direction::South) {
        Some(Direction::South)
    } else if b == step(a, Direction::West) {
        Some(Direction::West)
    } else {
        None
    }
}

impl Direction {
    pub open spec fn spec_opposite(self) -> Direction {
        match self {
            Direction::North => Direction::South,
            Direction::East => Direction::West,
            Direction::South => Direction::North,
            Direction::West => Direction::East,
        }
    }

    pub open spec fn spec_rotated(self) -> Direction {
        match self {
            Direction::North => Direction::East,
            Direction::East => Direction::South,
            Direction::South => Direction::West,
            Direction::West => Direction::North,
        }
    }

    /// The four directions in clockwise order from North.
    pub open spec fn spec_all() -> Seq<Direction> {
        seq![Direction::North, Direction::East, Direction::South, Direction::West]
    }

    /// Returns the direction pointing the opposite way.
    pub fn opposite(&self) -> (r: Direction)
        ensures
            r == self.spec_opposite(),
    {
        match *self {
            Direction::North => Direction::South,
            Direction::East => Direction::West,
            Direction::South => Direction::North,
            Direction::West => Direction::East,
        }
    }

    /// Returns the direction rotated 90 degrees clockwise.
    pub fn rotated(&self) -> (r: Direction)
        ensures
            r == self.spec_rotated(),
    {
        match *self {
            Direction::North => Direction::East,
            Direction::East => Direction::South,
            Direction::South => Direction::West,
            Direction::West => Direction::North,
        }
    }

    /// Returns every direction, clockwise from North.
    pub fn all() -> (r: [Direction; 4])
        ensures
            r@ == Self::spec_all(),
    {
        let r = [Direction::North, Direction::East, Direction::South, Direction::West];
        assert(r@ =~= Self::spec_all());
        r
    }

    /// Returns the direction at `i` in clockwise order from North.
    pub fn from_index(i: usize) -> (r: Direction)
        requires
            i < 4,
        ensures
            r == Self::spec_all()[i as int],
    {
        match i {
            0 => Direction::North,
            1 => Direction::East,
            2 => Direction::South,
            _ => Direction::West,
        }
    }

    /// Returns a direction drawn uniformly from `rng`: the one at a position drawn from the
    /// four.
    pub fn random(rng: &mut StdRng) -> (r: Direction)
        ensures
            Self::spec_all().contains(r),
    {
        let i = random_below(rng, 4);
        let r = Direction::from_index(i);
        proof {
            assert(Self::spec_all()[i as int] == r);
        }
        r
    }

    /// Returns the direction travelled from `pos1` to `pos2` when the two positions are
    /// orthogonal neighbours.
    ///
    /// # Errors
    ///
    /// `InvalidLine` when the positions are not one unit apart along exactly one axis.
    pub fn from_positions(pos1: &[u8; 2], pos2: &[u8; 2]) -> (r: Result<Direction, ErrorKind>)
        ensures
            r == (match dir_between(cell(*pos1), cell(*pos2)) {
                Some(d) => Ok::<Direction, ErrorKind>(d),
                None => Err(ErrorKind::InvalidLine),
            }),
    {
        let x1 = pos1[0];
        let y1 = pos1[1];
        let x2 = pos2[0];
        let y2 = pos2[1];
        if x1 == x2 && y2 < y1 && y1 - y2 == 1 {
            Ok(Direction::North)
        } else if y1 == y2 && x1 < x2 && x2 - x1 == 1 {
            Ok(Direction::East)
        } else if x1 == x2 && y1 < y2 && y2 - y1 == 1 {
            Ok(Direction::South)
        } else if y1 == y2 && x2 < x1 && x1 - x2 == 1 {
            Ok(Direction::West)
        } else {
            Err(ErrorKind::InvalidLine)
        }
    }
}

} // verus!
