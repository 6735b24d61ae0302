use crate::direction::{cell, dir_between, step, Direction};
use crate::error::ErrorKind;
use vstd::prelude::*;

verus! {

/// Where a ship is in its life: being positioned, afloat, or sunk.
#[derive(Clone, Copy, Debug, PartialEq, Eq, Structural)]
pub enum ShipState {
    Placement,
    Active,
    Sunk,
}

/// Each cell of `s` after the first lies one step from its predecessor, away from `d`.
pub open spec fn is_line(s: Seq<[u8; 2]>, d: Direction) -> bool {
    forall|i: int|
        0 <= i < s.len() - 1 ==> #[trigger] cell(s[i + 1]) == step(cell(s[i]), d.spec_opposite())
}

/// The direction a run of two or more cells faces (from its second cell towards its first),
/// if the run is a straight line of adjacent cells.
pub open spec fn line_dir(s: Seq<[u8; 2]>) -> Option<Direction> {
    if s.len() >= 2 {
        match dir_between(cell(s[1]), cell(s[0])) {
            Some(d) => if is_line(s, d) {
                Some(d)
            } else {
                None
            },
            None => None,
        }
    } else {
        None
    }
}

/// Whether `s` may be a ship's position: one cell, or a straight line of adjacent cells.
pub open spec fn line_ok(s: Seq<[u8; 2]>) -> bool {
    s.len() == 1 || line_dir(s) is Some
}

/// The direction a ship at `s` faces; a single cell keeps `fallback`.
pub open spec fn facing(s: Seq<[u8; 2]>, fallback: Direction) -> Direction {
    if s.len() >= 2 {
        line_dir(s)->0
    } else {
        fallback
    }
}

/// Stepping away from `d` undoes a step towards `d`.
pub proof fn lemma_step_back(c: (int, int), d: Direction)
    ensures
        step(step(c, d), d.spec_opposite()) == c,
        step(step(c, d.spec_opposite()), d) == c,
{
}

/// `dir_between` names exactly the direction of a single step.
pub proof fn lemma_dir_between(a: (int, int), b: (int, int), d: Direction)
    ensures
        dir_between(a, b) == Some(d) <==> b == step(a, d),
{
}

/// Checks that a run of at least two cells is a straight line and returns the way it faces.
pub(crate) fn line_direction(pos: &Vec<[u8; 2]>) -> (r: Result<Direction, ErrorKind>)
    requires
        pos.len() >= 2,
    ensures
        r == (match line_dir(pos@) {
            Some(d) => Ok::<Direction, ErrorKind>(d),
            None => Err(ErrorKind::InvalidLine),
        }),
{
    let d = match Direction::from_positions(&pos[1], &pos[0]) {
        Ok(d) => d,
        Err(e) => return Err(e),
    };
    proof {
        lemma_dir_between(cell(pos@[1]), cell(pos@[0]), d);
        lemma_step_back(cell(pos@[1]), d);
    }
    let mut i: usize = 1;
    while i + 1 < pos.len()
        invariant
            1 <= i < pos.len(),
            dir_between(cell(pos@[1]), cell(pos@[0])) == Some(d),
            forall|j: int|
                0 <= j < i ==> #[trigger] cell(pos@[j + 1]) == step(cell(pos@[j]), d.spec_opposite()),
        decreases pos.len() - i,
    {
        let next = Direction::from_positions(&pos[i + 1], &pos[i]);
        proof {
            lemma_dir_between(cell(pos@[i as int + 1]), cell(pos@[i as int]), d);
            lemma_step_back(cell(pos@[i as int + 1]), d);
            lemma_step_back(cell(pos@[i as int]), d.spec_opposite());
        }
        match next {
            Ok(nd) => {
                if nd != d {
                    assert(cell(pos@[i as int + 1]) != step(cell(pos@[i as int]), d.spec_opposite()));
                    return Err(ErrorKind::InvalidLine);
                }
            },
            Err(_) => {
                return Err(ErrorKind::InvalidLine);
            },
        }
        i = i + 1;
    }
    Ok(d)
}

/// A ship: the cells it covers, the way it faces, and its lifecycle.
pub struct Ship {
    state: ShipState,
    position: Vec<[u8; 2]>,
    dir: Direction,
}

impl Ship {
    /// The ship's lifecycle state.
    pub closed spec fn lifecycle(&self) -> ShipState {
        self.state
    }

    /// The cells the ship covers, head first.
    pub closed spec fn cells(&self) -> Seq<[u8; 2]> {
        self.position@
    }

    /// The way the ship faces.
    pub closed spec fn spec_dir(&self) -> Direction {
        self.dir
    }

    /// A ship covers at least one cell, and two or more cells form a straight line that
    /// faces the ship's direction.
    pub open spec fn wf(&self) -> bool {
        &&& self.cells().len() >= 1
        &&& self.cells().len() >= 2 ==> line_dir(self.cells()) == Some(self.spec_dir())
    }

    /// `other` is this ship with its lifecycle set to `st`.
    pub open spec fn relabelled(&self, other: Ship, st: ShipState) -> bool {
        &&& other.cells() == self.cells()
        &&& other.spec_dir() == self.spec_dir()
        &&& other.lifecycle() == st
    }

    /// Creates a ship in the placement state covering `pos`.
    ///
    /// # Errors
    ///
    /// `InvalidLine` when `pos` is not a straight line of adjacent cells.
    pub fn new(pos: Vec<[u8; 2]>) -> (r: Result<Ship, ErrorKind>)
        requires
            pos.len() >= 1,
        ensures
            r is Ok <==> line_ok(pos@),
            r matches Ok(s) ==> {
                &&& s.cells() == pos@
                &&& s.spec_dir() == facing(pos@, Direction::North)
                &&& s.lifecycle() == ShipState::Placement
                &&& s.wf()
            },
            r matches Err(e) ==> e == ErrorKind::InvalidLine,
    {
        let dir = if pos.len() >= 2 {
            match line_direction(&pos) {
                Ok(d) => d,
                Err(e) => return Err(e),
            }
        } else {
            Direction::North
        };
        Ok(Ship { state: ShipState::Placement, position: pos, dir })
    }

    /// Returns the ship's position, head first.
    pub fn pos(&self) -> (r: &[[u8; 2]])
        ensures
            r@ == self.cells(),
    {
        self.position.as_slice()
    }

    /// Moves the ship to `pos` and faces it along the new line.
    ///
    /// # Errors
    ///
    /// `InvalidLine` when `pos` is empty or not a straight line of adjacent cells; the ship is
    /// then left as it was.
    pub fn set_pos(&mut self, pos: Vec<[u8; 2]>) -> (r: Result<(), ErrorKind>)
        requires
            old(self).wf(),
        ensures
            r is Ok <==> line_ok(pos@),
            r is Ok ==> {
                &&& final(self).cells() == pos@
                &&& final(self).spec_dir() == facing(pos@, old(self).spec_dir())
                &&& final(self).lifecycle() == old(self).lifecycle()
            },
            r matches Err(e) ==> e == ErrorKind::InvalidLine && *final(self) == *old(self),
            final(self).wf(),
    {
        if pos.len() == 0 {
            Err(ErrorKind::InvalidLine)
        } else if pos.len() == 1 {
            self.position = pos;
            Ok(())
        } else {
            match line_direction(&pos) {
                Ok(d) => {
                    self.position = pos;
                    self.dir = d;
                    Ok(())
                },
                Err(e) => Err(e),
            }
        }
    }

    /// Returns the way the ship faces.
    pub fn dir(&self) -> (r: Direction)
        ensures
            r == self.spec_dir(),
    {
        self.dir
    }

    /// Returns the number of cells the ship covers.
    pub fn len(&self) -> (r: usize)
        ensures
            r == self.cells().len(),
    {
        self.position.len()
    }

    /// Returns whether the ship is being positioned.
    pub fn is_placement(&self) -> (r: bool)
        ensures
            r == (self.lifecycle() == ShipState::Placement),
    {
        self.state == ShipState::Placement
    }

    /// Returns whether the ship is afloat.
    pub fn is_active(&self) -> (r: bool)
        ensures
            r == (self.lifecycle() == ShipState::Active),
    {
        self.state == ShipState::Active
    }

    /// Puts a ship that was being positioned afloat.
    ///
    /// # Errors
    ///
    /// `InvalidLifecycle` when the ship is not in the placement state; it is then unchanged.
    pub fn set_active(&mut self) -> (r: Result<(), ErrorKind>)
        ensures
            r is Ok <==> old(self).lifecycle() == ShipState::Placement,
            r is Ok ==> old(self).relabelled(*final(self), ShipState::Active),
            r matches Err(e) ==> e == ErrorKind::InvalidLifecycle && *final(self) == *old(self),
    {
        if self.state != ShipState::Placement {
            Err(ErrorKind::InvalidLifecycle)
        } else {
            self.state = ShipState::Active;
            Ok(())
        }
    }

    /// Returns whether the ship has been sunk.
    pub fn is_sunk(&self) -> (r: bool)
        ensures
            r == (self.lifecycle() == ShipState::Sunk),
    {
        self.state == ShipState::Sunk
    }

    /// Sinks an afloat ship.
    ///
    /// # Errors
    ///
    /// `InvalidLifecycle` when the ship is not afloat; it is then unchanged.
    pub fn set_sunk(&mut self) -> (r: Result<(), ErrorKind>)
        ensures
            r is Ok <==> old(self).lifecycle() == ShipState::Active,
            r is Ok ==> old(self).relabelled(*final(self), ShipState::Sunk),
            r matches Err(e) ==> e == ErrorKind::InvalidLifecycle && *final(self) == *old(self),
    {
        if self.state != ShipState::Active {
            Err(ErrorKind::InvalidLifecycle)
        } else {
            self.state = ShipState::Sunk;
            Ok(())
        }
    }
}

} // verus!
