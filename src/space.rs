use crate::direction::{cell, Cell};
use crate::error::ErrorKind;
use vstd::prelude::*;

verus! {

/// What is known of a grid cell: not yet fired at, or fired at with the outcome.
#[derive(Clone, Copy, Debug, PartialEq, Eq, Structural)]
pub enum SpaceState {
    Unchecked,
    Checked(bool),
}

/// One cell of a player's grid.
pub struct Space {
    state: SpaceState,
    position: [u8; 2],
}

impl Space {
    /// The cell's state.
    pub closed spec fn state(&self) -> SpaceState {
        self.state
    }

    /// The cell's coordinates.
    pub closed spec fn spec_pos(&self) -> [u8; 2] {
        self.position
    }

    /// The cell's coordinates as a `Cell`.
    pub open spec fn at(&self) -> Cell {
        cell(self.spec_pos())
    }

    /// Creates an unchecked space at `pos`.
    pub fn new(pos: [u8; 2]) -> (r: Space)
        ensures
            r.state() == SpaceState::Unchecked,
            r.spec_pos() == pos,
    {
        Space { state: SpaceState::Unchecked, position: pos }
    }

    /// Marks this space as checked, recording whether a ship was hit.
    ///
    /// # Errors
    ///
    /// `AlreadyChecked` when the space was checked before; it is then left as it was.
    pub fn set_checked(&mut self, hit: bool) -> (r: Result<(), ErrorKind>)
        ensures
            final(self).spec_pos() == old(self).spec_pos(),
            old(self).state() == SpaceState::Unchecked ==> r is Ok && final(self).state()
                == SpaceState::Checked(hit),
            old(self).state() != SpaceState::Unchecked ==> r == Err::<(), ErrorKind>(
                ErrorKind::AlreadyChecked,
            ) && *final(self) == *old(self),
    {
        match self.state {
            SpaceState::Unchecked => {
                self.state = SpaceState::Checked(hit);
                Ok(())
            },
            SpaceState::Checked(_) => Err(ErrorKind::AlreadyChecked),
        }
    }

    /// Returns whether the space has not been checked yet.
    pub fn is_unchecked(&self) -> (r: bool)
        ensures
            r == (self.state() == SpaceState::Unchecked),
    {
        self.state == SpaceState::Unchecked
    }

    /// Returns whether the space was checked and held no ship.
    pub fn is_empty(&self) -> (r: bool)
        ensures
            r == (self.state() == SpaceState::Checked(false)),
    {
        self.state == SpaceState::Checked(false)
    }

    /// Returns whether the space was checked and held a ship.
    pub fn is_hit(&self) -> (r: bool)
        ensures
            r == (self.state() == SpaceState::Checked(true)),
    {
        self.state == SpaceState::Checked(true)
    }

    /// Returns the space's coordinates.
    pub fn pos(&self) -> (r: &[u8; 2])
        ensures
            *r == self.spec_pos(),
    {
        &self.position
    }
}

} // verus!
