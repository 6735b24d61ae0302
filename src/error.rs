use vstd::prelude::*;

verus! {

/// The ways in which an operation on the board can be refused.
#[derive(Clone, Copy, Debug, PartialEq, Eq, Structural)]
pub enum ErrorKind {
    /// A position, movement or rotation would leave the grid.
    OutOfBounds,
    /// A placement collides with another ship (or, for a computer player, touches one).
    Overlap,
    /// A cell was selected a second time.
    AlreadyChecked,
    /// The ship or the game is not in the state the operation needs.
    InvalidLifecycle,
    /// A ship position is not a straight run of adjacent cells.
    InvalidLine,
    /// No ship occupies the given cell.
    NoShip,
}

} // verus!
