use vstd::prelude::*;

verus! {

/// How the presentation draws the board.
pub struct AppSettings {
    /// The side of one grid cell, in pixels.
    pub space_size: u32,
}

/// The configuration of a match: the grid's width and height, and the length of each ship
/// in the order they are placed.
pub struct GameSettings {
    pub spaces: [u8; 2],
    pub ships: Vec<u8>,
}

impl GameSettings {
    /// A match can be played with these settings: the grid has cells, there is at least one
    /// ship, and every ship has at least one cell and fits across the grid's first row.
    pub open spec fn valid(&self) -> bool {
        &&& self.spaces[0] >= 1
        &&& self.spaces[1] >= 1
        &&& self.ships@.len() >= 1
        &&& forall|i: int|
            0 <= i < self.ships@.len() ==> 1 <= #[trigger] self.ships@[i] <= self.spaces[0]
    }

    /// Returns the classic settings: a 10 by 10 grid and ships of 2, 3, 4 and 5 cells.
    pub fn defaults() -> (r: GameSettings)
        ensures
            r.spaces == [10u8, 10u8],
            r.ships@ == seq![2u8, 3u8, 4u8, 5u8],
            r.valid(),
    {
        let r = GameSettings { spaces: [10, 10], ships: vec![2, 3, 4, 5] };
        assert(r.ships@ =~= seq![2u8, 3u8, 4u8, 5u8]);
        r
    }

    /// Returns whether a match can be played with these settings.
    pub fn is_valid(&self) -> (r: bool)
        ensures
            r == self.valid(),
    {
        if self.spaces[0] == 0 || self.spaces[1] == 0 || self.ships.len() == 0 {
            return false;
        }
        let mut i: usize = 0;
        while i < self.ships.len()
            invariant
                i <= self.ships@.len(),
                forall|k: int| 0 <= k < i ==> 1 <= #[trigger] self.ships@[k] <= self.spaces[0],
            decreases self.ships@.len() - i,
        {
            if self.ships[i] == 0 || self.ships[i] > self.spaces[0] {
                return false;
            }
            i = i + 1;
        }
        true
    }
}

} // verus!
