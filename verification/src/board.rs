//! A pair of bare masks, one per player.

use vstd::prelude::*;

verus! {

/// The masks of the two players.
pub struct Board {
    pub player_boards: [u128; 2],
}

impl Board {
    /// Two empty masks.
    pub fn new() -> (b: Self)
        ensures
            b.player_boards[0] == 0,
            b.player_boards[1] == 0,
    {
        Board { player_boards: [0;2] }
    }
}

} // verus!
