use vstd::prelude::*;

use crate::stone::Stone;

verus! {

/// A player
///
/// Either black or white.
#[derive(Copy, PartialEq, Clone, Eq, Hash, Debug, Structural)]
pub enum Player {
    Black,
    White,
}

impl Player {
    /// The opponent of a player.
    pub open spec fn other_spec(self) -> Player {
        match self {
            Player::Black => Player::White,
            Player::White => Player::Black,
        }
    }

    /// The stone colour a player plays with.
    pub open spec fn stone_spec(self) -> Stone {
        match self {
            Player::Black => Stone::Black,
            Player::White => Stone::White,
        }
    }

    /// Returns the other player
    pub fn other(&self) -> (r: Player)
        ensures
            r == self.other_spec(),
    {
        match *self {
            Player::Black => Player::White,
            Player::White => Player::Black,
        }
    }

    /// Returns the stone the player uses
    pub fn stone(&self) -> (r: Stone)
        ensures
            r == self.stone_spec(),
    {
        match *self {
            Player::Black => Stone::Black,
            Player::White => Stone::White,
        }
    }
}

} // verus!
