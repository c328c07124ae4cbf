//! The error that a rejected move carries.

use vstd::prelude::*;
use crate::board::Player;

verus! {

/// A move that the rules reject: who tried it, and why it was rejected.
#[derive(Debug)]
pub struct IllegalMoveError {
    pub player: Player,
    pub message: String,
}

impl IllegalMoveError {
    /// The error for a move of `player` that was rejected with `message`.
    pub fn new(player: Player, message: String) -> (e: IllegalMoveError)
        ensures
            e.player == player,
            e.message == message,
    {
        IllegalMoveError { player, message }
    }
}

} // verus!
