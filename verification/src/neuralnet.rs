//! What a predictor of policy and value is shown of a position: eight
//! planes of one mark for each cell.

use vstd::prelude::*;
use crate::game::GameState;
use crate::NUM_CELLS;

verus! {

/// Number of planes.
pub const NUM_PLANES: usize = 8;

/// Number of marks in all.
pub const NUM_FEATURES: usize = 480;

/// Whether cell `c` is marked on plane `plane` for `current_player`: on
/// planes 0 to 2 the cells with one, two and three fish; on 3 and 4 the
/// penguins of the player and of the opponent; on 5 and 6 the cells that
/// the player and the opponent have claimed; on 7 every cell while
/// drafting, and none after.
pub open spec fn marked(game: GameState, current_player: int, plane: int, c: u8) -> bool {
    if plane < 3 {
        game.board.fish[plane]@.contains(c)
    } else if plane == 3 {
        game.board.penguins[current_player]@.contains(c)
    } else if plane == 4 {
        game.board.penguins[1 - current_player]@.contains(c)
    } else if plane == 5 {
        game.board.claimed[current_player]@.contains(c)
    } else if plane == 6 {
        game.board.claimed[1 - current_player]@.contains(c)
    } else {
        !game.spec_finished_drafting()
    }
}

/// The planes of `game` as `current_player` sees it, one after the other:
/// a one for each marked cell and a zero for every other.
pub fn extract_features(game: &GameState, current_player: usize) -> (features: Vec<u8>)
    requires
        2 <= game.nplayers <= 4,
        current_player < 2,
    ensures
        features@.len() == NUM_FEATURES,
        forall|plane: int, c: u8|
            #![trigger marked(*game, current_player as int, plane, c)]
            0 <= plane < 8 && c < 60 ==> features@[plane * 60 + c] == if marked(
                *game,
                current_player as int,
                plane,
                c,
            ) {
                1u8
            } else {
                0u8
            },
{
    let opponent = 1 - current_player;
    let is_drafting = !game.finished_drafting();
    let mut features: Vec<u8> = Vec::new();
    let mut plane: usize = 0;
    while plane < NUM_PLANES
        invariant
            plane <= 8,
            current_player < 2,
            opponent == 1 - current_player,
            is_drafting == !game.spec_finished_drafting(),
            features@.len() == plane * 60,
            forall|p: int, c: u8|
                #![trigger marked(*game, current_player as int, p, c)]
                0 <= p < plane && c < 60 ==> features@[p * 60 + c] == if marked(
                    *game,
                    current_player as int,
                    p,
                    c,
                ) {
                    1u8
                } else {
                    0u8
                },
        decreases 8 - plane,
    {
        let mut cell: u8 = 0;
        while cell < NUM_CELLS as u8
            invariant
                plane < 8,
                cell <= 60,
                current_player < 2,
                opponent == 1 - current_player,
                is_drafting == !game.spec_finished_drafting(),
                features@.len() == plane * 60 + cell,
                forall|p: int, c: u8|
                    #![trigger marked(*game, current_player as int, p, c)]
                    (0 <= p < plane && c < 60) || (p == plane && c < cell) ==> features@[p * 60 + c]
                        == if marked(*game, current_player as int, p, c) {
                        1u8
                    } else {
                        0u8
                    },
            decreases 60 - cell,
        {
            let on = if plane < 3 {
                game.board.fish[plane].contains(cell)
            } else if plane == 3 {
                game.board.penguins[current_player].contains(cell)
            } else if plane == 4 {
                game.board.penguins[opponent].contains(cell)
            } else if plane == 5 {
                game.board.claimed[current_player].contains(cell)
            } else if plane == 6 {
                game.board.claimed[opponent].contains(cell)
            } else {
                is_drafting
            };
            assert(on == marked(*game, current_player as int, plane as int, cell));
            features.push(
                if on {
                    1
                } else {
                    0
                },
            );
            cell += 1;
        }
        plane += 1;
    }
    features
}

} // verus!
