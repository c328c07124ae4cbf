//! A bot that makes a legal move picked at random.

use vstd::prelude::*;
use rand::rngs::StdRng;
use crate::board::Player;
use crate::game::{Action, GameState};
use crate::geometry::{destinations, has_open_neighbor, lemma_open_neighbor_moves};
use crate::chance::choose_item;
use crate::NUM_CELLS;

verus! {

/// A bot for one player that knows the game and nothing else.
#[derive(Clone, Copy, Debug)]
pub struct RandomBot {
    pub me: Player,
    pub game: GameState,
}

impl RandomBot {
    /// A bot for player `me` in `game`.
    pub fn new(game: &GameState, me: Player) -> (bot: RandomBot)
        ensures
            bot.me == me,
            bot.game == *game,
    {
        RandomBot { game: *game, me }
    }

    /// Tells the bot the new state of the game.
    pub fn update(&mut self, game: &GameState)
        ensures
            final(self).me == old(self).me,
            final(self).game == *game,
    {
        self.game = *game;
    }

    /// A move picked at random: while drafting, any unclaimed cell with
    /// one fish; after that, any penguin of the bot and any cell that it
    /// can move to. It must be the bot's turn; and there must be a cell to
    /// place on, and after the draft every penguin of the bot must be able
    /// to move, as it is after a move of the game.
    pub fn take_action(&mut self, rng: &mut StdRng) -> (action: Action)
        requires
            old(self).game.wf(),
            old(self).game.nplayers == 2,
            old(self).game.spec_active_player() == Some(old(self).me),
            old(self).game.spec_finished_drafting() ==> forall|c: u8|
                old(self).game.board.penguins[old(self).me.id as int]@.contains(c)
                    ==> has_open_neighbor(old(self).game.board.occupied(), c as int),
            !old(self).game.spec_finished_drafting() ==> exists|c: u8|
                c < 60 && old(self).game.board.spec_num_fish(c) == 1 && !old(self).game.board.occupied().contains(c),
        ensures
            *final(self) == *old(self),
            picks(old(self).game, old(self).me, action),
    {
        if self.game.finished_drafting() {
            let penguins = self.game.board.penguins[self.me.id];
            assert(self.game.board.penguins[self.me.id as int].wf());
            let sources = penguins.to_vec();
            let src = match choose_item(&sources, rng) {
                Some(src) => src,
                None => {
                    proof {
                        assert(penguins@ =~= Set::<u8>::empty());
                    }
                    return vstd::pervasive::unreached();
                },
            };
            let moves = self.game.board.moves(src);
            let targets = moves.to_vec();
            match choose_item(&targets, rng) {
                Some(dst) => Action::Move(src, dst),
                None => {
                    proof {
                        lemma_open_neighbor_moves(self.game.board.occupied(), src as int);
                        assert(moves@ =~= Set::<u8>::empty());
                    }
                    vstd::pervasive::unreached()
                },
            }
        } else {
            let mut draftable_cells: Vec<u8> = Vec::new();
            let mut c: u8 = 0;
            while c < NUM_CELLS as u8
                invariant
                    c <= 60,
                    self.game.wf(),
                    forall|i: int|
                        0 <= i < draftable_cells@.len() ==> (#[trigger] draftable_cells@[i]) < 60
                            && self.game.board.spec_num_fish(draftable_cells@[i]) == 1
                            && !self.game.board.occupied().contains(draftable_cells@[i]),
                    forall|d: u8|
                        d < c && self.game.board.spec_num_fish(d) == 1
                            && !self.game.board.occupied().contains(d)
                            ==> draftable_cells@.contains(d),
                decreases 60 - c,
            {
                let ghost before = draftable_cells@;
                if !self.game.board.is_claimed(c) && self.game.board.num_fish(c) == 1 {
                    draftable_cells.push(c);
                    proof {
                        assert(draftable_cells@[before.len() as int] == c);
                    }
                }
                proof {
                    assert forall|d: u8|
                        d < c + 1 && self.game.board.spec_num_fish(d) == 1
                            && !self.game.board.occupied().contains(
                            d,
                        ) implies draftable_cells@.contains(d) by {
                        if d < c {
                            assert(before.contains(d));
                            let i = choose|i: int| 0 <= i < before.len() && before[i] == d;
                            assert(draftable_cells@[i] == d);
                        }
                    }
                }
                c += 1;
            }
            match choose_item(&draftable_cells, rng) {
                Some(cell) => Action::Place(cell),
                None => {
                    proof {
                        let d = choose|d: u8|
                            d < 60 && self.game.board.spec_num_fish(d) == 1
                                && !self.game.board.occupied().contains(d);
                        assert(draftable_cells@.contains(d));
                    }
                    vstd::pervasive::unreached()
                },
            }
        }
    }
}

/// `action` is a move that player `me` may make in `game`: while drafting,
/// a placement on an unclaimed cell with one fish; after that, a move of
/// one of the player's penguins to a cell that a straight walk reaches.
pub open spec fn picks(game: GameState, me: Player, action: Action) -> bool {
    match action {
        Action::Move(src, dst) => game.spec_finished_drafting() && src < 60
            && game.board.penguins[me.id as int]@.contains(src) && destinations(
            game.board.occupied(),
            src as int,
        ).contains(dst),
        Action::Place(c) => !game.spec_finished_drafting() && c < 60 && game.board.spec_num_fish(c)
            == 1 && !game.board.occupied().contains(c),
        _ => false,
    }
}

} // verus!
