//! The game: whose turn it is, which phase the game is in, and what a
//! placement or a move does to the board.

use vstd::prelude::*;
use arrayvec::ArrayVec;
use rand::rngs::StdRng;
use crate::board::{Board, Player};
use crate::errors::IllegalMoveError;
use crate::fixed::{scores_of, scores_new, scores_push};
use crate::geometry::{crossings, has_open_neighbor};
use crate::NUM_CELLS;

verus! {

/// A game in progress. `turn` counts the placements and moves made so far.
#[derive(Clone, Copy, Debug, Eq, Hash, PartialEq)]
pub struct GameState {
    pub nplayers: usize,
    pub turn: usize,
    pub board: Board,
}

/// What a player, or the table, can do to a game.
#[derive(Clone, Copy, Debug)]
pub enum Action {
    Move(u8, u8),
    Place(u8),
    Selection(u8),
    Setup(GameState),
}

/// The number of turns that the drafting phase takes with `nplayers`
/// players.
pub open spec fn draft_turns(nplayers: int) -> int {
    if nplayers == 3 {
        9
    } else {
        8
    }
}

/// `mid` comes from `start` by walking `n` penguins over their icebergs,
/// one after the other.
pub open spec fn prune_chain(start: Board, mid: Board, n: nat) -> bool
    decreases n,
{
    if n == 0 {
        start == mid
    } else {
        exists|before: Board|
            prune_chain(start, before, (n - 1) as nat) && #[trigger] before.prune_step(mid)
    }
}

/// `after` is `board` without the penguins that can no longer move.
pub open spec fn reaped(board: Board, after: Board) -> bool {
    &&& after.fish == board.fish
    &&& after.claimed == board.claimed
    &&& forall|p: int|
        0 <= p < 2 ==> (#[trigger] after.penguins[p])@ == board.penguins[p]@.filter(
            |c: u8| has_open_neighbor(board.occupied(), c as int),
        )
}

impl GameState {
    /// Two to four players, and a board in order.
    pub open spec fn wf(self) -> bool {
        2 <= self.nplayers <= 4 && self.board.wf()
    }

    /// Every penguin has been placed.
    pub open spec fn spec_finished_drafting(self) -> bool {
        self.turn >= draft_turns(self.nplayers as int)
    }

    /// Every penguin has been placed, and none is left that can move.
    pub open spec fn spec_game_over(self) -> bool {
        self.spec_finished_drafting() && self.board.penguins[0]@ == Set::<u8>::empty()
            && self.board.penguins[1]@ == Set::<u8>::empty()
    }

    /// The player to act: nobody once the game is over; while drafting, the
    /// players in order in the even rounds and in reverse order in the odd
    /// ones; after that the players in turn, passing over one without a
    /// penguin.
    pub open spec fn spec_active_player(self) -> Option<Player> {
        if self.spec_game_over() {
            None
        } else if self.spec_finished_drafting() {
            let p = self.turn % self.nplayers;
            if self.board.penguins[p as int]@ != Set::<u8>::empty() {
                Some(Player { id: p })
            } else {
                Some(Player { id: ((p + 1) % (self.nplayers as int)) as usize })
            }
        } else if (self.turn / self.nplayers) % 2 == 1 {
            Some(Player { id: (self.nplayers - 1 - self.turn % self.nplayers) as usize })
        } else {
            Some(Player { id: self.turn % self.nplayers })
        }
    }

    /// Whether every penguin has been placed.
    pub fn finished_drafting(&self) -> (b: bool)
        requires
            2 <= self.nplayers <= 4,
        ensures
            b == self.spec_finished_drafting(),
    {
        let limit: usize = if self.nplayers == 2 {
            8
        } else if self.nplayers == 3 {
            9
        } else {
            8
        };
        self.turn >= limit
    }

    /// Whether the game is over: every penguin has been placed, and none is
    /// left that can move.
    pub fn game_over(&self) -> (b: bool)
        requires
            2 <= self.nplayers <= 4,
        ensures
            b == self.spec_game_over(),
    {
        self.finished_drafting() && self.board.penguins[0].is_empty()
            && self.board.penguins[1].is_empty()
    }

    /// The player to act, if the game is not over.
    pub fn active_player(&self) -> (r: Option<Player>)
        requires
            2 <= self.nplayers <= 4,
            self.spec_finished_drafting() ==> self.nplayers == 2,
        ensures
            r == self.spec_active_player(),
            r is None <==> self.spec_game_over(),
            r matches Some(p) ==> p.id < self.nplayers,
    {
        if self.game_over() {
            return None;
        }
        if self.finished_drafting() {
            let mut p = self.turn % self.nplayers;
            while self.board.penguins[p].is_empty()
                invariant
                    self.nplayers == 2,
                    !self.spec_game_over(),
                    self.spec_finished_drafting(),
                    p < 2,
                    p == self.turn % self.nplayers || (p == (self.turn % self.nplayers + 1) % 2
                        && self.board.penguins[(self.turn % self.nplayers) as int]@ == Set::<
                        u8,
                    >::empty()),
                decreases
                        if self.board.penguins[p as int]@ == Set::<u8>::empty() {
                            1int
                        } else {
                            0int
                        },
            {
                p += 1;
                p %= self.nplayers;
            }
            Some(Player { id: p })
        } else if self.turn / self.nplayers % 2 == 1 {
            Some(Player { id: self.nplayers - 1 - self.turn % self.nplayers })
        } else {
            Some(Player { id: self.turn % self.nplayers })
        }
    }

    /// The points of each player, in the order of their seats.
    pub fn get_scores(&self) -> (v: ArrayVec<usize, 4>)
        requires
            self.nplayers == 2,
        ensures
            scores_of(v) == seq![
                self.board.spec_score(0) as usize,
                self.board.spec_score(1) as usize,
            ],
    {
        let mut v = scores_new();
        let first = self.board.get_score(Player { id: 0 });
        scores_push(&mut v, first);
        let second = self.board.get_score(Player { id: 1 });
        scores_push(&mut v, second);
        assert(scores_of(v) =~= seq![first, second]);
        v
    }

    /// Whether a penguin may be placed on cell `c`, as far as claims go.
    pub fn is_legal_place(&self, c: u8) -> (b: bool)
        requires
            (c as nat) < NUM_CELLS,
        ensures
            b == !self.board.occupied().contains(c),
    {
        !self.board.is_claimed(c)
    }

    /// Whether the player to act may move a penguin from `src` to `dst`.
    pub fn is_legal_move(&self, src: u8, dst: u8) -> (b: bool)
        requires
            self.nplayers == 2,
            !self.spec_game_over(),
            (src as nat) < NUM_CELLS,
            (dst as nat) < NUM_CELLS,
        ensures
            b == self.board.spec_is_legal_move(self.spec_active_player().unwrap(), src, dst),
    {
        match self.active_player() {
            Some(p) => self.board.is_legal_move(p, src, dst),
            None => false,
        }
    }

    /// Does what `action` says: a move or a placement.
    pub fn apply_action(&mut self, action: &Action) -> (r: Result<(), IllegalMoveError>)
        requires
            action is Move || action is Place,
            old(self).wf(),
            old(self).nplayers == 2,
            !old(self).spec_game_over(),
            old(self).turn < usize::MAX,
            *action matches Action::Move(src, dst) ==> src < 60 && dst < 60,
            *action matches Action::Place(c) ==> c < 60,
        ensures
            final(self).wf(),
            *action matches Action::Move(src, dst) ==> old(self).moved_to(src, dst, r, *final(self)),
            *action matches Action::Place(c) ==> old(self).placed_to(c, r, *final(self)),
    {
        match *action {
            Action::Move(src, dst) => self.move_penguin(src, dst),
            Action::Place(cell_idx) => self.place_penguin(cell_idx),
            _ => vstd::pervasive::unreached(),
        }
    }

    /// A new game for two players on a board with the fish laid out at
    /// random.
    pub fn new_two_player(rng: &mut StdRng) -> (g: GameState)
        ensures
            g.wf(),
            g.nplayers == 2,
            g.turn == 0,
            g.board.occupied() == Set::<u8>::empty(),
            !g.spec_finished_drafting(),
            g.board.fish[0]@.len() == crate::NUM_ONE_FISH,
            g.board.fish[1]@.len() == crate::NUM_TWO_FISH,
            g.board.fish[2]@.len() == crate::NUM_THREE_FISH,
            forall|p: int| 0 <= p < 2 ==> (#[trigger] g.board.penguins[p])@ == Set::<u8>::empty(),
    {
        let nplayers: usize = 2;
        GameState { nplayers, turn: 0, board: Board::new(rng) }
    }

    /// What `place_penguin(c)` makes of this game: it succeeds exactly when
    /// the drafting is not over, cell `c` holds one fish and nobody has
    /// claimed it; then the player to act has claimed `c` and stands on it,
    /// and the turn has passed. Else nothing has changed, and the error
    /// names the player to act.
    pub open spec fn placed_to(self, c: u8, r: Result<(), IllegalMoveError>, after: GameState) -> bool {
        let active = self.spec_active_player().unwrap();
        &&& r is Ok <==> !self.spec_finished_drafting() && self.board.spec_num_fish(c) == 1
            && !self.board.occupied().contains(c)
        &&& r is Ok ==> after.nplayers == self.nplayers && after.turn == self.turn + 1
            && after.board == self.board.after_claim(active, c)
        &&& r matches Err(e) ==> after == self && e.player == active && e.message@ == (
        if self.spec_finished_drafting() {
            "Drafting phase is over"@
        } else if self.board.spec_num_fish(c) != 1 {
            "You must place on a cell containing one fish!"@
        } else {
            crate::board::claimed_message(c)
        })
    }

    /// Places a penguin of the player to act on cell `c`.
    pub fn place_penguin(&mut self, c: u8) -> (r: Result<(), IllegalMoveError>)
        requires
            old(self).wf(),
            old(self).nplayers == 2,
            !old(self).spec_game_over(),
            old(self).turn < usize::MAX,
            (c as nat) < NUM_CELLS,
        ensures
            final(self).wf(),
            old(self).placed_to(c, r, *final(self)),
    {
        let active_player = match self.active_player() {
            Some(p) => p,
            None => {
                return vstd::pervasive::unreached();
            },
        };
        if self.finished_drafting() {
            return Err(IllegalMoveError::new(active_player, "Drafting phase is over".to_owned()));
        }
        if self.board.num_fish(c) != 1 {
            return Err(
                IllegalMoveError::new(
                    active_player,
                    "You must place on a cell containing one fish!".to_owned(),
                ),
            );
        }
        match self.board.claim_cell(active_player, c) {
            Ok(()) => {},
            Err(e) => {
                return Err(e);
            },
        }
        self.turn += 1;
        Ok(())
    }

    /// What `move_penguin(src, dst)` makes of this game: it succeeds exactly
    /// when the drafting is over and the move is legal for the player to
    /// act. Then the penguin has moved and claimed `dst`; if `src` may have
    /// been a cut cell, penguins that were alone on an iceberg have been
    /// walked over it, one after the other, until none was left to walk, so
    /// that no penguin can be walked on the board that came of it;
    /// the penguins that cannot move have been taken off; and the turn has
    /// passed. Else nothing has changed, and the error names the player to
    /// act.
    pub open spec fn moved_to(
        self,
        src: u8,
        dst: u8,
        r: Result<(), IllegalMoveError>,
        after: GameState,
    ) -> bool {
        let active = self.spec_active_player().unwrap();
        let moved = self.board.after_move(active, src, dst);
        &&& r is Ok <==> self.spec_finished_drafting() && self.board.spec_is_legal_move(
            active,
            src,
            dst,
        )
        &&& r is Ok ==> after.nplayers == self.nplayers && after.turn == self.turn + 1 && exists|
            mid: Board,
            n: nat,
        |
            #![trigger prune_chain(moved, mid, n)]
            prune_chain(moved, mid, n) && reaped(mid, after.board) && (crossings(
                moved.occupied(),
                src as int,
                6,
            ).0 < 2 ==> n == 0) && (crossings(moved.occupied(), src as int, 6).0 >= 2
                ==> forall|seed: u8, q: int, c: u8| !#[trigger] mid.can_fill(seed, q, c))
        &&& r matches Err(e) ==> after == self && e.player == active && e.message@ == (
        if !self.spec_finished_drafting() {
            "Drafting phase is not over"@
        } else {
            crate::board::cannot_move_message(active.id, src, dst)
        })
    }

    /// Moves a penguin of the player to act from `src` to `dst`.
    pub fn move_penguin(&mut self, src: u8, dst: u8) -> (r: Result<(), IllegalMoveError>)
        requires
            old(self).wf(),
            old(self).nplayers == 2,
            !old(self).spec_game_over(),
            old(self).turn < usize::MAX,
            (src as nat) < NUM_CELLS,
            (dst as nat) < NUM_CELLS,
        ensures
            final(self).wf(),
            old(self).moved_to(src, dst, r, *final(self)),
    {
        let active_player = match self.active_player() {
            Some(p) => p,
            None => {
                return vstd::pervasive::unreached();
            },
        };
        if !self.finished_drafting() {
            return Err(
                IllegalMoveError::new(active_player, "Drafting phase is not over".to_owned()),
            );
        }
        match self.board.move_penguin(active_player, src, dst) {
            Ok(_) => {},
            Err(e) => {
                return Err(e);
            },
        }
        let ghost moved = self.board;
        let mut needs_prune = self.board.is_cut_cell(src);
        let ghost mut n: nat = 0;
        proof {
            crate::pruning::lemma_occupied_bound(self.board);
        }
        while needs_prune
            invariant
                self.board.wf(),
                self.nplayers == old(self).nplayers,
                self.turn == old(self).turn,
                prune_chain(moved, self.board, n),
                crossings(moved.occupied(), src as int, 6).0 < 2 ==> n == 0 && !needs_prune,
                crossings(moved.occupied(), src as int, 6).0 >= 2 && !needs_prune ==> forall|
                    seed: u8,
                    q: int,
                    c: u8,
                | !#[trigger] self.board.can_fill(seed, q, c),
                self.board.occupied().len() <= 60,
            decreases 60 - self.board.occupied().len(), needs_prune as int,
        {
            needs_prune = self.board.prune();
            proof {
                if needs_prune {
                    n = n + 1;
                }
            }
        }
        let ghost mid = self.board;
        self.board.reap();
        self.turn += 1;
        proof {
            assert(prune_chain(moved, mid, n) && reaped(mid, self.board));
        }
        Ok(())
    }
}

} // verus!
