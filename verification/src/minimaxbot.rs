//! A bot that looks a few moves ahead and takes the move after which its
//! lead over the other player is largest, when each player does the same.

use vstd::prelude::*;
use rand::rngs::StdRng;
use crate::board::{Board, Player};
use crate::game::{reaped, Action, GameState};
use crate::geometry::{has_open_neighbor, lemma_destination_clear, lemma_open_neighbor_moves};
use crate::mctsbot::{is_penguin_move, lists_penguin_moves, penguin_moves, Move};
use crate::randombot::picks;
use crate::chance::choose_item;

verus! {

/// A bot for one player that looks `ply` moves ahead.
#[derive(Clone, Copy, Debug)]
pub struct MinimaxBot {
    pub me: Player,
    pub game: GameState,
    pub ply: i32,
}

/// No score is higher than this.
pub const MAX_SCORE: usize = 384;

/// The highest of the scores of the players other than `p`; 0 where there
/// is no other.
pub open spec fn best_other(scores: Seq<usize>, p: int, n: int) -> int
    decreases n,
{
    if n <= 0 {
        0
    } else {
        let before = best_other(scores, p, n - 1);
        if n - 1 != p && scores[n - 1] > before {
            scores[n - 1] as int
        } else {
            before
        }
    }
}

/// The game is one that the search can look ahead in: two players, the
/// draft over, a board in order on which every penguin can move, and room
/// for the turn counter to grow by `ply`.
pub open spec fn searchable(game: GameState, ply: i32) -> bool {
    &&& game.wf()
    &&& game.nplayers == 2
    &&& game.spec_finished_drafting()
    &&& game.turn + if ply > 0 {
        ply as int
    } else {
        0
    } < usize::MAX
    &&& forall|q: int, c: u8|
        0 <= q < 2 && #[trigger] game.board.penguins[q]@.contains(c) ==> has_open_neighbor(
            game.board.occupied(),
            c as int,
        )
}

impl MinimaxBot {
    /// A bot for player `me` that looks two moves ahead.
    pub fn new(game: &GameState, me: Player) -> (bot: MinimaxBot)
        ensures
            bot.me == me,
            bot.game == *game,
            bot.ply == 2,
    {
        MinimaxBot { game: *game, me, ply: 2 }
    }

    /// A bot for player `me` that looks `ply` moves ahead.
    pub fn new_with_ply(game: &GameState, me: Player, ply: i32) -> (bot: MinimaxBot)
        ensures
            bot.me == me,
            bot.game == *game,
            bot.ply == ply,
    {
        MinimaxBot { game: *game, me, ply }
    }

    /// Tells the bot the new state of the game.
    pub fn update(&mut self, game: &GameState)
        ensures
            final(self).me == old(self).me,
            final(self).ply == old(self).ply,
            final(self).game == *game,
    {
        self.game = *game;
    }

    /// The move to make: while drafting, an unclaimed cell with one fish,
    /// picked at random; after that, the best move that looking ahead
    /// finds. It must be the bot's turn.
    pub fn take_action(&mut self, rng: &mut StdRng) -> (action: Action)
        requires
            old(self).game.wf(),
            old(self).game.nplayers == 2,
            old(self).game.spec_active_player() == Some(old(self).me),
            old(self).game.spec_finished_drafting() ==> searchable(old(self).game, old(self).ply),
            !old(self).game.spec_finished_drafting() ==> exists|c: u8|
                c < 60 && old(self).game.board.spec_num_fish(c) == 1 && !old(self).game.board.occupied().contains(c),
        ensures
            *final(self) == *old(self),
            picks(old(self).game, old(self).me, action),
    {
        if self.game.finished_drafting() {
            let (_, (src, dst)) = MinimaxBot::best_move(&self.game, &self.me, self.ply);
            Action::Move(src, dst)
        } else {
            // cells with one fish and nobody claiming them
            assert(self.game.board.fish[0].wf());
            let draftable_cells = self.game.board.fish[0].exclude(
                self.game.board.all_claimed_cells(),
            );
            let cells = draftable_cells.to_vec();
            match choose_item(&cells, rng) {
                Some(c) => Action::Place(c),
                None => {
                    proof {
                        let d = choose|d: u8|
                            d < 60 && self.game.board.spec_num_fish(d) == 1
                                && !self.game.board.occupied().contains(d);
                        assert(draftable_cells@.contains(d));
                        assert(cells@.contains(d));
                    }
                    vstd::pervasive::unreached()
                },
            }
        }
    }

    /// The best move of player `p`, who is to act, with the scores that
    /// looking `ply` moves ahead expects after it: of the moves with the
    /// largest lead for `p`, the last. Without looking ahead, every move
    /// scores as the board stands, so the last move of all is taken.
    pub fn best_move(game: &GameState, p: &Player, ply: i32) -> (r: (Vec<usize>, (u8, u8)))
        requires
            searchable(*game, ply),
            game.spec_active_player() == Some(*p),
        ensures
            r.0@.len() == 2,
            r.0@[0] <= MAX_SCORE && r.0@[1] <= MAX_SCORE,
            is_penguin_move(game.board, *p, Move::Move(r.1)),
            ply <= 0 ==> r.0@ == seq![
                game.board.spec_score(0) as usize,
                game.board.spec_score(1) as usize,
            ] && forall|m: Move|
                is_penguin_move(game.board, *p, m) ==> m.key() <= Move::Move(r.1).key(),
        decreases
                if ply > 0 {
                    ply as int
                } else {
                    0
                },
                1int,
    {
        let moves = MinimaxBot::all_moves(game, *p);
        proof {
            // the player to act has a penguin, and every penguin can move
            let mine = game.board.penguins[p.id as int]@;
            let occ = game.board.occupied();
            assert(mine != Set::<u8>::empty());
            assert(exists|c: u8| mine.contains(c)) by {
                if !(exists|c: u8| mine.contains(c)) {
                    assert(mine =~= Set::<u8>::empty());
                }
            }
            let c = choose|c: u8| mine.contains(c);
            assert(game.board.penguins[p.id as int].wf());
            lemma_open_neighbor_moves(occ, c as int);
            let reach = crate::geometry::destinations(occ, c as int);
            assert(exists|d: u8| reach.contains(d)) by {
                if !(exists|d: u8| reach.contains(d)) {
                    assert(reach =~= Set::<u8>::empty());
                }
            }
            let d = choose|d: u8| reach.contains(d);
            assert(is_penguin_move(game.board, *p, Move::Move((c, d))));
            let listed = Seq::new(moves@.len(), |i: int| Move::Move(moves@[i]));
            assert(listed.contains(Move::Move((c, d))));
            assert(moves@.len() > 0);
        }
        let mut best_scores = MinimaxBot::score_move(game, &moves[0], ply);
        let mut best = moves[0];
        let mut best_key = MinimaxBot::negamax_score(best_scores.as_slice(), p);
        let mut i: usize = 1;
        while i < moves.len()
            invariant
                1 <= i <= moves.len(),
                searchable(*game, ply),
                game.spec_active_player() == Some(*p),
                forall|j: int|
                    0 <= j < moves@.len() ==> is_penguin_move(
                        game.board,
                        *p,
                        Move::Move(#[trigger] moves@[j]),
                    ),
                best_scores@.len() == 2,
                best_scores@[0] <= MAX_SCORE && best_scores@[1] <= MAX_SCORE,
                is_penguin_move(game.board, *p, Move::Move(best)),
                ply <= 0 ==> best == moves@[i - 1] && best_scores@ == seq![
                    game.board.spec_score(0) as usize,
                    game.board.spec_score(1) as usize,
                ] && best_key == best_scores@[p.id as int] - best_other(
                    best_scores@,
                    p.id as int,
                    2,
                ),
            decreases moves.len() - i,
        {
            let scores = MinimaxBot::score_move(game, &moves[i], ply);
            let key = MinimaxBot::negamax_score(scores.as_slice(), p);
            if key >= best_key {
                best_scores = scores;
                best = moves[i];
                best_key = key;
            }
            i += 1;
        }
        proof {
            if ply <= 0 {
                let listed = Seq::new(moves@.len(), |i: int| Move::Move(moves@[i]));
                assert forall|m: Move| is_penguin_move(game.board, *p, m) implies m.key()
                    <= Move::Move(best).key() by {
                    assert(listed.contains(m));
                    let j = choose|j: int| 0 <= j < listed.len() && listed[j] == m;
                    assert(listed[moves@.len() - 1] == Move::Move(best));
                    if j < moves@.len() - 1 {
                        assert(listed[j].key() < listed[moves@.len() - 1].key());
                    }
                }
            }
        }
        (best_scores, best)
    }

    /// The scores that looking `ply` moves ahead expects after the move
    /// `mv` of the player to act; the scores as they stand where `ply` is
    /// not positive.
    pub fn score_move(game: &GameState, mv: &(u8, u8), ply: i32) -> (scores: Vec<usize>)
        requires
            searchable(*game, ply),
            game.spec_active_player() is Some,
            is_penguin_move(game.board, game.spec_active_player().unwrap(), Move::Move(*mv)),
        ensures
            scores@.len() == 2,
            scores@[0] <= MAX_SCORE && scores@[1] <= MAX_SCORE,
            ply <= 0 ==> scores@ == seq![
                game.board.spec_score(0) as usize,
                game.board.spec_score(1) as usize,
            ],
        decreases
                if ply > 0 {
                    ply as int
                } else {
                    0
                },
                0int,
    {
        if ply <= 0 {
            return MinimaxBot::scores_of(game);
        }
        let mut after = *game;
        proof {
            lemma_destination_clear(game.board.occupied(), mv.0, mv.1);
            crate::geometry::lemma_destinations_on_board(game.board.occupied(), mv.0 as int);
        }
        let moved = after.move_penguin(mv.0, mv.1);
        assert(moved is Ok);
        proof {
            let start = game.board.after_move(game.spec_active_player().unwrap(), mv.0, mv.1);
            let (mid, n) = choose|mid: Board, n: nat|
                #![trigger crate::game::prune_chain(start, mid, n)]
                crate::game::prune_chain(start, mid, n) && reaped(mid, after.board);
            assert(after.board.occupied() == mid.occupied());
            assert forall|q: int, c: u8|
                0 <= q < 2 && #[trigger] after.board.penguins[q]@.contains(
                    c,
                ) implies has_open_neighbor(after.board.occupied(), c as int) by {
                assert(after.board.penguins[q]@ == mid.penguins[q]@.filter(
                    |c: u8| has_open_neighbor(mid.occupied(), c as int),
                ));
            }
        }
        match after.active_player() {
            Some(new_active_player) => {
                let (scores, _) = MinimaxBot::best_move(&after, &new_active_player, ply - 1);
                scores
            },
            None => MinimaxBot::scores_of(&after),
        }
    }

    /// The scores of the two players as they stand.
    fn scores_of(game: &GameState) -> (scores: Vec<usize>)
        requires
            game.nplayers == 2,
        ensures
            scores@ == seq![game.board.spec_score(0) as usize, game.board.spec_score(1) as usize],
            scores@[0] <= MAX_SCORE && scores@[1] <= MAX_SCORE,
    {
        let mut scores: Vec<usize> = Vec::new();
        scores.push(game.board.get_score(Player { id: 0 }));
        scores.push(game.board.get_score(Player { id: 1 }));
        assert(scores@ =~= seq![
            game.board.spec_score(0) as usize,
            game.board.spec_score(1) as usize,
        ]);
        scores
    }

    /// The lead of player `p`: its score less the highest score of the
    /// other players.
    pub fn negamax_score(scores: &[usize], p: &Player) -> (lead: i32)
        requires
            p.id < scores@.len(),
            forall|i: int| 0 <= i < scores@.len() ==> #[trigger] scores@[i] <= 0x3fff_ffff,
        ensures
            lead == scores@[p.id as int] - best_other(scores@, p.id as int, scores@.len() as int),
    {
        let my_score = scores[p.id];
        let mut best_other_score: usize = 0;
        let mut i: usize = 0;
        while i < scores.len()
            invariant
                i <= scores.len(),
                forall|j: int| 0 <= j < scores@.len() ==> #[trigger] scores@[j] <= 0x3fff_ffff,
                best_other_score == best_other(scores@, p.id as int, i as int),
                best_other_score <= 0x3fff_ffff,
            decreases scores.len() - i,
        {
            if i != p.id && scores[i] > best_other_score {
                best_other_score = scores[i];
            }
            i += 1;
        }
        my_score as i32 - best_other_score as i32
    }

    /// The moves of the penguins of player `p`, as pairs of the cell a
    /// penguin leaves and the cell it goes to, in ascending order.
    pub fn all_moves(game: &GameState, p: Player) -> (pairs: Vec<(u8, u8)>)
        requires
            game.board.wf(),
            p.id < 2,
        ensures
            lists_penguin_moves(
                game.board,
                p,
                Seq::new(pairs@.len(), |i: int| Move::Move(pairs@[i])),
            ),
            forall|j: int|
                0 <= j < pairs@.len() ==> is_penguin_move(
                    game.board,
                    p,
                    Move::Move(#[trigger] pairs@[j]),
                ),
    {
        let moves = penguin_moves(&game.board, p);
        let mut pairs: Vec<(u8, u8)> = Vec::new();
        let mut i: usize = 0;
        while i < moves.len()
            invariant
                i <= moves.len(),
                pairs@.len() == i,
                lists_penguin_moves(game.board, p, moves@),
                forall|j: int| 0 <= j < i ==> Move::Move(#[trigger] pairs@[j]) == moves@[j],
            decreases moves.len() - i,
        {
            match moves[i] {
                Move::Move(pair) => {
                    pairs.push(pair);
                },
                Move::Place(c) => {
                    pairs.push((c, c));
                },
            }
            i += 1;
        }
        proof {
            assert(Seq::new(pairs@.len(), |i: int| Move::Move(pairs@[i])) =~= moves@);
        }
        pairs
    }
}

} // verus!
