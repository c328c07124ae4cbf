//! Monte-Carlo tree search over games: the moves that connect positions,
//! the tree of visit and reward counts, and the playouts that grow it.

use vstd::prelude::*;
use crate::board::{Board, Player};
use crate::cellset::{CellSet, is_least};
use crate::fixed::scores_slice;
use crate::game::{Action, GameState, reaped};
use crate::geometry::{cell_hex, destinations, line_len, lemma_destinations_on_board};
use crate::hex::{line_dir, Cube};

verus! {

/// Penguins that a player has.
pub const NUM_PENGUINS: usize = 4;

/// Directions in which a penguin can move.
pub const NUM_DIRECTIONS: usize = 6;

/// The longest move on the board, in steps.
pub const MAX_DISTANCE: usize = 7;

/// Size of a policy over moves: one entry for each penguin, direction and
/// distance.
pub const MOVEMENT_POLICY_SIZE: usize = 168;

/// The reward for a win. Rewards are counted in units of which this many
/// make one won game.
pub const REWARD_WIN: u64 = 65536;

/// The reward for a game that ends with the best score shared.
pub const REWARD_TIE: u64 = 32768;

/// No position has more moves than this.
pub const MAX_MOVES: usize = 3600;

/// Games are connected to each other by moves: a penguin is placed on a
/// cell, or moved from one cell to another.
#[derive(Clone, Copy, Debug, Eq, Hash, Ord, PartialEq, PartialOrd)]
pub enum Move {
    Place(u8),
    Move((u8, u8)),
}

impl Move {
    /// The move that `action` asks for, if it asks for one.
    pub open spec fn spec_from_action(action: &Action) -> Option<Move> {
        match *action {
            Action::Move(src, dst) => Some(Move::Move((src, dst))),
            Action::Place(dst) => Some(Move::Place(dst)),
            _ => None,
        }
    }

    /// The action that makes this move.
    pub open spec fn spec_into_action(self) -> Action {
        match self {
            Move::Move((src, dst)) => Action::Move(src, dst),
            Move::Place(dst) => Action::Place(dst),
        }
    }

    /// The move that `action` asks for. The other actions are no moves.
    #[verifier::when_used_as_spec(spec_from_action)]
    pub fn from_action(action: &Action) -> (m: Option<Move>)
        ensures
            m == Move::spec_from_action(action),
    {
        match *action {
            Action::Move(src, dst) => Some(Move::Move((src, dst))),
            Action::Place(dst) => Some(Move::Place(dst)),
            _ => None,
        }
    }

    /// The action that makes this move.
    #[verifier::when_used_as_spec(spec_into_action)]
    pub fn into_action(self) -> (action: Action)
        ensures
            action == self.spec_into_action(),
    {
        match self {
            Move::Move((src, dst)) => Action::Move(src, dst),
            Move::Place(dst) => Action::Place(dst),
        }
    }

    /// Whether two moves are the same.
    pub fn same(&self, other: &Move) -> (b: bool)
        ensures
            b == (*self == *other),
    {
        match (*self, *other) {
            (Move::Place(a), Move::Place(b)) => a == b,
            (Move::Move((a, b)), Move::Move((c, d))) => a == c && b == d,
            _ => false,
        }
    }

    /// The cell from which the move takes a penguin; for a placement, the
    /// cell on which it puts one.
    pub open spec fn src(self) -> u8 {
        match self {
            Move::Place(c) => c,
            Move::Move((src, dst)) => src,
        }
    }

    /// The cell on which the move puts a penguin.
    pub open spec fn dst(self) -> u8 {
        match self {
            Move::Place(c) => c,
            Move::Move((src, dst)) => dst,
        }
    }

    /// The place of the move in the order in which the moves of a position
    /// are listed: by cell, and moves by the cell they start from first.
    pub open spec fn key(self) -> int {
        match self {
            Move::Place(c) => c as int,
            Move::Move((src, dst)) => 64 * src + dst,
        }
    }
}

/// A position of the game, as the search sees it.
#[derive(Clone, Copy, Debug, Eq, Hash, PartialEq)]
pub struct Game {
    pub state: GameState,
}

impl Game {
    /// The game is one that the search can play: two players, a board in
    /// order, and room for the turn counter to grow.
    pub open spec fn wf(self) -> bool {
        &&& self.state.wf()
        &&& self.state.nplayers == 2
        &&& self.state.turn + 60 - self.state.board.occupied().len() < usize::MAX
    }

    /// `m` is a move that the player to act may make: while drafting, a
    /// placement on an unclaimed cell with one fish; after that, a move of
    /// one of the player's penguins to a cell that a straight walk reaches.
    pub open spec fn legal(self, m: Move) -> bool {
        !self.state.spec_game_over() && match m {
            Move::Place(c) => !self.state.spec_finished_drafting() && c < 60
                && self.state.board.fish[0]@.contains(c) && !self.state.board.occupied().contains(
                c,
            ),
            Move::Move((src, dst)) => self.state.spec_finished_drafting() && src < 60
                && self.state.board.penguins[self.state.spec_active_player().unwrap().id as int]@.contains(
                src,
            ) && destinations(self.state.board.occupied(), src as int).contains(dst),
        }
    }

    /// `moves` lists the moves that the player to act may make, each once,
    /// in ascending order.
    pub open spec fn lists_moves(self, moves: Seq<Move>) -> bool {
        &&& forall|i: int| 0 <= i < moves.len() ==> self.legal(#[trigger] moves[i])
        &&& forall|m: Move| self.legal(m) ==> moves.contains(m)
        &&& forall|i: int, j: int|
            0 <= i < j < moves.len() ==> (#[trigger] moves[i]).key() < (#[trigger] moves[j]).key()
    }

    /// The player to act.
    pub fn current_player(&self) -> (p: Player)
        requires
            self.wf(),
            !self.state.spec_game_over(),
        ensures
            Some(p) == self.state.spec_active_player(),
            p.id < 2,
    {
        match self.state.active_player() {
            Some(p) => p,
            None => vstd::pervasive::unreached(),
        }
    }

    /// The moves that the player to act may make, in ascending order; none
    /// once the game is over.
    pub fn available_moves(&self) -> (moves: Vec<Move>)
        requires
            self.wf(),
        ensures
            self.lists_moves(moves@),
            moves@.len() <= MAX_MOVES,
    {
        if self.state.game_over() {
            let moves: Vec<Move> = Vec::new();
            assert(self.lists_moves(moves@));
            moves
        } else if self.state.finished_drafting() {
            let p = self.current_player();
            let moves = penguin_moves(&self.state.board, p);
            proof {
                assert forall|m: Move| self.legal(m) implies moves@.contains(m) by {
                    if m is Move {
                        assert(is_penguin_move(self.state.board, p, m));
                    }
                }
            }
            moves
        } else {
            // cells with one fish and nobody claiming them
            let draftable_cells = self.state.board.fish[0].exclude(
                self.state.board.all_claimed_cells(),
            );
            assert(self.state.board.fish[0].wf());
            let mut moves: Vec<Move> = Vec::new();
            let mut it = draftable_cells.iter();
            proof {
                crate::cellset::lemma_view_finite(draftable_cells);
                crate::cellset::lemma_wf_len(draftable_cells);
                vstd::set_lib::lemma_len_subset(it.pending(), draftable_cells@);
            }
            loop
                invariant
                    self.wf(),
                    !self.state.spec_game_over(),
                    !self.state.spec_finished_drafting(),
                    draftable_cells@ == self.state.board.fish[0]@.difference(
                        self.state.board.occupied(),
                    ),
                    draftable_cells.wf(),
                    it.wf(),
                    it.set() == draftable_cells,
                    it.pending().finite(),
                    it.pending().subset_of(draftable_cells@),
                    moves@.len() + it.pending().len() <= 60,
                    forall|i: int| 0 <= i < moves@.len() ==> self.legal(#[trigger] moves@[i]),
                    forall|i: int|
                        0 <= i < moves@.len() ==> (#[trigger] moves@[i]) is Place
                            && !it.pending().contains(moves@[i].dst()),
                    forall|c: u8|
                        self.legal(Move::Place(c)) && !it.pending().contains(c)
                            ==> moves@.contains(Move::Place(c)),
                    forall|i: int, c: u8|
                        #![trigger moves@[i], it.pending().contains(c)]
                        0 <= i < moves@.len() && it.pending().contains(c) ==> moves@[i].key() < c,
                    forall|i: int, j: int|
                        0 <= i < j < moves@.len() ==> (#[trigger] moves@[i]).key() < (
                        #[trigger] moves@[j]).key(),
                decreases it.pending().len(),
            {
                let ghost before = it;
                let ghost base = moves@;
                match it.next() {
                    Some(c) => {
                        moves.push(Move::Place(c));
                        proof {
                            assert(before.pending().contains(c));
                            assert(is_least(before.pending(), c));
                            assert(moves@[base.len() as int] == Move::Place(c));
                            assert forall|d: u8|
                                self.legal(Move::Place(d)) && !it.pending().contains(
                                    d,
                                ) implies moves@.contains(Move::Place(d)) by {
                                if d != c {
                                    assert(base.contains(Move::Place(d)));
                                    let i = choose|i: int|
                                        0 <= i < base.len() && base[i] == Move::Place(d);
                                    assert(moves@[i] == base[i]);
                                }
                            }
                            assert forall|i: int, d: u8|
                                #![trigger moves@[i], it.pending().contains(d)]
                                0 <= i < moves@.len() && it.pending().contains(d) implies moves@[i].key() < d by {
                                assert(before.pending().contains(d));
                                if i < base.len() {
                                    assert(moves@[i] == base[i]);
                                }
                            }
                            assert forall|i: int, j: int| 0 <= i < j < moves@.len() implies (
                            #[trigger] moves@[i]).key() < (#[trigger] moves@[j]).key() by {
                                assert(moves@[i] == base[i]);
                                if j < base.len() {
                                    assert(moves@[j] == base[j]);
                                }
                            }
                        }
                    },
                    None => {
                        proof {
                            assert forall|m: Move| self.legal(m) implies moves@.contains(m) by {
                                match m {
                                    Move::Place(c) => {
                                        assert(self.legal(Move::Place(c)));
                                        assert(!it.pending().contains(c));
                                    },
                                    Move::Move((s, d)) => {},
                                }
                            }
                        }
                        return moves;
                    },
                }
            }
        }
    }
}

impl Game {
    /// The position after the move `m`.
    pub open spec fn follows(self, m: Move, after: Game) -> bool {
        let active = self.state.spec_active_player().unwrap();
        &&& after.state.nplayers == self.state.nplayers
        &&& after.state.turn == self.state.turn + 1
        &&& after.state.board.occupied() == self.state.board.occupied().insert(m.dst())
        &&& match m {
            Move::Place(c) => after.state.board == self.state.board.after_claim(active, c),
            Move::Move((src, dst)) => reaped(
                self.state.board.after_move(active, src, dst),
                after.state.board,
            ),
        }
    }

    /// The position that follows this one on the move `m`.
    pub open spec fn after(self, m: Move) -> Game {
        choose|g: Game| self.follows(m, g)
    }

    /// Only one position follows on a move.
    pub proof fn lemma_follows_unique(self, m: Move, a: Game, b: Game)
        requires
            self.follows(m, a),
            self.follows(m, b),
        ensures
            a == b,
    {
        match m {
            Move::Place(c) => {},
            Move::Move((src, dst)) => {
                assert forall|p: int| 0 <= p < 2 implies a.state.board.penguins[p]
                    == b.state.board.penguins[p] by {
                    crate::cellset::lemma_view_injective(
                        a.state.board.penguins[p],
                        b.state.board.penguins[p],
                    );
                }
                assert(a.state.board.penguins =~= b.state.board.penguins);
            },
        }
    }

    /// Whether the two positions are the same.
    pub fn same(&self, other: &Game) -> (b: bool)
        ensures
            b == (*self == *other),
    {
        let a = &self.state;
        let b = &other.state;
        let equal = a.nplayers == b.nplayers && a.turn == b.turn && a.board.penguins[0].data
            == b.board.penguins[0].data && a.board.penguins[1].data == b.board.penguins[1].data
            && a.board.claimed[0].data == b.board.claimed[0].data && a.board.claimed[1].data
            == b.board.claimed[1].data && a.board.fish[0].data == b.board.fish[0].data
            && a.board.fish[1].data == b.board.fish[1].data && a.board.fish[2].data
            == b.board.fish[2].data;
        proof {
            if equal {
                assert(a.board.penguins =~= b.board.penguins);
                assert(a.board.claimed =~= b.board.claimed);
                assert(a.board.fish =~= b.board.fish);
            }
        }
        equal
    }

    /// Makes the move `mov`, which must be one that the player to act may
    /// make: a placement claims the cell; a move claims the cell it leads
    /// to, and the penguins that cannot move any more are taken off.
    pub fn make_move(&mut self, mov: Move)
        requires
            old(self).wf(),
            old(self).legal(mov),
        ensures
            final(self).wf(),
            old(self).follows(mov, *final(self)),
            *final(self) == old(self).after(mov),
            !old(self).state.board.occupied().contains(mov.dst()),
            mov.dst() < 60,
            final(self).state.board.occupied().len() == old(self).state.board.occupied().len() + 1,
            final(self).state.board.occupied().len() <= 60,
    {
        let ghost start = *self;
        proof {
            crate::pruning::lemma_occupied_bound(self.state.board);
        }
        match mov {
            Move::Place(dst) => {
                proof {
                    let active = self.state.spec_active_player().unwrap();
                    self.state.board.lemma_after_claim_wf(active, dst);
                    assert(self.state.board.spec_num_fish(dst) == 1);
                }
                let placed = self.state.place_penguin(dst);
                assert(placed is Ok);
            },
            Move::Move((src, dst)) => {
                let p = self.current_player();
                proof {
                    lemma_destinations_on_board(self.state.board.occupied(), src as int);
                    crate::geometry::lemma_destination_clear(
                        self.state.board.occupied(),
                        src,
                        dst,
                    );
                    self.state.board.lemma_after_move_wf(p, src, dst);
                }
                let ghost before = self.state.board;
                let claimed = self.state.board.claimed[p.id].insert(dst);
                let penguins = self.state.board.penguins[p.id].remove(src).insert(dst);
                self.state.board.claimed[p.id] = claimed;
                self.state.board.penguins[p.id] = penguins;
                proof {
                    assert(self.state.board.claimed =~= before.after_move(p, src, dst).claimed);
                    assert(self.state.board.penguins =~= before.after_move(p, src, dst).penguins);
                    assert(self.state.board == before.after_move(p, src, dst));
                }
                self.state.board.reap();
                self.state.turn += 1;
            },
        }
        proof {
            assert(start.follows(mov, *self));
            crate::pruning::lemma_occupied_bound(self.state.board);
            start.lemma_follows_unique(mov, *self, start.after(mov));
        }
    }
}

/// The moves of `moves` may be made one after the other from `start`, and
/// lead to `end`.
pub open spec fn plays_to(start: Game, moves: Seq<Move>, end: Game) -> bool
    decreases moves.len(),
{
    if moves.len() == 0 {
        start == end
    } else {
        start.legal(moves[0]) && plays_to(start.after(moves[0]), moves.drop_first(), end)
    }
}

/// Play leads from `start` to `end`: some moves, each of which may be made
/// where it is made, lead from the one to the other.
pub open spec fn reached(start: Game, end: Game) -> bool {
    exists|moves: Seq<Move>| plays_to(start, moves, end)
}

/// Play that has led somewhere leads on by one more move.
pub proof fn lemma_plays_on(start: Game, moves: Seq<Move>, mid: Game, m: Move)
    requires
        plays_to(start, moves, mid),
        mid.legal(m),
    ensures
        plays_to(start, moves.push(m), mid.after(m)),
    decreases moves.len(),
{
    let longer = moves.push(m);
    if moves.len() == 0 {
        assert(longer.drop_first() =~= Seq::<Move>::empty());
        assert(plays_to(start.after(m), longer.drop_first(), mid.after(m)));
    } else {
        lemma_plays_on(start.after(moves[0]), moves.drop_first(), mid, m);
        assert(longer.drop_first() =~= moves.drop_first().push(m));
    }
}

/// Play that leads on from the position after a move leads there from the
/// position before it.
pub proof fn lemma_reached_after(start: Game, m: Move, end: Game)
    requires
        start.legal(m),
        reached(start.after(m), end),
    ensures
        reached(start, end),
{
    let moves = choose|moves: Seq<Move>| plays_to(start.after(m), moves, end);
    let longer = seq![m] + moves;
    assert(longer.drop_first() =~= moves);
    assert(plays_to(start, longer, end));
}

/// The reward of the player in seat `p` at the end of a game with the given
/// scores: a win where no other score is as high, a tie where another
/// score is as high and none higher, else nothing.
pub open spec fn spec_reward(scores: Seq<usize>, p: int) -> u64 {
    if exists|j: int| 0 <= j < scores.len() && scores[j] > scores[p] {
        0
    } else if exists|j: int| 0 <= j < scores.len() && j != p && scores[j] == scores[p] {
        REWARD_TIE
    } else {
        REWARD_WIN
    }
}

/// The reward of the player in seat `p` at the end of a game with the given
/// scores.
pub fn reward_for(scores: &[usize], p: usize) -> (r: u64)
    requires
        p < scores@.len(),
    ensures
        r == spec_reward(scores@, p as int),
        r <= REWARD_WIN,
{
    let mut winning_score: usize = scores[0];
    let mut i: usize = 1;
    while i < scores.len()
        invariant
            1 <= i <= scores.len(),
            forall|j: int| 0 <= j < i ==> scores@[j] <= winning_score,
            exists|j: int| 0 <= j < i && scores@[j] == winning_score,
        decreases scores.len() - i,
    {
        if scores[i] > winning_score {
            winning_score = scores[i];
        }
        i += 1;
    }
    if scores[p] < winning_score {
        return 0;
    }
    let mut count: usize = 0;
    let mut k: usize = 0;
    while k < scores.len()
        invariant
            k <= scores.len(),
            p < scores@.len(),
            scores@[p as int] == winning_score,
            forall|j: int| 0 <= j < scores@.len() ==> scores@[j] <= winning_score,
            count <= k,
            count == 0 ==> forall|j: int| 0 <= j < k ==> scores@[j] < winning_score,
            count == 1 ==> exists|a: int|
                0 <= a < k && scores@[a] == winning_score && forall|j: int|
                    0 <= j < k && j != a ==> scores@[j] < winning_score,
            count >= 2 ==> exists|a: int, b: int|
                0 <= a < b < k && scores@[a] == winning_score && scores@[b] == winning_score,
        decreases scores.len() - k,
    {
        if scores[k] >= winning_score {
            proof {
                if count == 1 {
                    let a = choose|a: int|
                        0 <= a < k && scores@[a] == winning_score && forall|j: int|
                            0 <= j < k && j != a ==> scores@[j] < winning_score;
                    assert(0 <= a < k < k + 1 && scores@[a] == winning_score && scores@[k as int]
                        == winning_score);
                } else if count >= 2 {
                    let (a, b) = choose|a: int, b: int|
                        0 <= a < b < k && scores@[a] == winning_score && scores@[b]
                            == winning_score;
                    assert(0 <= a < b < k + 1 && scores@[a] == winning_score && scores@[b]
                        == winning_score);
                } else {
                    assert(0 <= k < k + 1 && scores@[k as int] == winning_score);
                }
            }
            count += 1;
        } else {
            proof {
                if count == 1 {
                    let a = choose|a: int|
                        0 <= a < k && scores@[a] == winning_score && forall|j: int|
                            0 <= j < k && j != a ==> scores@[j] < winning_score;
                    assert(0 <= a < k + 1 && scores@[a] == winning_score && forall|j: int|
                        0 <= j < k + 1 && j != a ==> scores@[j] < winning_score);
                } else if count >= 2 {
                    let (a, b) = choose|a: int, b: int|
                        0 <= a < b < k && scores@[a] == winning_score && scores@[b]
                            == winning_score;
                    assert(0 <= a < b < k + 1 && scores@[a] == winning_score && scores@[b]
                        == winning_score);
                }
            }
        }
        k += 1;
    }
    if count > 1 {
        proof {
            let (a, b) = choose|a: int, b: int|
                0 <= a < b < k && scores@[a] == winning_score && scores@[b] == winning_score;
            if a != p {
                assert(0 <= a < scores@.len() && a != p && scores@[a] == scores@[p as int]);
            } else {
                assert(0 <= b < scores@.len() && b != p && scores@[b] == scores@[p as int]);
            }
        }
        REWARD_TIE
    } else {
        proof {
            if count == 1 {
                let a = choose|a: int|
                    0 <= a < k && scores@[a] == winning_score && forall|j: int|
                        0 <= j < k && j != a ==> scores@[j] < winning_score;
                assert(a == p);
            }
        }
        REWARD_WIN
    }
}

/// The reward of player `p` at the end of `game`.
pub fn get_reward(game: &GameState, p: usize) -> (r: u64)
    requires
        game.nplayers == 2,
        p < 2,
    ensures
        r == spec_reward(
            seq![game.board.spec_score(0) as usize, game.board.spec_score(1) as usize],
            p as int,
        ),
        r <= REWARD_WIN,
{
    let scores = game.get_scores();
    reward_for(scores_slice(&scores), p)
}

/// Direction and distance of the straight move from `src` to `dst`, if
/// there is one of at most seven steps.
pub open spec fn spec_direction_distance(src: u8, dst: u8) -> Option<(usize, usize)> {
    let s = cell_hex(src);
    let d = cell_hex(dst);
    if s != d && s.spec_in_line(d) && line_len(s, d) <= MAX_DISTANCE {
        Some((line_dir(s, d) as usize, line_len(s, d) as usize))
    } else {
        None
    }
}

/// Direction and distance of the straight move from `src` to `dst`: the
/// direction counts from 0 to 5 in the order of the neighbours of a cell,
/// the distance from 1 to 7. None where the cells are the same, do not lie
/// on one line, or lie further apart.
pub fn move_to_direction_distance(src: u8, dst: u8) -> (r: Option<(usize, usize)>)
    ensures
        r == spec_direction_distance(src, dst),
        r matches Some((direction, distance)) ==> direction < 6 && 1 <= distance <= 7,
{
    let src_hex = Board::index_to_evenr(src);
    let dst_hex = Board::index_to_evenr(dst);
    let src_cube = Cube::from_evenr(&src_hex);
    let dst_cube = Cube::from_evenr(&dst_hex);

    // the delta in cube coordinates
    let dx = dst_cube.x - src_cube.x;
    let dy = dst_cube.y - src_cube.y;
    let dz = dst_cube.z - src_cube.z;

    let direction: usize = if dz == 0 {
        if dx > 0 {
            0
        } else {
            3
        }
    } else if dy == 0 {
        if dx > 0 {
            1
        } else {
            4
        }
    } else if dx == 0 {
        if dy > 0 {
            2
        } else {
            5
        }
    } else {
        return None;
    };

    let ax = if dx < 0 {
        -dx
    } else {
        dx
    };
    let ay = if dy < 0 {
        -dy
    } else {
        dy
    };
    let az = if dz < 0 {
        -dz
    } else {
        dz
    };
    let longest = if ax >= ay && ax >= az {
        ax
    } else if ay >= az {
        ay
    } else {
        az
    };
    if longest == 0 || longest > MAX_DISTANCE as i64 {
        return None;
    }
    Some((direction, longest as usize))
}

/// The place of a move in a policy. A placement has the place of its cell.
/// A move has the place of its penguin, direction and distance, where the
/// penguin counts by its place in `penguins`, and a penguin that is not
/// listed as the first; a move along no line has place 0.
pub open spec fn spec_policy_index(m: Move, penguins: Seq<u8>) -> int {
    match m {
        Move::Place(dst) => dst as int,
        Move::Move((src, dst)) => match spec_direction_distance(src, dst) {
            Some((direction, distance)) => {
                let at = penguins.index_of_first(src);
                let penguin_idx = if at is Some {
                    at.unwrap()
                } else {
                    0
                };
                penguin_idx * 42 + direction * 7 + (distance - 1)
            },
            None => 0,
        },
    }
}

/// The place of the move `m` in a policy: see `spec_policy_index`.
pub fn move_to_policy_index(m: &Move, is_drafting: bool, penguins: &[u8]) -> (idx: usize)
    requires
        penguins@.len() <= 0x0100_0000,
    ensures
        idx == spec_policy_index(*m, penguins@),
{
    match *m {
        Move::Place(dst) => dst as usize,
        Move::Move((src, dst)) => {
            let mut penguin_idx: usize = 0;
            let mut found = false;
            let mut i: usize = 0;
            while i < penguins.len() && !found
                invariant
                    i <= penguins.len(),
                    !found ==> forall|j: int| 0 <= j < i ==> penguins@[j] != src,
                    found ==> penguin_idx < penguins@.len() && penguins@[penguin_idx as int] == src
                        && forall|j: int| 0 <= j < penguin_idx ==> penguins@[j] != src,
                    !found ==> penguin_idx == 0,
                decreases penguins.len() - i, !found as int,
            {
                if penguins[i] == src {
                    penguin_idx = i;
                    found = true;
                } else {
                    i += 1;
                }
            }
            proof {
                penguins@.index_of_first_ensures(src);
            }
            let per_penguin = NUM_DIRECTIONS * MAX_DISTANCE;
            assert(per_penguin == 42 && penguin_idx <= 0x0100_0000);
            match move_to_direction_distance(src, dst) {
                Some((direction, distance)) => penguin_idx * per_penguin + direction
                    * MAX_DISTANCE + (distance - 1),
                None => 0,
            }
        },
    }
}

/// `m` moves a penguin of player `p` from its cell to a cell that a
/// straight walk reaches.
pub open spec fn is_penguin_move(board: Board, p: Player, m: Move) -> bool {
    m is Move && m.src() < 60 && board.penguins[p.id as int]@.contains(m.src()) && destinations(
        board.occupied(),
        m.src() as int,
    ).contains(m.dst())
}

/// `moves` lists the moves of the penguins of player `p`, each once, in
/// ascending order.
pub open spec fn lists_penguin_moves(board: Board, p: Player, moves: Seq<Move>) -> bool {
    &&& forall|i: int| 0 <= i < moves.len() ==> is_penguin_move(board, p, #[trigger] moves[i])
    &&& forall|m: Move| is_penguin_move(board, p, m) ==> moves.contains(m)
    &&& forall|i: int, j: int|
        0 <= i < j < moves.len() ==> (#[trigger] moves[i]).key() < (#[trigger] moves[j]).key()
}

/// The moves of the penguins of player `p`, in ascending order.
pub fn penguin_moves(board: &Board, p: Player) -> (moves: Vec<Move>)
    requires
        board.wf(),
        p.id < 2,
    ensures
        lists_penguin_moves(*board, p, moves@),
        moves@.len() <= MAX_MOVES,
{
    let mut moves: Vec<Move> = Vec::new();
    let penguins = board.penguins[p.id];
    assert(board.penguins[p.id as int].wf());
    let mut sources = penguins.iter();
    let ghost occ = board.occupied();
    proof {
        crate::cellset::lemma_view_finite(penguins);
        crate::cellset::lemma_wf_len(penguins);
        vstd::set_lib::lemma_len_subset(sources.pending(), penguins@);
    }
    loop
        invariant
            board.wf(),
            p.id < 2,
            penguins == board.penguins[p.id as int],
            penguins.wf(),
            occ == board.occupied(),
            sources.wf(),
            sources.set() == penguins,
            sources.pending().finite(),
            sources.pending().subset_of(penguins@),
            moves@.len() <= 60 * (penguins@.len() - sources.pending().len()),
            penguins@.finite(),
            penguins@.len() <= 60,
            sources.pending().len() <= penguins@.len(),
            forall|i: int| 0 <= i < moves@.len() ==> is_penguin_move(*board, p, #[trigger] moves@[i]),
            forall|i: int|
                0 <= i < moves@.len() ==> (#[trigger] moves@[i]) is Move
                    && !sources.pending().contains(moves@[i].src()),
            forall|s: u8, d: u8|
                is_penguin_move(*board, p, Move::Move((s, d))) && !sources.pending().contains(s)
                    ==> moves@.contains(Move::Move((s, d))),
            forall|i: int, s: u8|
                #![trigger moves@[i], sources.pending().contains(s)]
                0 <= i < moves@.len() && sources.pending().contains(s) ==> moves@[i].key() < 64 * s,
            forall|i: int, j: int|
                0 <= i < j < moves@.len() ==> (#[trigger] moves@[i]).key() < (
                #[trigger] moves@[j]).key(),
        decreases sources.pending().len(),
    {
        let ghost before = sources;
        let src = match sources.next() {
            Some(src) => src,
            None => {
                proof {
                    crate::cellset::lemma_wf_len(penguins);
                    assert forall|m: Move| is_penguin_move(*board, p, m) implies moves@.contains(m) by {
                        match m {
                            Move::Place(c) => {},
                            Move::Move((s, d)) => {
                                assert(is_penguin_move(*board, p, Move::Move((s, d))));
                                assert(!sources.pending().contains(s));
                            },
                        }
                    }
                    assert(lists_penguin_moves(*board, p, moves@));
                    assert(60 * penguins@.len() <= 3600) by (nonlinear_arith)
                        requires
                            penguins@.len() <= 60,
                    ;
                    assert(moves@.len() <= 3600) by (nonlinear_arith)
                        requires
                            moves@.len() <= 60 * (penguins@.len()
                                - sources.pending().len()),
                            60 * penguins@.len() <= 3600,
                            sources.pending().len() >= 0,
                    ;
                }
                return moves;
            },
        };
        proof {
            assert(before.pending().contains(src));
            assert(is_least(before.pending(), src));
            lemma_destinations_on_board(occ, src as int);
        }
        let targets = board.moves(src);
        let ghost base = moves@;
        push_moves(&mut moves, src, targets);
        proof {
            crate::cellset::lemma_wf_len(targets);
            assert forall|i: int| 0 <= i < moves@.len() implies is_penguin_move(*board, p, 
                #[trigger] moves@[i],
            ) by {
                if i < base.len() {
                    assert(moves@[i] == base[i]);
                }
            }
            assert forall|i: int| 0 <= i < moves@.len() implies (
            #[trigger] moves@[i]) is Move && !sources.pending().contains(
                moves@[i].src(),
            ) by {
                if i < base.len() {
                    assert(moves@[i] == base[i]);
                }
            }
            assert forall|s: u8, d: u8|
                is_penguin_move(*board, p, Move::Move((s, d))) && !sources.pending().contains(
                    s,
                ) implies moves@.contains(Move::Move((s, d))) by {
                if s == src {
                    assert(targets@.contains(d));
                } else {
                    assert(base.contains(Move::Move((s, d))));
                    let i = choose|i: int|
                        0 <= i < base.len() && base[i] == Move::Move((s, d));
                    assert(moves@[i] == base[i]);
                }
            }
            assert forall|i: int, s: u8|
                #![trigger moves@[i], sources.pending().contains(s)]
                0 <= i < moves@.len() && sources.pending().contains(s) implies moves@[i].key() < 64 * s by {
                assert(before.pending().contains(s));
                if i < base.len() {
                    assert(moves@[i] == base[i]);
                }
            }
            assert forall|i: int, j: int| 0 <= i < j < moves@.len() implies (
            #[trigger] moves@[i]).key() < (#[trigger] moves@[j]).key() by {
                if j < base.len() {
                    assert(moves@[i] == base[i] && moves@[j] == base[j]);
                } else if i < base.len() {
                    assert(moves@[i] == base[i]);
                    assert(base[i].key() < 64 * src);
                }
            }
            assert(moves@.len() <= 60 * (penguins@.len() - sources.pending().len())) by {
                assert(60 * (penguins@.len() - before.pending().len()) + 60 == 60 * (
                penguins@.len() - sources.pending().len())) by (nonlinear_arith)
                    requires
                        sources.pending().len() + 1 == before.pending().len(),
                ;
            }
            vstd::set_lib::lemma_len_subset(sources.pending(), penguins@);
        }
    }
}

/// Puts behind `moves` the moves from `src` to each cell of `targets`, in
/// ascending order.
fn push_moves(moves: &mut Vec<Move>, src: u8, targets: CellSet)
    requires
        targets.wf(),
    ensures
        old(moves)@.len() <= final(moves)@.len() <= old(moves)@.len() + targets@.len(),
        forall|i: int| 0 <= i < old(moves)@.len() ==> final(moves)@[i] == old(moves)@[i],
        forall|i: int|
            old(moves)@.len() <= i < final(moves)@.len() ==> (#[trigger] final(moves)@[i]) is Move
                && final(moves)@[i].src() == src && targets@.contains(final(moves)@[i].dst()),
        forall|d: u8| targets@.contains(d) ==> final(moves)@.contains(Move::Move((src, d))),
        forall|i: int, j: int|
            old(moves)@.len() <= i < j < final(moves)@.len() ==> (#[trigger] final(moves)@[i]).key()
                < (#[trigger] final(moves)@[j]).key(),
{
    let ghost base = moves@;
    let mut it = targets.iter();
    proof {
        crate::cellset::lemma_view_finite(targets);
    }
    loop
        invariant
            base == old(moves)@,
            targets.wf(),
            targets@.finite(),
            it.wf(),
            it.set() == targets,
            it.pending().finite(),
            it.pending().subset_of(targets@),
            base.len() <= moves@.len(),
            moves@.len() + it.pending().len() <= base.len() + targets@.len(),
            forall|i: int| 0 <= i < base.len() ==> moves@[i] == base[i],
            forall|i: int|
                base.len() <= i < moves@.len() ==> (#[trigger] moves@[i]) is Move
                    && moves@[i].src() == src && targets@.contains(moves@[i].dst())
                    && !it.pending().contains(moves@[i].dst()),
            forall|d: u8|
                targets@.contains(d) && !it.pending().contains(d) ==> moves@.contains(
                    Move::Move((src, d)),
                ),
            forall|i: int, d: u8|
                #![trigger moves@[i], it.pending().contains(d)]
                base.len() <= i < moves@.len() && it.pending().contains(d) ==> moves@[i].key() < 64 * src + d,
            forall|i: int, j: int|
                base.len() <= i < j < moves@.len() ==> (#[trigger] moves@[i]).key() < (
                #[trigger] moves@[j]).key(),
        decreases it.pending().len(),
    {
        let ghost before = it;
        let ghost so_far = moves@;
        match it.next() {
            Some(dst) => {
                moves.push(Move::Move((src, dst)));
                proof {
                    assert(before.pending().contains(dst));
                    assert(is_least(before.pending(), dst));
                    vstd::set_lib::lemma_len_subset(before.pending(), targets@);
                    assert(moves@[so_far.len() as int] == Move::Move((src, dst)));
                    assert forall|d: u8|
                        targets@.contains(d) && !it.pending().contains(d) implies moves@.contains(
                        Move::Move((src, d)),
                    ) by {
                        if d != dst {
                            assert(so_far.contains(Move::Move((src, d))));
                            let i = choose|i: int|
                                0 <= i < so_far.len() && so_far[i] == Move::Move((src, d));
                            assert(moves@[i] == so_far[i]);
                        }
                    }
                    assert forall|i: int, d: u8|
                        #![trigger moves@[i], it.pending().contains(d)]
                        base.len() <= i < moves@.len() && it.pending().contains(d) implies moves@[i].key() < 64 * src + d by {
                        assert(before.pending().contains(d));
                        if i < so_far.len() {
                            assert(moves@[i] == so_far[i]);
                        }
                    }
                    assert forall|i: int, j: int| base.len() <= i < j < moves@.len() implies (
                    #[trigger] moves@[i]).key() < (#[trigger] moves@[j]).key() by {
                        assert(moves@[i] == so_far[i]);
                        if j < so_far.len() {
                            assert(moves@[j] == so_far[j]);
                        }
                    }
                }
            },
            None => {
                return ;
            },
        }
    }
}

} // verus!
