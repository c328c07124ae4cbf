//! The game as plain lists and numbers, as it goes over the wire: what
//! each cell holds, and for each player the cells claimed and the cells
//! with a penguin.

use vstd::prelude::*;
use crate::board::{Board, Player};
use crate::cellset::{lists_cells, CellSet};
use crate::game::GameState;
use crate::NUM_CELLS;

verus! {

/// The phase of a game.
#[derive(Clone, Copy, Debug, PartialEq, Eq, Structural)]
pub enum GameModeType {
    Drafting,
    Playing,
}

/// A board as lists.
#[derive(Debug)]
pub struct BoardJSON {
    /// The number of fish on each cell.
    pub fish: Vec<usize>,
    /// For each player, the cells on which a penguin stands.
    pub penguins: Vec<Vec<u8>>,
    /// For each player, the cells claimed.
    pub claimed: Vec<Vec<u8>>,
    /// The cells to show as possible moves, if any are to be shown.
    pub possible_moves: Option<Vec<u8>>,
}

/// A game as lists and numbers.
#[derive(Debug)]
pub struct GameStateJSON {
    pub last_move_valid: bool,
    pub mode_type: GameModeType,
    pub nplayers: usize,
    pub active_player: Option<usize>,
    pub scores: Vec<usize>,
    pub turn: usize,
    pub board: BoardJSON,
}

/// The cells that list `p` of `lists` holds; none where there is no such
/// list.
pub open spec fn listed(lists: Seq<Vec<u8>>, p: int) -> Set<u8> {
    if 0 <= p < lists.len() {
        lists[p]@.to_set()
    } else {
        Set::empty()
    }
}

impl BoardJSON {
    /// The lists are those of `board`: the fish of each of its cells, and
    /// for each player the claimed cells and the penguins, in ascending
    /// order.
    pub open spec fn describes(self, board: Board) -> bool {
        &&& self.fish@.len() == NUM_CELLS
        &&& forall|c: u8| c < 60 ==> #[trigger] self.fish@[c as int] == board.spec_num_fish(c)
        &&& self.claimed@.len() == 2
        &&& self.penguins@.len() == 2
        &&& forall|p: int|
            0 <= p < 2 ==> lists_cells((#[trigger] self.claimed@[p])@, board.claimed[p]@)
        &&& forall|p: int|
            0 <= p < 2 ==> lists_cells((#[trigger] self.penguins@[p])@, board.penguins[p]@)
        &&& self.possible_moves is None
    }

    /// Every cell that the lists name is a cell of the board.
    pub open spec fn in_bounds(self) -> bool {
        &&& self.fish@.len() <= NUM_CELLS
        &&& forall|p: int, i: int|
            0 <= p < 2 && p < self.claimed@.len() && 0 <= i < self.claimed@[p]@.len()
                ==> #[trigger] self.claimed@[p]@[i] < 60
        &&& forall|p: int, i: int|
            0 <= p < 2 && p < self.penguins@.len() && 0 <= i < self.penguins@[p]@.len()
                ==> #[trigger] self.penguins@[p]@[i] < 60
    }

    /// `board` is the board that the lists describe: each fish set holds
    /// the cells listed with its number of fish, and the sets of a player
    /// hold the cells of the player's lists.
    pub open spec fn builds(self, board: Board) -> bool {
        &&& forall|k: int, c: u8|
            0 <= k < 3 ==> (#[trigger] board.fish[k]@.contains(c) <==> c < self.fish@.len()
                && self.fish@[c as int] == k + 1)
        &&& forall|p: int| 0 <= p < 2 ==> (#[trigger] board.claimed[p])@ == listed(self.claimed@, p)
        &&& forall|p: int|
            0 <= p < 2 ==> (#[trigger] board.penguins[p])@ == listed(self.penguins@, p)
    }

    /// The lists of `b`.
    pub fn from_board(b: &Board) -> (json: BoardJSON)
        requires
            b.wf(),
        ensures
            json.describes(*b),
            json.in_bounds(),
    {
        let mut fish: Vec<usize> = Vec::new();
        let mut c: u8 = 0;
        while c < NUM_CELLS as u8
            invariant
                c <= 60,
                b.wf(),
                fish@.len() == c,
                forall|d: u8| d < c ==> #[trigger] fish@[d as int] == b.spec_num_fish(d),
            decreases 60 - c,
        {
            fish.push(b.num_fish(c));
            c += 1;
        }
        assert(b.claimed[0].wf() && b.claimed[1].wf());
        assert(b.penguins[0].wf() && b.penguins[1].wf());
        let mut claimed: Vec<Vec<u8>> = Vec::new();
        claimed.push(b.claimed[0].to_vec());
        claimed.push(b.claimed[1].to_vec());
        let mut penguins: Vec<Vec<u8>> = Vec::new();
        penguins.push(b.penguins[0].to_vec());
        penguins.push(b.penguins[1].to_vec());
        BoardJSON { fish, claimed, penguins, possible_moves: None }
    }

    /// Whether every cell that the lists name is a cell of the board.
    pub fn is_in_bounds(&self) -> (ok: bool)
        ensures
            ok == self.in_bounds(),
    {
        if self.fish.len() > NUM_CELLS {
            return false;
        }
        let mut p: usize = 0;
        while p < 2
            invariant
                p <= 2,
                self.fish@.len() <= NUM_CELLS,
                forall|q: int, i: int|
                    0 <= q < p && q < self.claimed@.len() && 0 <= i < self.claimed@[q]@.len()
                        ==> #[trigger] self.claimed@[q]@[i] < 60,
                forall|q: int, i: int|
                    0 <= q < p && q < self.penguins@.len() && 0 <= i < self.penguins@[q]@.len()
                        ==> #[trigger] self.penguins@[q]@[i] < 60,
            decreases 2 - p,
        {
            if p < self.claimed.len() && !all_cells(&self.claimed[p]) {
                return false;
            }
            if p < self.penguins.len() && !all_cells(&self.penguins[p]) {
                return false;
            }
            p += 1;
        }
        true
    }

    /// The board that the lists describe. A player without a list has no
    /// cells.
    pub fn to_board(&self) -> (b: Board)
        requires
            self.in_bounds(),
        ensures
            self.builds(b),
    {
        let mut one = CellSet::new();
        let mut two = CellSet::new();
        let mut three = CellSet::new();
        let mut i: usize = 0;
        while i < self.fish.len()
            invariant
                i <= self.fish@.len() <= 60,
                forall|c: u8| one@.contains(c) <==> c < i && self.fish@[c as int] == 1,
                forall|c: u8| two@.contains(c) <==> c < i && self.fish@[c as int] == 2,
                forall|c: u8| three@.contains(c) <==> c < i && self.fish@[c as int] == 3,
            decreases self.fish.len() - i,
        {
            let fish = self.fish[i];
            if fish == 1 {
                one = one.insert(i as u8);
            } else if fish == 2 {
                two = two.insert(i as u8);
            } else if fish == 3 {
                three = three.insert(i as u8);
            }
            i += 1;
        }
        let penguins = [cells_of_list(&self.penguins, 0), cells_of_list(&self.penguins, 1)];
        let claimed = [cells_of_list(&self.claimed, 0), cells_of_list(&self.claimed, 1)];
        Board { fish: [one, two, three], penguins, claimed }
    }
}

/// Whether every cell of the list is a cell of the board.
fn all_cells(cells: &Vec<u8>) -> (ok: bool)
    ensures
        ok == (forall|i: int| 0 <= i < cells@.len() ==> #[trigger] cells@[i] < 60),
{
    let mut i: usize = 0;
    while i < cells.len()
        invariant
            i <= cells.len(),
            forall|j: int| 0 <= j < i ==> #[trigger] cells@[j] < 60,
        decreases cells.len() - i,
    {
        if cells[i] >= NUM_CELLS as u8 {
            return false;
        }
        i += 1;
    }
    true
}

/// The set of the cells of list `p`; the empty set where there is no such
/// list.
fn cells_of_list(lists: &Vec<Vec<u8>>, p: usize) -> (s: CellSet)
    requires
        p < lists@.len() ==> forall|i: int|
            0 <= i < lists@[p as int]@.len() ==> #[trigger] lists@[p as int]@[i] < 60,
    ensures
        s@ == listed(lists@, p as int),
        s.wf(),
{
    if p < lists.len() {
        CellSet::from_slice(lists[p].as_slice())
    } else {
        CellSet::new()
    }
}

impl GameStateJSON {
    /// The game `state` as lists and numbers, with the last move marked
    /// valid.
    pub fn from_state(state: &GameState) -> (json: GameStateJSON)
        requires
            state.wf(),
            state.nplayers == 2,
        ensures
            json.last_move_valid,
            json.mode_type == if state.spec_finished_drafting() {
                GameModeType::Playing
            } else {
                GameModeType::Drafting
            },
            json.nplayers == state.nplayers,
            json.turn == state.turn,
            json.active_player == match state.spec_active_player() {
                Some(p) => Some(p.id),
                None => None,
            },
            json.scores@ == seq![
                state.board.spec_score(0) as usize,
                state.board.spec_score(1) as usize,
            ],
            json.board.describes(state.board),
            json.board.in_bounds(),
    {
        let mode_type = if state.finished_drafting() {
            GameModeType::Playing
        } else {
            GameModeType::Drafting
        };
        let mut scores: Vec<usize> = Vec::new();
        scores.push(state.board.get_score(Player { id: 0 }));
        scores.push(state.board.get_score(Player { id: 1 }));
        assert(scores@ =~= seq![
            state.board.spec_score(0) as usize,
            state.board.spec_score(1) as usize,
        ]);
        GameStateJSON {
            last_move_valid: true,
            mode_type,
            nplayers: state.nplayers,
            active_player: match state.active_player() {
                Some(p) => Some(p.id),
                None => None,
            },
            scores,
            turn: state.turn,
            board: BoardJSON::from_board(&state.board),
        }
    }

    /// A new game for two players on the board `b`, as lists and numbers.
    pub fn from_board(b: &Board) -> (json: GameStateJSON)
        requires
            b.wf(),
        ensures
            json.last_move_valid,
            json.mode_type == GameModeType::Drafting,
            json.nplayers == 2,
            json.turn == 0,
            json.active_player == Some(0usize),
            json.scores@ == seq![0usize, 0usize],
            json.board.describes(*b),
    {
        let mut scores: Vec<usize> = Vec::new();
        scores.push(0);
        scores.push(0);
        assert(scores@ =~= seq![0usize, 0usize]);
        GameStateJSON {
            last_move_valid: true,
            mode_type: GameModeType::Drafting,
            scores,
            nplayers: 2,
            active_player: Some(0),
            turn: 0,
            board: BoardJSON::from_board(b),
        }
    }

    /// The game that the lists and numbers describe.
    pub fn to_state(&self) -> (state: GameState)
        requires
            self.board.in_bounds(),
        ensures
            state.nplayers == self.nplayers,
            state.turn == self.turn,
            self.board.builds(state.board),
    {
        GameState { nplayers: self.nplayers, turn: self.turn, board: self.board.to_board() }
    }
}

/// A board in order comes back from its lists as it was.
pub proof fn lemma_board_round_trip(board: Board, json: BoardJSON, back: Board)
    requires
        board.wf(),
        json.describes(board),
        json.builds(back),
    ensures
        back == board,
{
    assert forall|k: int| 0 <= k < 3 implies back.fish[k] == board.fish[k] by {
        assert forall|c: u8| back.fish[k]@.contains(c) == board.fish[k]@.contains(c) by {
            assert(board.fish[k].wf());
            if c < 60 {
                assert(board.spec_num_fish(c) >= 1);
                assert(json.fish@[c as int] == board.spec_num_fish(c));
            }
        }
        assert(back.fish[k]@ =~= board.fish[k]@);
        crate::cellset::lemma_view_injective(back.fish[k], board.fish[k]);
    }
    assert forall|p: int| 0 <= p < 2 implies back.claimed[p] == board.claimed[p]
        && back.penguins[p] == board.penguins[p] by {
        assert(lists_cells(json.claimed@[p]@, board.claimed[p]@));
        assert(lists_cells(json.penguins@[p]@, board.penguins[p]@));
        assert(back.claimed[p]@ =~= board.claimed[p]@);
        assert(back.penguins[p]@ =~= board.penguins[p]@);
        crate::cellset::lemma_view_injective(back.claimed[p], board.claimed[p]);
        crate::cellset::lemma_view_injective(back.penguins[p], board.penguins[p]);
    }
    assert(back.fish =~= board.fish);
    assert(back.claimed =~= board.claimed);
    assert(back.penguins =~= board.penguins);
}

} // verus!
