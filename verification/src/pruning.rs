//! Filling an iceberg: where a penguin is alone on an iceberg and cannot
//! leave it, the search for a walk that takes every fish it could still
//! get, and the moves along that walk.

use vstd::prelude::*;
use crate::board::{Board, Player};
use crate::cellset::CellSet;
use crate::fixed::cells_slice;
use crate::geometry::{adjacent, destinations, lemma_destination_clear};
use crate::geometry::{cell_col, cell_row, open_neighbor, reaches, step_index, step_on_board};
use crate::geometry::{destinations_in_dir, lemma_hex_round_trip, lemma_index_round_trip};
use crate::geometry::lemma_step_compose;
use crate::hex::hex_step;
use crate::icebergs::{connected, is_path, lemma_connected_self, lemma_connected_step};
use crate::icebergs::{lemma_connected_trans, lemma_iceberg_cells};
use crate::geometry::{lemma_destinations_on_board, lemma_neighbors_adjacent};
use crate::geometry::{neighbor_seq, lemma_neighbor_seq};
use crate::icebergs::{spec_touches, are_icebergs, iceberg_of};
use crate::NUM_CELLS;

verus! {

/// One step of a walk that claims as it goes: the penguin moves from the
/// cell of `from` to a cell that a straight walk reaches, the cell is
/// claimed for `player`, and the fish on it are added to the score.
pub open spec fn step_ok(player: Player, from: (Board, u8, usize), to: (Board, u8, usize)) -> bool {
    &&& destinations(from.0.occupied(), from.1 as int).contains(to.1)
    &&& to.0 == from.0.after_claim(player, to.1)
    &&& to.2 == from.2 + from.0.spec_num_fish(to.1)
}

/// A walk that claims as it goes: boards, cells and scores, each state
/// one step after the one before it.
pub open spec fn trail_ok(player: Player, trail: Seq<(Board, u8, usize)>) -> bool {
    &&& trail.len() >= 1
    &&& forall|i: int| 0 <= i < trail.len() ==> (#[trigger] trail[i]).0.wf() && trail[i].1 < 60
    &&& forall|i: int| 1 <= i < trail.len() ==> step_ok(player, trail[i - 1], #[trigger] trail[i])
}

/// No more cells are claimed than the board has, and fewer while a cell is
/// unclaimed.
pub proof fn lemma_occupied_bound(board: Board)
    requires
        board.wf(),
    ensures
        board.occupied().finite(),
        board.occupied().len() <= 60,
        forall|c: u8| c < 60 && !board.occupied().contains(c) ==> board.occupied().len() < 60,
{
    let occ = board.occupied();
    crate::cellset::lemma_view_finite(board.claimed[0]);
    crate::cellset::lemma_view_finite(board.claimed[1]);
    crate::cellset::lemma_cells_below_len(NUM_CELLS as nat);
    let all = crate::cellset::cells_below(NUM_CELLS as nat);
    assert(board.claimed[0].wf() && board.claimed[1].wf());
    vstd::set_lib::lemma_len_subset(occ, all);
    assert forall|c: u8| c < 60 && !occ.contains(c) implies occ.len() < 60 by {
        vstd::set_lib::lemma_len_subset(occ.insert(c), all);
    }
}

/// The cells of a straight walk lie next to each other.
proof fn lemma_ray_adjacent(src: int, dir: int, j: int)
    requires
        0 <= src < 60,
        0 <= dir < 6,
        0 <= j,
        j >= 1 ==> step_on_board(src, dir, j),
        step_on_board(src, dir, j + 1),
    ensures
        0 <= step_index(src, dir, j) < 60,
        0 <= step_index(src, dir, j + 1) < 60,
        adjacent(step_index(src, dir, j), step_index(src, dir, j + 1)),
{
    let col = cell_col(src);
    let row = cell_row(src);
    lemma_index_round_trip(src);
    let here = hex_step(col, row, dir, j);
    let there = hex_step(col, row, dir, j + 1);
    if j == 0 {
        assert(0 * crate::hex::dir_dx(dir) == 0 && 0 * crate::hex::dir_dz(dir) == 0);
        assert(here == (col, row));
    }
    lemma_hex_round_trip(here.0, here.1);
    lemma_hex_round_trip(there.0, there.1);
    lemma_step_compose(col, row, dir, j + 1);
    let a = step_index(src, dir, j);
    assert(step_on_board(a, dir, 1) && step_index(a, dir, 1) == step_index(src, dir, j + 1));
}

/// A straight walk stays on the iceberg of its first cell.
proof fn lemma_ray_connected(occ: Set<u8>, src: int, dir: int, k: int)
    requires
        0 <= src < 60,
        0 <= dir < 6,
        1 <= k,
        reaches(occ, src, dir, k),
    ensures
        connected(occ, step_index(src, dir, 1) as u8, step_index(src, dir, k) as u8),
        adjacent(src, step_index(src, dir, 1)),
        open_neighbor(occ, src, dir),
    decreases k,
{
    assert(step_on_board(src, dir, 1));
    lemma_ray_adjacent(src, dir, 0);
    lemma_index_round_trip(src);
    assert(0 * crate::hex::dir_dx(dir) == 0 && 0 * crate::hex::dir_dz(dir) == 0);
    assert(step_index(src, dir, 0) == src);
    if k == 1 {
        lemma_connected_self(occ, step_index(src, dir, 1) as u8);
    } else {
        assert(reaches(occ, src, dir, k - 1)) by {
            assert forall|j: int| 1 <= j <= k - 1 implies #[trigger] step_on_board(src, dir, j)
                && !occ.contains(step_index(src, dir, j) as u8) by {
                assert(step_on_board(src, dir, j));
            }
        }
        lemma_ray_connected(occ, src, dir, k - 1);
        assert(step_on_board(src, dir, k - 1));
        assert(step_on_board(src, dir, k));
        lemma_ray_adjacent(src, dir, k - 1);
        lemma_connected_step(
            occ,
            step_index(src, dir, 1) as u8,
            step_index(src, dir, k - 1) as u8,
            step_index(src, dir, k) as u8,
        );
    }
}

/// A walk over the ice is still one when fewer cells are claimed.
proof fn lemma_connected_weaker(occ: Set<u8>, more: Set<u8>, a: u8, b: u8)
    requires
        occ.subset_of(more),
        connected(more, a, b),
    ensures
        connected(occ, a, b),
{
    let path = choose|path: Seq<u8>|
        #[trigger] is_path(more, path) && path[0] == a && path.last() == b;
    assert(is_path(occ, path));
}

impl Board {
    /// Fewer cells hold no more fish.
    pub proof fn lemma_fish_in_subset(self, s: Set<u8>, t: Set<u8>)
        requires
            s.subset_of(t),
            t.finite(),
        ensures
            self.fish_in(s) <= self.fish_in(t),
    {
        assert forall|k: int| 0 <= k < 3 implies (#[trigger] s.intersect(self.fish[k]@)).len()
            <= t.intersect(self.fish[k]@).len() by {
            vstd::set_lib::lemma_len_intersect(t, self.fish[k]@);
            vstd::set_lib::lemma_len_subset(
                s.intersect(self.fish[k]@),
                t.intersect(self.fish[k]@),
            );
        }
        assert(s.intersect(self.fish[0]@).len() <= t.intersect(self.fish[0]@).len());
        assert(s.intersect(self.fish[1]@).len() <= t.intersect(self.fish[1]@).len());
        assert(s.intersect(self.fish[2]@).len() <= t.intersect(self.fish[2]@).len());
    }

    /// The most fish on the icebergs of the unclaimed neighbours of
    /// `penguin` in the first `d` directions.
    pub open spec fn best_upto(self, penguin: u8, d: int) -> nat
        decreases d,
    {
        if d <= 0 {
            0
        } else {
            let before = self.best_upto(penguin, d - 1);
            let here = self.fish_in(
                crate::icebergs::iceberg_of(
                    self.occupied(),
                    step_index(penguin as int, d - 1, 1) as u8,
                ),
            );
            if open_neighbor(self.occupied(), penguin as int, d - 1) && here > before {
                here
            } else {
                before
            }
        }
    }

    /// The most fish that a penguin on `penguin` could still get.
    pub open spec fn spec_best_score(self, penguin: u8) -> nat {
        self.best_upto(penguin, 6)
    }

    proof fn lemma_best_upto(self, penguin: u8, d: int)
        requires
            0 <= d <= 6,
        ensures
            forall|dir: int|
                0 <= dir < d && #[trigger] open_neighbor(self.occupied(), penguin as int, dir)
                    ==> self.fish_in(
                    crate::icebergs::iceberg_of(
                        self.occupied(),
                        step_index(penguin as int, dir, 1) as u8,
                    ),
                ) <= self.best_upto(penguin, d),
            self.best_upto(penguin, d) == 0 || exists|dir: int|
                0 <= dir < d && #[trigger] open_neighbor(self.occupied(), penguin as int, dir)
                    && self.fish_in(
                    crate::icebergs::iceberg_of(
                        self.occupied(),
                        step_index(penguin as int, dir, 1) as u8,
                    ),
                ) == self.best_upto(penguin, d),
        decreases d,
    {
        if d > 0 {
            self.lemma_best_upto(penguin, d - 1);
            let before = self.best_upto(penguin, d - 1);
            if self.best_upto(penguin, d) != 0 {
                if self.best_upto(penguin, d) == before {
                    let dir = choose|dir: int|
                        0 <= dir < d - 1 && #[trigger] open_neighbor(
                            self.occupied(),
                            penguin as int,
                            dir,
                        ) && self.fish_in(
                            crate::icebergs::iceberg_of(
                                self.occupied(),
                                step_index(penguin as int, dir, 1) as u8,
                            ),
                        ) == before;
                    assert(0 <= dir < d && open_neighbor(self.occupied(), penguin as int, dir));
                } else {
                    assert(open_neighbor(self.occupied(), penguin as int, d - 1));
                }
            }
        }
    }

    /// There is a most that a penguin could still get.
    pub proof fn lemma_best_score(self, penguin: u8)
        ensures
            self.is_best_score(penguin, self.spec_best_score(penguin)),
    {
        self.lemma_best_upto(penguin, 6);
    }

    /// Only one number is the most fish that a penguin could still get.
    pub proof fn lemma_best_score_unique(self, penguin: u8, a: nat, b: nat)
        requires
            self.is_best_score(penguin, a),
            self.is_best_score(penguin, b),
        ensures
            a == b,
    {
    }

    /// A step of a walk that claims as it goes takes no more than the
    /// penguin could get before it: the fish on the cell it comes to, and
    /// what it could still get from there, are no more than what it could
    /// get from where it stood.
    pub proof fn lemma_step_within_bound(self, player: Player, src: u8, dst: u8, n: nat, m: nat)
        requires
            self.wf(),
            player.id < 2,
            src < 60,
            destinations(self.occupied(), src as int).contains(dst),
            self.is_best_score(src, n),
            self.after_claim(player, dst).is_best_score(dst, m),
        ensures
            self.spec_num_fish(dst) + m <= n,
    {
        let occ = self.occupied();
        let next = self.after_claim(player, dst);
        let first = lemma_destination_iceberg(occ, src, dst);
        let berg = crate::icebergs::iceberg_of(occ, first);
        assert(self.fish_in(berg) <= n);
        assert(berg.finite()) by {
            lemma_iceberg_cells(occ, first);
            crate::cellset::lemma_cells_below_len(60);
            vstd::set_lib::lemma_len_subset(berg, crate::cellset::cells_below(60));
        }
        assert(dst < 60 && !occ.contains(dst)) by {
            lemma_destinations_on_board(occ, src as int);
            lemma_destination_clear(occ, src, dst);
        }
        assert(next.wf() && next.occupied() == occ.insert(dst) && next.fish == self.fish) by {
            self.lemma_after_claim_wf(player, dst);
        }
        if m == 0 {
            self.lemma_fish_of_member(berg, dst);
        } else {
            let d2 = choose|d2: int|
                0 <= d2 < 6 && #[trigger] open_neighbor(next.occupied(), dst as int, d2)
                    && next.fish_in(
                    crate::icebergs::iceberg_of(
                        next.occupied(),
                        step_index(dst as int, d2, 1) as u8,
                    ),
                ) == m;
            let beyond = step_index(dst as int, d2, 1) as u8;
            let rest = crate::icebergs::iceberg_of(next.occupied(), beyond);
            assert(adjacent(dst as int, beyond as int) && !next.occupied().contains(beyond)) by {
                lemma_hex_round_trip(
                    hex_step(cell_col(dst as int), cell_row(dst as int), d2, 1).0,
                    hex_step(cell_col(dst as int), cell_row(dst as int), d2, 1).1,
                );
                assert(step_on_board(dst as int, d2, 1) && step_index(dst as int, d2, 1)
                    == beyond);
            }
            lemma_iceberg_after_claim(occ, first, dst, beyond);
            assert(next.fish_in(rest) == self.fish_in(rest));
            self.lemma_fish_of_part(rest, dst, berg);
        }
    }

    /// A cell of a set holds no more fish than the set.
    proof fn lemma_fish_of_member(self, s: Set<u8>, c: u8)
        requires
            self.wf(),
            s.finite(),
            s.contains(c),
            c < 60,
        ensures
            self.spec_num_fish(c) <= self.fish_in(s),
    {
        self.lemma_fish_of_part(Set::<u8>::empty(), c, s);
        assert(Set::<u8>::empty().intersect(self.fish[0]@) =~= Set::<u8>::empty());
        assert(Set::<u8>::empty().intersect(self.fish[1]@) =~= Set::<u8>::empty());
        assert(Set::<u8>::empty().intersect(self.fish[2]@) =~= Set::<u8>::empty());
    }

    /// A part of a set and one more of its cells hold no more fish than
    /// the set.
    proof fn lemma_fish_of_part(self, part: Set<u8>, c: u8, s: Set<u8>)
        requires
            self.wf(),
            s.finite(),
            part.subset_of(s),
            s.contains(c),
            !part.contains(c),
            c < 60,
        ensures
            self.fish_in(part) + self.spec_num_fish(c) <= self.fish_in(s),
    {
        vstd::set_lib::lemma_len_subset(part, s);
        self.lemma_fish_in_insert(part, c);
        self.lemma_fish_in_subset(part.insert(c), s);
    }
}

/// A cell to which a straight walk comes lies on the iceberg of the first
/// cell of the walk, which is an unclaimed neighbour of the start. Gives
/// that first cell.
proof fn lemma_destination_iceberg(occ: Set<u8>, src: u8, dst: u8) -> (first: u8)
    requires
        src < 60,
        destinations(occ, src as int).contains(dst),
    ensures
        exists|dir: int|
            0 <= dir < 6 && #[trigger] open_neighbor(occ, src as int, dir) && step_index(
                src as int,
                dir,
                1,
            ) == first,
        crate::icebergs::iceberg_of(occ, first).contains(dst),
        first < 60,
{
    let dir = choose|dir: int|
        0 <= dir < 6 && #[trigger] destinations_in_dir(occ, src as int, dir).contains(dst);
    let k = choose|k: int|
        1 <= k && #[trigger] reaches(occ, src as int, dir, k) && step_index(src as int, dir, k)
            == dst;
    lemma_ray_connected(occ, src as int, dir, k);
    lemma_ray_adjacent(src as int, dir, 0);
    let first = step_index(src as int, dir, 1) as u8;
    assert(open_neighbor(occ, src as int, dir) && step_index(src as int, dir, 1) == first);
    first
}

/// Once a cell of an iceberg is claimed, the iceberg of an unclaimed
/// neighbour of that cell is a part of the iceberg as it was, without the
/// cell.
proof fn lemma_iceberg_after_claim(occ: Set<u8>, first: u8, dst: u8, beyond: u8)
    requires
        crate::icebergs::iceberg_of(occ, first).contains(dst),
        dst < 60,
        adjacent(dst as int, beyond as int),
        !occ.insert(dst).contains(beyond),
    ensures
        crate::icebergs::iceberg_of(occ.insert(dst), beyond).subset_of(
            crate::icebergs::iceberg_of(occ, first),
        ),
        !crate::icebergs::iceberg_of(occ.insert(dst), beyond).contains(dst),
{
    let more = occ.insert(dst);
    let rest = crate::icebergs::iceberg_of(more, beyond);
    let berg = crate::icebergs::iceberg_of(occ, first);
    lemma_iceberg_cells(more, beyond);
    lemma_connected_step(occ, first, dst, beyond);
    assert forall|c: u8| rest.contains(c) implies berg.contains(c) by {
        lemma_connected_weaker(occ, more, beyond, c);
        lemma_connected_trans(occ, first, beyond, c);
    }
}

impl Board {
    /// A walk for the penguin on `src` that takes `best_score_from_start`
    /// fish in all, if the search finds one. `score` is what the penguin
    /// has taken so far; the walk is over when the two are equal, and the
    /// search gives up on a position from which the fish next to the
    /// penguin no longer suffice.
    fn dfs_this_iceberg(
        player: Player,
        best_score_from_start: usize,
        board: Board,
        src: u8,
        score: usize,
    ) -> (r: Option<Vec<(Board, u8, usize)>>)
        requires
            player.id < 2,
            board.wf(),
            (src as nat) < NUM_CELLS,
            best_score_from_start <= 180,
            exists|n: nat| board.is_best_score(src, n) && score + n <= best_score_from_start,
        ensures
            r matches Some(trail) ==> trail_ok(player, trail@) && trail@[0] == (board, src, score)
                && trail@.last().2 == best_score_from_start,
            r is Some <==> perfect_walk(player, board, src, score, best_score_from_start),
        decreases 60 - board.occupied().len(),
    {
        if score == best_score_from_start {
            let trail = vec![(board, src, score)];
            assert(trail@[0] == (board, src, score));
            assert(trail_ok(player, trail@));
            return Some(trail);
        }
        let best_score_from_here = score + board.best_score_for_penguin(src);
        if best_score_from_here < best_score_from_start {
            proof {
                assert forall|trail: Seq<(Board, u8, usize)>|
                    trail_ok(player, trail) && trail[0] == (
                        board,
                        src,
                        score,
                    ) implies trail.last().2 != best_score_from_start by {
                    lemma_trail_bound(player, trail, trail.len() - 1);
                    board.lemma_best_score(src);
                    board.lemma_best_score_unique(
                        src,
                        board.spec_best_score(src),
                        (best_score_from_here - score) as nat,
                    );
                }
            }
            return None;
        }
        proof {
            let n = choose|n: nat| board.is_best_score(src, n) && score + n <= best_score_from_start;
            board.lemma_best_score_unique(src, n, (best_score_from_here - score) as nat);
        }
        let moves = board.moves(src);
        let mut it = moves.iter();
        loop
            invariant
                player.id < 2,
                board.wf(),
                (src as nat) < NUM_CELLS,
                score < best_score_from_start <= 180,
                board.is_best_score(src, (best_score_from_start - score) as nat),
                moves@ == destinations(board.occupied(), src as int),
                moves.wf(),
                it.wf(),
                it.set() == moves,
                it.pending().finite(),
                it.pending().subset_of(moves@),
                forall|d: u8|
                    moves@.contains(d) && !it.pending().contains(d) ==> !#[trigger] perfect_walk(
                        player,
                        board.after_claim(player, d),
                        d,
                        (score + board.spec_num_fish(d)) as usize,
                        best_score_from_start,
                    ),
            decreases it.pending().len(),
        {
            let ghost before = it;
            let dst = match it.next() {
                Some(dst) => dst,
                None => {
                    proof {
                        assert(it.pending() =~= Set::<u8>::empty());
                        lemma_no_walk_on(player, board, src, score, best_score_from_start);
                    }
                    return None;
                },
            };
            proof {
                assert(before.pending().contains(dst));
                lemma_destination_clear(board.occupied(), src, dst);
                lemma_occupied_bound(board);
                board.lemma_after_claim_wf(player, dst);
            }
            if !board.is_claimed(dst) {
                let mut new_board = board;
                let claimed = new_board.claim_cell(player, dst);
                let claimed_fish = new_board.num_fish(dst);
                let new_score = score + claimed_fish;
                let ghost reach = new_board.spec_best_score(dst);
                proof {
                    lemma_occupied_bound(new_board);
                    new_board.lemma_best_score(dst);
                    board.lemma_step_within_bound(
                        player,
                        src,
                        dst,
                        (best_score_from_start - score) as nat,
                        reach,
                    );
                }
                match Board::dfs_this_iceberg(
                    player,
                    best_score_from_start,
                    new_board,
                    dst,
                    new_score,
                ) {
                    Some(mut rest) => {
                        let ghost tail = rest@;
                        let mut trail = vec![(board, src, score)];
                        trail.append(&mut rest);
                        proof {
                            assert(trail@ =~= seq![(board, src, score)] + tail);
                            lemma_trail_longer(player, (board, src, score), tail);
                        }
                        return Some(trail);
                    },
                    None => {},
                }
            }
        }
    }

    /// A walk for the penguin on `penguin` that takes every fish it could
    /// still get, with the number of those fish, if the search finds one.
    pub fn optimal_path(&self, player: Player, penguin: u8) -> (r: Option<
        (Vec<(Board, u8, usize)>, usize),
    >)
        requires
            player.id < 2,
            self.wf(),
            (penguin as nat) < NUM_CELLS,
        ensures
            r matches Some((trail, best)) ==> trail_ok(player, trail@) && trail@[0] == (
                *self,
                penguin,
                0usize,
            ) && trail@.last().2 == best && self.is_best_score(penguin, best as nat),
            r is Some <==> perfect_walk(
                player,
                *self,
                penguin,
                0,
                self.spec_best_score(penguin) as usize,
            ),
    {
        proof {
            self.lemma_best_score(penguin);
        }
        let best_score_from_start = self.best_score_for_penguin(penguin);
        proof {
            self.lemma_best_score_unique(
                penguin,
                best_score_from_start as nat,
                self.spec_best_score(penguin),
            );
        }
        match Board::dfs_this_iceberg(player, best_score_from_start, *self, penguin, 0) {
            Some(moves) => Some((moves, best_score_from_start)),
            None => None,
        }
    }

    /// Walks the penguin of `player` on `penguin` over its iceberg so that
    /// it takes every fish it could still get, if the search finds such a
    /// walk; else the board stays as it is.
    pub fn fill(&mut self, player: Player, penguin: u8) -> (done: bool)
        requires
            player.id < 2,
            old(self).wf(),
            (penguin as nat) < NUM_CELLS,
            old(self).penguins[player.id as int]@.contains(penguin),
        ensures
            final(self).wf(),
            !done ==> *final(self) == *old(self),
            done ==> old(self).filled_to(player, penguin, *final(self)),
            done <==> perfect_walk(
                player,
                *old(self),
                penguin,
                0,
                old(self).spec_best_score(penguin) as usize,
            ),
            done && !old(self).is_best_score(penguin, 0) ==> old(self).occupied().len()
                < final(self).occupied().len(),
    {
        let ghost before = *self;
        let moves = self.optimal_path(player, penguin);
        match moves {
            Some((cells_to_take, best)) => {
                let ghost start = penguin;
                let mut penguin = penguin;
                let mut i: usize = 1;
                proof {
                    crate::cellset::lemma_view_finite(self.claimed[player.id as int]);
                    assert(before.claimed[1 - player.id as int]@ == self.claimed[1
                        - player.id as int]@);
                    lemma_occupied_bound(before);
                    assert(self.penguins[player.id as int]@ =~= before.penguins[player.id as int]@.remove(
                        start,
                    ).insert(start));
                }
                while i < cells_to_take.len()
                    invariant
                        player.id < 2,
                        cells_to_take@[0] == (before, start, 0usize),
                        self.claimed[player.id as int]@ == cells_to_take@[i
                            - 1].0.claimed[player.id as int]@,
                        self.penguins[player.id as int]@ == before.penguins[player.id as int]@.remove(
                            start,
                        ).insert(penguin),
                        penguin == start || !before.penguins[player.id as int]@.contains(penguin),
                        before.wf(),
                        self.wf(),
                        trail_ok(player, cells_to_take@),
                        cells_to_take@[0].0.fish == before.fish,
                        1 <= i <= cells_to_take.len(),
                        penguin == cells_to_take@[i - 1].1,
                        self.penguins[player.id as int]@.contains(penguin),
                        self.occupied() == cells_to_take@[i - 1].0.occupied(),
                        self.fish == before.fish,
                        self.claimed[1 - player.id as int] == before.claimed[1 - player.id as int],
                        self.penguins[1 - player.id as int] == before.penguins[1
                            - player.id as int],
                        before.claimed[player.id as int]@.subset_of(self.claimed[player.id as int]@),
                        self.claimed[player.id as int]@.finite(),
                        self.occupied().finite(),
                        self.occupied().len() >= before.occupied().len() + (i - 1),
                        cells_to_take@[0].2 == 0,
                        cells_to_take@.last().2 == best,
                        before.is_best_score(cells_to_take@[0].1, best as nat),
                        self.spec_score(player.id as int) + cells_to_take@[0].2 == before.spec_score(
                            player.id as int,
                        ) + cells_to_take@[i - 1].2,
                    decreases cells_to_take.len() - i,
                {
                    let cell = cells_to_take[i].1;
                    let ghost now = *self;
                    proof {
                        let from = cells_to_take@[i - 1];
                        let to = cells_to_take@[i as int];
                        assert(step_ok(player, from, to));
                        lemma_destination_clear(self.occupied(), penguin, cell);
                        lemma_destinations_on_board(self.occupied(), penguin as int);
                        assert(self.spec_is_legal_move(player, penguin, cell));
                        self.lemma_after_move_wf(player, penguin, cell);
                        from.0.lemma_after_claim_wf(player, cell);
                        assert(!self.claimed[player.id as int]@.contains(cell));
                        self.lemma_fish_in_insert(self.claimed[player.id as int]@, cell);
                        assert(from.0.fish == now.fish) by {
                            lemma_trail_fish(player, cells_to_take@, i - 1);
                        }
                        assert(from.0.spec_num_fish(cell) == now.spec_num_fish(cell));
                    }
                    let moved = self.move_penguin(player, penguin, cell);
                    proof {
                        assert(moved is Ok);
                        assert(self.claimed[player.id as int]@ == now.claimed[player.id as int]@.insert(
                            cell,
                        ));
                        assert(before.penguins[player.id as int]@.subset_of(
                            before.claimed[player.id as int]@,
                        ));
                        lemma_walk_step(
                            before.penguins[player.id as int]@,
                            start,
                            penguin,
                            cell,
                        );
                    }
                    penguin = cell;
                    i += 1;
                }
                proof {
                    before.lemma_best_score(start);
                    before.lemma_best_score_unique(
                        start,
                        best as nat,
                        before.spec_best_score(start),
                    );
                    assert(before.walked_to(player, start, *self)) by {
                        assert(trail_ok(player, cells_to_take@));
                    }
                    assert(before.filled_to(player, cells_to_take@[0].1, *self)) by {
                        assert(self.spec_score(player.id as int) == before.spec_score(
                            player.id as int,
                        ) + best);
                    }
                    if !before.is_best_score(cells_to_take@[0].1, 0) {
                        assert(best != 0);
                        assert(cells_to_take@.len() >= 2);
                    }
                }
                true
            },
            None => false,
        }
    }

    /// The penguin of `player` on `penguin` has walked a walk that claims
    /// as it goes and takes every fish that the penguin could still get:
    /// on `after`, `player` has the cells that it has at the end of the
    /// walk, and the penguin stands where the walk ends.
    pub open spec fn walked_to(self, player: Player, penguin: u8, after: Board) -> bool {
        exists|trail: Seq<(Board, u8, usize)>|
            #[trigger] trail_ok(player, trail) && trail[0] == (self, penguin, 0usize)
                && trail.last().2 == self.spec_best_score(penguin)
                && after.claimed[player.id as int]@ == trail.last().0.claimed[player.id as int]@
                && after.penguins[player.id as int]@ == self.penguins[player.id as int]@.remove(
                penguin,
            ).insert(trail.last().1)
    }

    /// `after` is this board after the penguin of `player` on `penguin` has
    /// walked over its iceberg: nothing changed for the other player, the
    /// fish lie as before, `player` has every cell it had and those of the
    /// walk, the penguin stands where the walk ends, and the score of
    /// `player` has grown by the most fish that the penguin could still
    /// get.
    pub open spec fn filled_to(self, player: Player, penguin: u8, after: Board) -> bool {
        &&& self.walked_to(player, penguin, after)
        &&& after.fish == self.fish
        &&& after.claimed[1 - player.id as int] == self.claimed[1 - player.id as int]
        &&& after.penguins[1 - player.id as int] == self.penguins[1 - player.id as int]
        &&& self.claimed[player.id as int]@.subset_of(after.claimed[player.id as int]@)
        &&& exists|best: nat|
            self.is_best_score(penguin, best) && after.spec_score(player.id as int)
                == self.spec_score(player.id as int) + best
    }

    /// A penguin of player `q` stands on `c`, next to a cell of `iceberg`.
    pub open spec fn borders(self, iceberg: Set<u8>, q: int, c: u8) -> bool {
        0 <= q < 2 && self.penguins[q]@.contains(c) && spec_touches(iceberg, c)
    }

    /// Some unclaimed cell next to `penguin` is not a cell of `iceberg`.
    pub open spec fn spec_can_leave(self, iceberg: Set<u8>, penguin: u8) -> bool {
        exists|n: u8|
            adjacent(penguin as int, n as int) && !iceberg.contains(n) && !self.occupied().contains(
                n,
            )
    }

    /// The penguin of player `q` on `c` is alone on `iceberg`: it stands
    /// next to it, no other penguin does, and every unclaimed cell next to
    /// it is a cell of `iceberg`.
    pub open spec fn alone_on(self, iceberg: Set<u8>, q: int, c: u8) -> bool {
        &&& self.borders(iceberg, q, c)
        &&& forall|r: int, d: u8| #[trigger] self.borders(iceberg, r, d) ==> r == q && d == c
        &&& !self.spec_can_leave(iceberg, c)
    }

    /// One penguin was walked over its iceberg: on this board the penguin of
    /// some player was alone on some iceberg, and `after` is the board
    /// after that penguin has taken every fish it could still get.
    pub open spec fn prune_step(self, after: Board) -> bool {
        exists|seed: u8, q: int, c: u8|
            #![trigger self.alone_on(iceberg_of(self.occupied(), seed), q, c)]
            self.alone_on(iceberg_of(self.occupied(), seed), q, c) && self.filled_to(
                Player { id: q as usize },
                c,
                after,
            )
    }

    /// A penguin next to an iceberg can still get fish.
    proof fn lemma_bordering_penguin_has_fish(
        self,
        comps: Seq<CellSet>,
        i: int,
        q: int,
        penguin: u8,
    )
        requires
            self.wf(),
            are_icebergs(self.occupied(), comps),
            0 <= i < comps.len(),
            self.borders(comps[i]@, q, penguin),
            penguin < 60,
        ensures
            !self.is_best_score(penguin, 0),
    {
        let occ = self.occupied();
        let n = choose|n: u8| adjacent(penguin as int, n as int) && comps[i]@.contains(n);
        assert(crate::icebergs::union_of(comps).contains(n));
        assert(crate::icebergs::open_cells(occ).contains(n));
        let dir = choose|dir: int|
            0 <= dir < 6 && #[trigger] crate::geometry::step_on_board(penguin as int, dir, 1)
                && crate::geometry::step_index(penguin as int, dir, 1) == n;
        assert(crate::geometry::open_neighbor(occ, penguin as int, dir));
        crate::icebergs::lemma_connected_self(occ, n);
        self.lemma_fish_in_positive(iceberg_of(occ, n), n);
    }

    /// A set of cells that is not empty holds fish.
    pub proof fn lemma_fish_in_positive(self, s: Set<u8>, c: u8)
        requires
            self.wf(),
            s.contains(c),
            c < 60,
        ensures
            self.fish_in(s) >= 1,
    {
        assert(self.spec_num_fish(c) >= 1);
        assert forall|k: int| 0 <= k < 3 implies (#[trigger] s.intersect(self.fish[k]@)).finite() by {
            crate::cellset::lemma_view_finite(self.fish[k]);
            vstd::set_lib::lemma_len_subset(s.intersect(self.fish[k]@), self.fish[k]@);
        }
        assert(s.intersect(self.fish[0]@).finite());
        assert(s.intersect(self.fish[1]@).finite());
        assert(s.intersect(self.fish[2]@).finite());
        if self.fish[0]@.contains(c) {
            assert(s.intersect(self.fish[0]@).contains(c));
        } else if self.fish[1]@.contains(c) {
            assert(s.intersect(self.fish[1]@).contains(c));
        } else {
            assert(s.intersect(self.fish[2]@).contains(c));
        }
    }

    /// The one penguin that stands next to `iceberg`, with its player; none
    /// where no penguin or more than one does.
    pub fn sole_penguin(&self, iceberg: CellSet) -> (r: Option<(Player, u8)>)
        requires
            self.wf(),
        ensures
            match r {
                Some((player, penguin)) => self.borders(iceberg@, player.id as int, penguin)
                    && forall|q: int, c: u8| #[trigger]
                    self.borders(iceberg@, q, c) ==> q == player.id && c == penguin,
                None => (forall|q: int, c: u8| !#[trigger] self.borders(iceberg@, q, c)) || exists|
                    q: int,
                    c: u8,
                    r: int,
                    d: u8,
                |
                    #[trigger] self.borders(iceberg@, q, c) && #[trigger] self.borders(
                        iceberg@,
                        r,
                        d,
                    ) && (q != r || c != d),
            },
    {
        let mut found: Option<(Player, u8)> = None;
        let mut id: usize = 0;
        while id < 2
            invariant
                self.wf(),
                id <= 2,
                match found {
                    Some((player, penguin)) => player.id < id && self.borders(
                        iceberg@,
                        player.id as int,
                        penguin,
                    ),
                    None => true,
                },
                forall|q: int, c: u8|
                    0 <= q < id && #[trigger] self.borders(iceberg@, q, c) ==> found == Some(
                        (Player { id: q as usize }, c),
                    ),
            decreases 2 - id,
        {
            let penguins = self.penguins[id];
            assert(self.penguins[id as int].wf());
            let mut it = penguins.iter();
            loop
                invariant
                    self.wf(),
                    id < 2,
                    penguins == self.penguins[id as int],
                    penguins.wf(),
                    it.wf(),
                    it.set() == penguins,
                    it.pending().finite(),
                    it.pending().subset_of(penguins@),
                    match found {
                        Some((player, penguin)) => (player.id < id || (player.id == id
                            && !it.pending().contains(penguin))) && self.borders(
                            iceberg@,
                            player.id as int,
                            penguin,
                        ),
                        None => true,
                    },
                    forall|q: int, c: u8|
                        (0 <= q < id || (q == id && !it.pending().contains(c)))
                            && #[trigger] self.borders(iceberg@, q, c) ==> found == Some(
                            (Player { id: q as usize }, c),
                        ),
                ensures
                    it.pending() == Set::<u8>::empty(),
                decreases it.pending().len(),
            {
                let ghost before = it;
                match it.next() {
                    Some(p) => {
                        assert(before.pending().contains(p));
                        if Board::touches(iceberg, p) {
                            assert(self.borders(iceberg@, id as int, p));
                            match found {
                                Some((other, q)) => {
                                    assert(self.borders(iceberg@, other.id as int, q)
                                        && self.borders(iceberg@, id as int, p) && (other.id
                                        != id || q != p));
                                    return None;
                                },
                                None => {
                                    found = Some((Player { id }, p));
                                },
                            }
                        }
                    },
                    None => {
                        break ;
                    },
                }
            }
            id += 1;
        }
        found
    }

    /// Whether the penguin on `penguin` could step off `iceberg`: some
    /// unclaimed cell next to it is not a cell of `iceberg`.
    pub fn can_leave(&self, iceberg: CellSet, penguin: u8) -> (b: bool)
        requires
            (penguin as nat) < NUM_CELLS,
        ensures
            b == self.spec_can_leave(iceberg@, penguin),
    {
        let around = Board::neighbors(penguin);
        let cells = cells_slice(&around);
        proof {
            lemma_neighbor_seq(penguin as int, 6);
            lemma_neighbors_adjacent(penguin as int);
        }
        let mut i: usize = 0;
        while i < cells.len()
            invariant
                i <= cells.len(),
                (penguin as nat) < NUM_CELLS,
                cells@ == neighbor_seq(penguin as int, 6),
                forall|j: int| 0 <= j < cells@.len() ==> #[trigger] cells@[j] < 60,
                forall|x: u8|
                    neighbor_seq(penguin as int, 6).contains(x) <==> adjacent(
                        penguin as int,
                        x as int,
                    ),
                forall|j: int|
                    0 <= j < i ==> iceberg@.contains(#[trigger] cells@[j])
                        || self.occupied().contains(cells@[j]),
            decreases cells.len() - i,
        {
            let neighbor = cells[i];
            if !iceberg.contains(neighbor) && !self.is_claimed(neighbor) {
                proof {
                    assert(neighbor_seq(penguin as int, 6).contains(cells@[i as int]));
                }
                return true;
            }
            i += 1;
        }
        proof {
            if self.spec_can_leave(iceberg@, penguin) {
                let n = choose|n: u8|
                    adjacent(penguin as int, n as int) && !iceberg@.contains(n)
                        && !self.occupied().contains(n);
                assert(cells@.contains(n));
                let j = choose|j: int| 0 <= j < cells@.len() && cells@[j] == n;
                assert(iceberg@.contains(cells@[j]) || self.occupied().contains(cells@[j]));
            }
        }
        false
    }

    /// Where a penguin is alone on an iceberg, lets it take every fish it
    /// could still get there, if a walk that does so is found. At most one
    /// penguin is walked in one call. Says whether one was.
    pub fn prune(&mut self) -> (done: bool)
        requires
            old(self).wf(),
        ensures
            final(self).wf(),
            !done ==> *final(self) == *old(self),
            done ==> old(self).prune_step(*final(self)),
            done ==> old(self).occupied().len() < final(self).occupied().len() <= 60,
            done <==> exists|seed: u8, q: int, c: u8| #[trigger] old(self).can_fill(seed, q, c),
    {
        let ghost before = *self;
        let mut has_done_anything = false;
        let components = self.connected_components();
        let mut i: usize = 0;
        while i < components.len()
            invariant
                before == *old(self),
                before.wf(),
                self.wf(),
                i <= components.len(),
                are_icebergs(before.occupied(), components@),
                !has_done_anything ==> *self == before,
                has_done_anything ==> before.prune_step(*self),
                has_done_anything ==> before.occupied().len() < self.occupied().len() <= 60,
                has_done_anything ==> exists|seed: u8, q: int, c: u8|
                    #[trigger] before.can_fill(seed, q, c),
                !has_done_anything ==> forall|j: int, q: int, c: u8|
                    0 <= j < i ==> !#[trigger] before.can_fill_on(components@[j]@, q, c),
            decreases components.len() - i,
        {
            let iceberg = components[i];
            i += 1;
            if has_done_anything {
                continue ;
            }
            let (player, penguin) = match self.sole_penguin(iceberg) {
                Some(found) => found,
                None => {
                    continue ;
                },
            };
            assert(self.penguins[player.id as int].wf());
            assert(forall|q: int, c: u8| #[trigger]
                before.can_fill_on(iceberg@, q, c) ==> q == player.id && c == penguin);
            if self.can_leave(iceberg, penguin) {
                continue ;
            }
            proof {
                let seed = choose|seed: u8|
                    crate::cellset::is_least(components@[i - 1]@, seed) && !before.occupied().contains(
                        seed,
                    ) && components@[i - 1]@ == iceberg_of(before.occupied(), seed);
                assert(before.alone_on(iceberg_of(before.occupied(), seed), player.id as int, penguin));
                before.lemma_bordering_penguin_has_fish(components@, i - 1, player.id as int, penguin);
                assert(Player { id: player.id as int as usize } == player);
            }
            has_done_anything = self.fill(player, penguin);
            proof {
                lemma_occupied_bound(*self);
                if has_done_anything {
                    let seed = choose|seed: u8|
                        crate::cellset::is_least(components@[i - 1]@, seed)
                            && !before.occupied().contains(seed) && components@[i - 1]@
                            == iceberg_of(before.occupied(), seed);
                    assert(before.can_fill(seed, player.id as int, penguin));
                }
            }
        }
        proof {
            if !has_done_anything {
                assert forall|seed: u8, q: int, c: u8| !#[trigger] before.can_fill(seed, q, c) by {
                    if before.can_fill(seed, q, c) {
                        assert(crate::icebergs::open_cells(before.occupied()).contains(seed));
                        assert(crate::icebergs::union_of(components@).contains(seed));
                        let j = choose|j: int|
                            0 <= j < components@.len() && (#[trigger] components@[j])@.contains(
                                seed,
                            );
                        crate::icebergs::lemma_iceberg_through(
                            before.occupied(),
                            components@,
                            j,
                            seed,
                        );
                        assert(before.can_fill_on(components@[j]@, q, c));
                    }
                }
            }
        }
        has_done_anything
    }

    /// The penguin of player `q` on `c` is alone on `iceberg`, and a walk
    /// from it takes every fish that it could still get.
    pub open spec fn can_fill_on(self, iceberg: Set<u8>, q: int, c: u8) -> bool {
        self.alone_on(iceberg, q, c) && perfect_walk(
            Player { id: q as usize },
            self,
            c,
            0,
            self.spec_best_score(c) as usize,
        )
    }

    /// The penguin of player `q` on `c` is alone on the iceberg of the
    /// unclaimed cell `seed`, and a walk from it takes every fish that it
    /// could still get.
    pub open spec fn can_fill(self, seed: u8, q: int, c: u8) -> bool {
        seed < 60 && !self.occupied().contains(seed) && self.can_fill_on(
            iceberg_of(self.occupied(), seed),
            q,
            c,
        )
    }
}

/// A walk that claims as it goes leads from the penguin on `src`, with
/// `score` fish taken on `board`, to `best` fish taken.
pub open spec fn perfect_walk(
    player: Player,
    board: Board,
    src: u8,
    score: usize,
    best: usize,
) -> bool {
    exists|trail: Seq<(Board, u8, usize)>|
        #[trigger] trail_ok(player, trail) && trail[0] == (board, src, score) && trail.last().2
            == best
}

/// A walk with one more step before it is a walk.
proof fn lemma_trail_longer(
    player: Player,
    first: (Board, u8, usize),
    tail: Seq<(Board, u8, usize)>,
)
    requires
        trail_ok(player, tail),
        first.0.wf(),
        first.1 < 60,
        step_ok(player, first, tail[0]),
    ensures
        trail_ok(player, seq![first] + tail),
        (seq![first] + tail)[0] == first,
        (seq![first] + tail).last() == tail.last(),
{
    let trail = seq![first] + tail;
    assert forall|i: int| 0 <= i < trail.len() implies (#[trigger] trail[i]).0.wf() && trail[i].1
        < 60 by {
        if i >= 1 {
            assert(trail[i] == tail[i - 1]);
        }
    }
    assert forall|i: int| 1 <= i < trail.len() implies step_ok(
        player,
        trail[i - 1],
        #[trigger] trail[i],
    ) by {
        assert(trail[i] == tail[i - 1]);
        if i >= 2 {
            assert(trail[i - 1] == tail[i - 2]);
            assert(step_ok(player, tail[i - 2], tail[i - 1]));
        }
    }
}

/// Where no walk leads on from any cell that the penguin can move to, none
/// leads on from where it stands.
proof fn lemma_no_walk_on(player: Player, board: Board, src: u8, score: usize, best: usize)
    requires
        score < best,
        forall|d: u8|
            destinations(board.occupied(), src as int).contains(d) ==> !#[trigger] perfect_walk(
                player,
                board.after_claim(player, d),
                d,
                (score + board.spec_num_fish(d)) as usize,
                best,
            ),
    ensures
        !perfect_walk(player, board, src, score, best),
{
    if perfect_walk(player, board, src, score, best) {
        let trail = choose|trail: Seq<(Board, u8, usize)>|
            #[trigger] trail_ok(player, trail) && trail[0] == (board, src, score) && trail.last().2
                == best;
        assert(trail.len() >= 2);
        lemma_trail_tail(player, trail);
        let d = trail[1].1;
        assert(step_ok(player, trail[0], trail[1]));
        let tail = trail.subrange(1, trail.len() as int);
        assert(tail[0] == trail[1]);
        assert(tail.last() == trail.last());
        assert(trail_ok(player, tail));
        assert(perfect_walk(
            player,
            board.after_claim(player, d),
            d,
            (score + board.spec_num_fish(d)) as usize,
            best,
        ));
    }
}

/// A walk without its first state is a walk.
proof fn lemma_trail_tail(player: Player, trail: Seq<(Board, u8, usize)>)
    requires
        trail_ok(player, trail),
        trail.len() >= 2,
    ensures
        trail_ok(player, trail.subrange(1, trail.len() as int)),
{
    let tail = trail.subrange(1, trail.len() as int);
    assert forall|i: int| 0 <= i < tail.len() implies (#[trigger] tail[i]).0.wf() && tail[i].1
        < 60 by {
        assert(tail[i] == trail[i + 1]);
    }
    assert forall|i: int| 1 <= i < tail.len() implies step_ok(
        player,
        tail[i - 1],
        #[trigger] tail[i],
    ) by {
        assert(tail[i] == trail[i + 1]);
        assert(tail[i - 1] == trail[i]);
        assert(step_ok(player, trail[i], trail[i + 1]));
    }
}

/// Along a walk that claims as it goes, what the penguin has taken and
/// what it could still get never add up to more than at the start.
proof fn lemma_trail_bound(player: Player, trail: Seq<(Board, u8, usize)>, i: int)
    requires
        player.id < 2,
        trail_ok(player, trail),
        0 <= i < trail.len(),
    ensures
        trail[i].2 + trail[i].0.spec_best_score(trail[i].1) <= trail[0].2
            + trail[0].0.spec_best_score(trail[0].1),
    decreases i,
{
    if i > 0 {
        lemma_trail_bound(player, trail, i - 1);
        let from = trail[i - 1];
        let to = trail[i];
        assert(step_ok(player, from, to));
        assert(from.0.wf() && from.1 < 60);
        from.0.lemma_best_score(from.1);
        to.0.lemma_best_score(to.1);
        from.0.lemma_step_within_bound(
            player,
            from.1,
            to.1,
            from.0.spec_best_score(from.1),
            to.0.spec_best_score(to.1),
        );
    }
}

/// A penguin that goes on from `cur` to `cell` is, of the penguins `all`
/// with the one from `start` gone on a walk, the one that now stands on
/// `cell`.
proof fn lemma_walk_step(all: Set<u8>, start: u8, cur: u8, cell: u8)
    requires
        cur == start || !all.contains(cur),
    ensures
        all.remove(start).insert(cur).remove(cur).insert(cell) == all.remove(start).insert(cell),
{
    assert(all.remove(start).insert(cur).remove(cur).insert(cell) =~= all.remove(start).insert(
        cell,
    ));
}

/// The fish lie on every board of a walk as on its first.
proof fn lemma_trail_fish(player: Player, trail: Seq<(Board, u8, usize)>, i: int)
    requires
        trail_ok(player, trail),
        0 <= i < trail.len(),
    ensures
        trail[i].0.fish == trail[0].0.fish,
    decreases i,
{
    if i > 0 {
        lemma_trail_fish(player, trail, i - 1);
        assert(step_ok(player, trail[i - 1], trail[i]));
    }
}

} // verus!
