//! The board: where the fish are, which cells each player has claimed, and
//! where each player's penguins stand.

use vstd::prelude::*;
use crate::cellset::CellSet;
use crate::errors::IllegalMoveError;
use arrayvec::ArrayVec;
use rand::rngs::StdRng;
use crate::chance::shuffle;
use crate::bits::{bit, has_cell, lemma_bit_or, lemma_bit_and, lemma_bit_single, lemma_bit_zero};
use crate::bits::{lemma_bit_below, lemma_bit_above, lemma_lowest_bit, lemma_highest_bit};
use crate::fixed::{cells_of, cells_new, cells_push, cells_slice};
use crate::hex::{Cube, EvenR, hex_step, dir_dx, dir_dz, half_up};
use crate::geometry::{cell_hex, cell_index, cell_col, cell_row, on_board, row_len};
use crate::geometry::{neighbor_seq, lemma_neighbor_seq, lemma_hex_round_trip, lemma_index_round_trip};
use crate::geometry::{step_on_board, step_index, ray_on_board, on_ray, lemma_ray_index};
use crate::geometry::{destinations, destinations_in_dir, lemma_clipped_ray};
use crate::geometry::{clear_line, open_hex, line_len, lemma_line_ends};
use crate::hex::line_dir;
use crate::geometry::{open_neighbor, has_open_neighbor, crossings, lemma_crossings_grow};
use crate::NUM_CELLS;
use crate::EVEN_ROW_LEN;
use crate::ODD_ROW_LEN;
use crate::NUM_ROWS;
use crate::NUM_ONE_FISH;
use crate::NUM_TWO_FISH;
use crate::NUM_THREE_FISH;

verus! {

/// Number of players that a board has room for.
pub const NUM_PLAYERS: usize = 2;

/// A player, by seat.
#[derive(Clone, Copy, Debug, Eq, Hash, Ord, PartialEq, PartialOrd, Structural)]
pub struct Player {
    pub id: usize,
}

/// The state of the ice: three sets of cells by the number of fish on them,
/// and for each player the cells claimed and the cells on which a penguin
/// stands.
#[derive(Clone, Copy, Debug, Eq, Hash, Ord, PartialEq, PartialOrd)]
pub struct Board {
    pub penguins: [CellSet; 2],
    pub fish: [CellSet; 3],
    pub claimed: [CellSet; 2],
}

impl Board {
    /// The sets stay within the board, no cell is claimed by both players,
    /// every penguin stands on a cell that its player has claimed, and every
    /// cell holds one, two or three fish.
    pub open spec fn wf(self) -> bool {
        &&& forall|k: int| 0 <= k < 3 ==> (#[trigger] self.fish[k]).wf()
        &&& forall|p: int| 0 <= p < 2 ==> (#[trigger] self.claimed[p]).wf()
        &&& forall|p: int| 0 <= p < 2 ==> (#[trigger] self.penguins[p]).wf()
        &&& self.claimed[0]@.disjoint(self.claimed[1]@)
        &&& forall|p: int| 0 <= p < 2 ==> (#[trigger] self.penguins[p])@.subset_of(self.claimed[p]@)
        &&& self.fish[0]@.disjoint(self.fish[1]@)
        &&& self.fish[0]@.disjoint(self.fish[2]@)
        &&& self.fish[1]@.disjoint(self.fish[2]@)
        &&& forall|c: u8| (c as nat) < NUM_CELLS ==> self.spec_num_fish(c) >= 1
    }

    /// The cells that either player has claimed.
    pub open spec fn occupied(self) -> Set<u8> {
        self.claimed[0]@.union(self.claimed[1]@)
    }

    /// The number of fish on cell `idx`; zero where no fish set holds it.
    pub open spec fn spec_num_fish(self, idx: u8) -> nat {
        if self.fish[0]@.contains(idx) {
            1
        } else if self.fish[1]@.contains(idx) {
            2
        } else if self.fish[2]@.contains(idx) {
            3
        } else {
            0
        }
    }

    /// The points that `p` has: for each claimed cell, the fish on it.
    pub open spec fn spec_score(self, p: int) -> nat {
        self.claimed[p]@.intersect(self.fish[0]@).len() + 2 * self.claimed[p]@.intersect(
            self.fish[1]@,
        ).len() + 3 * self.claimed[p]@.intersect(self.fish[2]@).len()
    }

    /// A board with no claims and no penguins, on which thirty cells picked
    /// at random hold one fish, twenty hold two and ten hold three.
    pub fn new(rng: &mut StdRng) -> (b: Board)
        ensures
            b.wf(),
            b.occupied() == Set::<u8>::empty(),
            forall|p: int| 0 <= p < 2 ==> (#[trigger] b.penguins[p])@ == Set::<u8>::empty(),
            forall|p: int| 0 <= p < 2 ==> (#[trigger] b.claimed[p])@ == Set::<u8>::empty(),
            b.fish[0]@.len() == NUM_ONE_FISH,
            b.fish[1]@.len() == NUM_TWO_FISH,
            b.fish[2]@.len() == NUM_THREE_FISH,
    {
        let mut cell_to_fish: Vec<usize> = Vec::new();
        let mut size: usize = 0;
        while size < NUM_CELLS
            invariant
                size <= NUM_CELLS,
                cell_to_fish@.len() == size,
                forall|i: int| 0 <= i < size ==> 1 <= #[trigger] cell_to_fish@[i] <= 3,
                forall|i: int|
                    0 <= i < size ==> #[trigger] cell_to_fish@[i] == if i < 30 {
                        1usize
                    } else if i < 50 {
                        2usize
                    } else {
                        3usize
                    },
            decreases NUM_CELLS - size,
        {
            let fish: usize = if size < NUM_ONE_FISH {
                1
            } else if size < NUM_ONE_FISH + NUM_TWO_FISH {
                2
            } else {
                3
            };
            cell_to_fish.push(fish);
            size += 1;
        }
        let ghost sorted = cell_to_fish@;
        shuffle(&mut cell_to_fish, rng);
        proof {
            lemma_same_items(sorted, cell_to_fish@);
            lemma_sorted_counts(sorted);
            lemma_cells_with_count(cell_to_fish@, 1, 60);
            lemma_cells_with_count(cell_to_fish@, 2, 60);
            lemma_cells_with_count(cell_to_fish@, 3, 60);
            assert(cell_to_fish@.take(60) =~= cell_to_fish@);
            assert(sorted.take(60) =~= sorted);
        }
        let b = Board::with_fish(&cell_to_fish);
        proof {
            assert(b.fish[0]@ =~= cells_with(cell_to_fish@, 1, 60));
            assert(b.fish[1]@ =~= cells_with(cell_to_fish@, 2, 60));
            assert(b.fish[2]@ =~= cells_with(cell_to_fish@, 3, 60));
        }
        b
    }

    /// A board with no claims and no penguins, on which cell `c` holds
    /// `cell_to_fish[c]` fish.
    pub fn with_fish(cell_to_fish: &Vec<usize>) -> (b: Board)
        requires
            cell_to_fish@.len() == NUM_CELLS,
            forall|i: int| 0 <= i < NUM_CELLS ==> 1 <= #[trigger] cell_to_fish@[i] <= 3,
        ensures
            b.wf(),
            b.occupied() == Set::<u8>::empty(),
            forall|p: int| 0 <= p < 2 ==> (#[trigger] b.penguins[p])@ == Set::<u8>::empty(),
            forall|p: int| 0 <= p < 2 ==> (#[trigger] b.claimed[p])@ == Set::<u8>::empty(),
            forall|c: u8| (c as nat) < NUM_CELLS ==> b.spec_num_fish(c) == cell_to_fish@[c as int],
            forall|k: int, c: u8|
                0 <= k < 3 ==> (#[trigger] b.fish[k]@.contains(c) <==> c < 60 && cell_to_fish@[c as int]
                    == k + 1),
    {
        let mut one = CellSet::new();
        let mut two = CellSet::new();
        let mut three = CellSet::new();
        let mut i: usize = 0;
        while i < NUM_CELLS
            invariant
                i <= NUM_CELLS,
                cell_to_fish@.len() == NUM_CELLS,
                forall|j: int| 0 <= j < NUM_CELLS ==> 1 <= #[trigger] cell_to_fish@[j] <= 3,
                one.wf() && two.wf() && three.wf(),
                forall|c: u8| one@.contains(c) <==> c < i && cell_to_fish@[c as int] == 1,
                forall|c: u8| two@.contains(c) <==> c < i && cell_to_fish@[c as int] == 2,
                forall|c: u8| three@.contains(c) <==> c < i && cell_to_fish@[c as int] == 3,
            decreases NUM_CELLS - i,
        {
            let fish = cell_to_fish[i];
            if fish == 1 {
                one = one.insert(i as u8);
            } else if fish == 2 {
                two = two.insert(i as u8);
            } else {
                three = three.insert(i as u8);
            }
            i += 1;
        }
        let b = Board {
            fish: [one, two, three],
            penguins: [CellSet::new(), CellSet::new()],
            claimed: [CellSet::new(), CellSet::new()],
        };
        proof {
            assert(b.occupied() =~= Set::<u8>::empty());
            assert forall|c: u8| (c as nat) < NUM_CELLS implies b.spec_num_fish(c)
                == cell_to_fish@[c as int] by {
                assert(1 <= cell_to_fish@[c as int] <= 3);
            }
        }
        b
    }

    /// The number of fish on cell `idx`.
    pub fn num_fish(&self, idx: u8) -> (n: usize)
        requires
            (idx as nat) < NUM_CELLS,
            self.spec_num_fish(idx) >= 1,
        ensures
            n == self.spec_num_fish(idx),
            1 <= n <= 3,
    {
        if self.fish[0].contains(idx) {
            1
        } else if self.fish[1].contains(idx) {
            2
        } else {
            3
        }
    }

    /// The cells that either player has claimed.
    pub fn all_claimed_cells(&self) -> (s: CellSet)
        ensures
            s@ == self.occupied(),
            s == self.claimed[0].union(self.claimed[1]),
            self.wf() ==> s.wf(),
    {
        let mut ret = CellSet::new();
        let mut p: usize = 0;
        while p < 2
            invariant
                p <= 2,
                p == 0 ==> ret == CellSet::new(),
                p == 1 ==> ret == CellSet::new().union(self.claimed[0]),
                p == 2 ==> ret == CellSet::new().union(self.claimed[0]).union(self.claimed[1]),
            decreases 2 - p,
        {
            ret = ret.union(self.claimed[p]);
            p += 1;
        }
        proof {
            crate::cellset::lemma_view_union(CellSet::new(), self.claimed[0]);
            crate::cellset::lemma_view_union(CellSet::new().union(self.claimed[0]), self.claimed[1]);
            crate::cellset::lemma_view_union(self.claimed[0], self.claimed[1]);
            crate::cellset::lemma_view_new();
            assert(ret@ =~= self.occupied());
            crate::cellset::lemma_view_injective(ret, self.claimed[0].union(self.claimed[1]));
        }
        ret
    }

    /// The cells that either player has claimed.
    pub fn claimed_cells(&self) -> (s: CellSet)
        ensures
            s@ == self.occupied(),
            s == self.claimed[0].union(self.claimed[1]),
            self.wf() ==> s.wf(),
    {
        self.all_claimed_cells()
    }

    /// Whether either player has claimed cell `idx`.
    pub fn is_claimed(&self, idx: u8) -> (b: bool)
        requires
            (idx as nat) < NUM_CELLS,
        ensures
            b == self.occupied().contains(idx),
    {
        self.claimed[0].contains(idx) || self.claimed[1].contains(idx)
    }

    /// The points that `p` has.
    pub fn get_score(&self, p: Player) -> (n: usize)
        requires
            p.id < 2,
        ensures
            n == self.spec_score(p.id as int),
            n <= 6 * 64,
    {
        let mut total: usize = 0;
        let mut num_fish: usize = 1;
        while num_fish <= 3
            invariant
                p.id < 2,
                1 <= num_fish <= 4,
                num_fish == 1 ==> total == 0,
                num_fish == 2 ==> total == self.claimed[p.id as int]@.intersect(
                    self.fish[0]@,
                ).len(),
                num_fish == 3 ==> total == self.claimed[p.id as int]@.intersect(
                    self.fish[0]@,
                ).len() + 2 * self.claimed[p.id as int]@.intersect(self.fish[1]@).len(),
                num_fish == 4 ==> total == self.spec_score(p.id as int),
                num_fish == 2 ==> total <= 64,
                num_fish == 3 ==> total <= 192,
                num_fish == 4 ==> total <= 384,
            decreases 4 - num_fish,
        {
            let claimed_with_fish = self.claimed[p.id].intersect(self.fish[num_fish - 1]);
            let count = claimed_with_fish.len();
            total = total + count * num_fish;
            num_fish += 1;
        }
        total
    }

    /// Whether `c` lies within the columns of its row.
    pub fn in_column_bounds(c: &EvenR) -> (b: bool)
        ensures
            b == (0 <= c.col < row_len(c.row as int)),
    {
        if c.col < 0 {
            false
        } else if c.row & 1 == 0 {
            proof {
                let r = c.row;
                assert((r & 1 == 0) == (r % 2 == 0)) by (bit_vector);
            }
            c.col < EVEN_ROW_LEN as i64
        } else {
            proof {
                let r = c.row;
                assert((r & 1 == 0) == (r % 2 == 0)) by (bit_vector);
            }
            c.col < ODD_ROW_LEN as i64
        }
    }

    /// Whether `c` is a cell of the board.
    pub fn in_bounds(c: &EvenR) -> (b: bool)
        ensures
            b == on_board(c.col as int, c.row as int),
    {
        c.row >= 0 && c.row < NUM_ROWS as i64 && Board::in_column_bounds(c)
    }

    /// Index and offset coordinates are inverse to each other: the index of
    /// the coordinates of a cell of the board is the index of that cell.
    pub proof fn lemma_index_evenr_round_trip(idx: u8)
        requires
            (idx as nat) < NUM_CELLS,
        ensures
            on_board(cell_hex(idx).col as int, cell_hex(idx).row as int),
            cell_index(cell_hex(idx).col as int, cell_hex(idx).row as int) == idx,
    {
        lemma_index_round_trip(idx as int);
    }

    /// The index of the cell at `c`.
    pub fn evenr_to_index(c: &EvenR) -> (idx: u8)
        requires
            0 <= c.row,
            0 <= c.col,
            cell_index(c.col as int, c.row as int) <= u8::MAX,
        ensures
            idx == cell_index(c.col as int, c.row as int),
            on_board(c.col as int, c.row as int) ==> (idx as nat) < NUM_CELLS,
    {
        let paired_offset = (EVEN_ROW_LEN + ODD_ROW_LEN) as i64 * (c.row / 2);
        let unpaired_offset = if c.row % 2 == 1 {
            EVEN_ROW_LEN as i64
        } else {
            0
        };
        (paired_offset + unpaired_offset + c.col) as u8
    }

    /// The offset coordinates of cell `idx`.
    pub fn index_to_evenr(idx: u8) -> (hex: EvenR)
        ensures
            hex == cell_hex(idx),
            hex.in_range(),
            (idx as nat) < NUM_CELLS ==> on_board(hex.col as int, hex.row as int),
    {
        let mut rest = idx as i64;
        let mut row: i64 = 0;
        loop
            invariant
                0 <= row,
                0 <= rest,
                rest + cell_index(0, row as int) == idx,
            decreases rest,
        {
            let row_len = if row % 2 == 0 {
                EVEN_ROW_LEN
            } else {
                ODD_ROW_LEN
            } as i64;
            if rest < row_len {
                return EvenR { row, col: rest % row_len };
            } else {
                rest -= row_len;
                row += 1;
            }
        }
    }

    /// The cells next to `c`, in the order of the six directions.
    pub fn neighbors(c: u8) -> (v: ArrayVec<u8, 6>)
        requires
            (c as nat) < NUM_CELLS,
        ensures
            cells_of(v) == neighbor_seq(c as int, 6),
    {
        let hexes = Board::index_to_evenr(c).neighbors();
        let mut v = cells_new();
        let mut dir: usize = 0;
        while dir < 6
            invariant
                dir <= 6,
                (c as nat) < NUM_CELLS,
                cells_of(v) == neighbor_seq(c as int, dir as int),
                forall|d: int|
                    0 <= d < 6 ==> (#[trigger] hexes[d]).col == hex_step(
                        cell_col(c as int),
                        cell_row(c as int),
                        d,
                        1,
                    ).0 && hexes[d].row == hex_step(cell_col(c as int), cell_row(c as int), d, 1).1,
            decreases 6 - dir,
        {
            proof {
                lemma_neighbor_seq(c as int, dir as int);
            }
            let n = hexes[dir];
            if Board::in_bounds(&n) {
                proof {
                    lemma_hex_round_trip(n.col as int, n.row as int);
                }
                let idx = Board::evenr_to_index(&n);
                cells_push(&mut v, idx);
            }
            dir += 1;
        }
        v
    }

    /// The cells on the ray from `src` in direction `dir`, up to the edge of
    /// the board, and how many they are.
    fn ray_mask(src: u8, dir: usize) -> (r: (u64, Ghost<int>))
        requires
            (src as nat) < NUM_CELLS,
            dir < 6,
        ensures
            0 <= r.1@,
            ray_on_board(src as int, dir as int, r.1@),
            !step_on_board(src as int, dir as int, r.1@ + 1),
            forall|c: u8| has_cell(r.0, c) <==> on_ray(src as int, dir as int, r.1@, c),
    {
        let src_hex = Board::index_to_evenr(src);
        let src_cube = Cube::from_evenr(&src_hex);
        let mut mask: u64 = 0;
        let mut cur = src_cube;
        let ghost mut k: int = 0;
        let ghost col = cell_col(src as int);
        let ghost row = cell_row(src as int);
        proof {
            lemma_index_round_trip(src as int);
            assert(0 * dir_dx(dir as int) == 0 && 0 * dir_dz(dir as int) == 0);
            assert forall|c: u8| has_cell(mask, c) <==> on_ray(
                src as int,
                dir as int,
                0,
                c,
            ) by {
                lemma_bit_zero(c as u64);
            }
        }
        loop
            invariant
                (src as nat) < NUM_CELLS,
                dir < 6,
                col == cell_col(src as int),
                row == cell_row(src as int),
                0 <= k <= 59,
                ray_on_board(src as int, dir as int, k),
                cur.x == col - half_up(row) + k * dir_dx(dir as int),
                cur.z == row + k * dir_dz(dir as int),
                cur.on_grid(),
                forall|c: u8| has_cell(mask, c) <==> on_ray(src as int, dir as int, k, c),
            decreases 60 - k,
        {
            proof {
                assert(-59 <= k * dir_dx(dir as int) <= 59 && -59 <= k * dir_dz(dir as int) <= 59)
                    by (nonlinear_arith)
                    requires
                        0 <= k <= 59,
                        -1 <= dir_dx(dir as int) <= 1,
                        -1 <= dir_dz(dir as int) <= 1,
                ;
            }
            let neighbors = cur.neighbors();
            let next = neighbors[dir];
            let next_hex = EvenR::from_cube(&next);
            proof {
                assert((k + 1) * dir_dx(dir as int) == k * dir_dx(dir as int) + dir_dx(dir as int))
                    by (nonlinear_arith);
                assert((k + 1) * dir_dz(dir as int) == k * dir_dz(dir as int) + dir_dz(dir as int))
                    by (nonlinear_arith);
                assert(next_hex.col == hex_step(col, row, dir as int, k + 1).0);
                assert(next_hex.row == hex_step(col, row, dir as int, k + 1).1);
            }
            if !Board::in_bounds(&next_hex) {
                return (mask, Ghost(k));
            }
            proof {
                lemma_hex_round_trip(next_hex.col as int, next_hex.row as int);
            }
            let idx = Board::evenr_to_index(&next_hex);
            let ghost before = mask;
            mask = mask | (1u64 << (idx as u64));
            proof {
                assert(step_on_board(src as int, dir as int, k + 1));
                assert(step_index(src as int, dir as int, k + 1) == idx);
                assert(ray_on_board(src as int, dir as int, k + 1));
                lemma_ray_index(src as int, dir as int, k + 1);
                assert forall|c: u8| has_cell(mask, c) <==> on_ray(
                    src as int,
                    dir as int,
                    k + 1,
                    c,
                ) by {
                    lemma_bit_or(before, 1u64 << (idx as u64), c as u64);
                    lemma_bit_single(idx as u64, c as u64);
                    if on_ray(src as int, dir as int, k + 1, c) {
                        let j = choose|j: int|
                            1 <= j <= k + 1 && #[trigger] step_index(src as int, dir as int, j)
                                == c;
                        if j <= k {
                            assert(on_ray(src as int, dir as int, k, c));
                        }
                    }
                    if has_cell(before, c) {
                        assert(on_ray(src as int, dir as int, k, c));
                        let j = choose|j: int|
                            1 <= j <= k && #[trigger] step_index(src as int, dir as int, j) == c;
                        assert(1 <= j <= k + 1 && step_index(src as int, dir as int, j) == c);
                    }
                }
                k = k + 1;
            }
            cur = next;
        }
    }

    /// The cells to which a penguin on `cell_idx` can move: along each of
    /// the six rays, the cells before the first claimed one.
    pub fn moves(&self, cell_idx: u8) -> (s: CellSet)
        requires
            (cell_idx as nat) < NUM_CELLS,
        ensures
            s@ == destinations(self.occupied(), cell_idx as int),
            s.wf(),
            !s@.contains(cell_idx),
    {
        let mut moves: u64 = 0;
        let occupied = self.claimed[0].data | self.claimed[1].data;
        let ghost occ = self.occupied();
        let ghost src = cell_idx as int;
        proof {
            assert forall|c: u8| c < 64 implies (has_cell(occupied, c) <==> occ.contains(c)) by {
                lemma_bit_or(self.claimed[0].data, self.claimed[1].data, c as u64);
            }
            assert forall|c: u8| !has_cell(moves, c) by {
                lemma_bit_zero(c as u64);
            }
        }
        let mut dir: usize = 0;
        while dir < 6
            invariant
                dir <= 6,
                (cell_idx as nat) < NUM_CELLS,
                src == cell_idx as int,
                occ == self.occupied(),
                forall|c: u8| c < 64 ==> (has_cell(occupied, c) <==> occ.contains(c)),
                forall|c: u8|
                    has_cell(moves, c) <==> exists|d: int|
                        0 <= d < dir && #[trigger] destinations_in_dir(occ, src, d).contains(c),
            decreases 6 - dir,
        {
            let (ray, Ghost(m)) = Board::ray_mask(cell_idx, dir);
            let blockers = ray & occupied;
            let ghost mut first: u64 = 0;
            let clipped = if blockers != 0 {
                if dir == 0 || dir == 4 || dir == 5 {
                    let first_blocker_idx = blockers.trailing_zeros();
                    proof {
                        lemma_lowest_bit(blockers);
                        first = first_blocker_idx as u64;
                        lemma_bit_and(ray, occupied, first);
                        assert forall|j: u64| j < first implies !(bit(ray, j) && bit(
                            occupied,
                            j,
                        )) by {
                            lemma_bit_and(ray, occupied, j);
                        }
                        lemma_bit_below(first, 0);
                    }
                    let mask = (1u64 << first_blocker_idx) - 1;
                    let open = ray & mask;
                    proof {
                        assert forall|c: u8|
                            has_cell(open, c) <==> has_cell(ray, c) && c < first by {
                            lemma_bit_and(ray, mask, c as u64);
                            lemma_bit_below(first, c as u64);
                        }
                    }
                    open
                } else {
                    let first_blocker_idx = 63 - blockers.leading_zeros();
                    proof {
                        lemma_highest_bit(blockers);
                        first = first_blocker_idx as u64;
                        lemma_bit_and(ray, occupied, first);
                        assert forall|j: u64| first < j < 64 implies !(bit(ray, j) && bit(
                            occupied,
                            j,
                        )) by {
                            lemma_bit_and(ray, occupied, j);
                        }
                    }
                    proof {
                        if first < 63 {
                            lemma_bit_above(first, 0);
                        }
                    }
                    let mask = if first_blocker_idx == 63 {
                        0
                    } else {
                        !((1u64 << (first_blocker_idx + 1)) - 1)
                    };
                    let open = ray & mask;
                    proof {
                        assert forall|c: u8|
                            has_cell(open, c) <==> has_cell(ray, c) && c > first by {
                            lemma_bit_and(ray, mask, c as u64);
                            if first == 63 {
                                lemma_bit_zero(c as u64);
                            } else {
                                lemma_bit_above(first, c as u64);
                            }
                        }
                    }
                    open
                }
            } else {
                proof {
                    assert forall|j: u64| j < 64 implies !(bit(ray, j) && bit(occupied, j)) by {
                        lemma_bit_and(ray, occupied, j);
                        lemma_bit_zero(j);
                    }
                }
                ray
            };
            let ghost before = moves;
            moves = moves | clipped;
            proof {
                lemma_clipped_ray(
                    occ,
                    occupied,
                    src,
                    dir as int,
                    m,
                    ray,
                    clipped,
                    blockers != 0,
                    first,
                );
                assert forall|c: u8|
                    has_cell(moves, c) <==> exists|d: int|
                        0 <= d < dir + 1 && #[trigger] destinations_in_dir(occ, src, d).contains(
                            c,
                        ) by {
                    lemma_bit_or(before, clipped, c as u64);
                    if exists|d: int|
                        0 <= d < dir + 1 && #[trigger] destinations_in_dir(occ, src, d).contains(
                            c,
                        ) {
                        let d = choose|d: int|
                            0 <= d < dir + 1 && #[trigger] destinations_in_dir(
                                occ,
                                src,
                                d,
                            ).contains(c);
                        if d < dir {
                            assert(has_cell(before, c));
                        }
                    }
                    if has_cell(before, c) {
                        let d = choose|d: int|
                            0 <= d < dir && #[trigger] destinations_in_dir(occ, src, d).contains(
                                c,
                            );
                        assert(0 <= d < dir + 1 && destinations_in_dir(occ, src, d).contains(c));
                    }
                    if has_cell(clipped, c) {
                        assert(destinations_in_dir(occ, src, dir as int).contains(c));
                    }
                }
            }
            dir += 1;
        }
        let s = CellSet { data: moves };
        proof {
            assert forall|c: u8| s@.contains(c) == destinations(occ, src).contains(c) by {
                assert(s@.contains(c) == has_cell(moves, c));
            }
            assert(s@ =~= destinations(occ, src));
            crate::geometry::lemma_destinations_on_board(occ, src);
        }
        s
    }

    /// Whether cell `cell_idx` may be a cut cell: going round its six
    /// neighbours, an open one is followed at least twice by one that is
    /// claimed or off the board. Only then can a move away from the cell
    /// have split the ice.
    pub fn is_cut_cell(&self, cell_idx: u8) -> (b: bool)
        requires
            (cell_idx as nat) < NUM_CELLS,
        ensures
            b == (crossings(self.occupied(), cell_idx as int, 6).0 >= 2),
    {
        let neighbors = Board::index_to_evenr(cell_idx).neighbors();
        let mut saw_live = false;
        let mut crossed: usize = 0;
        let ghost occ = self.occupied();
        let mut dir: usize = 0;
        while dir < 6
            invariant
                dir <= 6,
                (cell_idx as nat) < NUM_CELLS,
                occ == self.occupied(),
                crossed <= dir,
                crossed < 2,
                (crossed as int, saw_live) == crossings(occ, cell_idx as int, dir as int),
                forall|d: int|
                    0 <= d < 6 ==> (#[trigger] neighbors[d]).col == hex_step(
                        cell_col(cell_idx as int),
                        cell_row(cell_idx as int),
                        d,
                        1,
                    ).0 && neighbors[d].row == hex_step(
                        cell_col(cell_idx as int),
                        cell_row(cell_idx as int),
                        d,
                        1,
                    ).1,
            decreases 6 - dir,
        {
            let neighbor = neighbors[dir];
            let live = if Board::in_bounds(&neighbor) {
                proof {
                    lemma_hex_round_trip(neighbor.col as int, neighbor.row as int);
                }
                !self.is_claimed(Board::evenr_to_index(&neighbor))
            } else {
                false
            };
            assert(live == open_neighbor(occ, cell_idx as int, dir as int));
            if live {
                saw_live = true;
            } else {
                if saw_live {
                    crossed += 1;
                }
                saw_live = false;
            }
            dir += 1;
            if crossed >= 2 {
                proof {
                    lemma_crossings_grow(occ, cell_idx as int, dir as int, 6);
                }
                return true;
            }
        }
        false
    }

    /// Whether a penguin on cell `c` could move: some neighbour of `c` is on
    /// the board and unclaimed.
    pub fn can_move_from(&self, c: u8) -> (b: bool)
        requires
            (c as nat) < NUM_CELLS,
        ensures
            b == has_open_neighbor(self.occupied(), c as int),
    {
        let around = Board::neighbors(c);
        let cells = cells_slice(&around);
        let ghost occ = self.occupied();
        proof {
            lemma_neighbor_seq(c as int, 6);
        }
        let mut i: usize = 0;
        while i < cells.len()
            invariant
                i <= cells.len(),
                (c as nat) < NUM_CELLS,
                occ == self.occupied(),
                cells@ == neighbor_seq(c as int, 6),
                forall|j: int| 0 <= j < cells@.len() ==> #[trigger] cells@[j] < 60,
                forall|j: int| 0 <= j < i ==> occ.contains(#[trigger] cells@[j]),
            decreases cells.len() - i,
        {
            if !self.is_claimed(cells[i]) {
                proof {
                    let x = cells@[i as int];
                    lemma_neighbor_seq(c as int, 6);
                    assert(neighbor_seq(c as int, 6).contains(x));
                    let dir = choose|dir: int|
                        0 <= dir < 6 && #[trigger] step_on_board(c as int, dir, 1) && step_index(
                            c as int,
                            dir,
                            1,
                        ) == x;
                    assert(open_neighbor(occ, c as int, dir));
                }
                return true;
            }
            i += 1;
        }
        proof {
            lemma_neighbor_seq(c as int, 6);
            if has_open_neighbor(occ, c as int) {
                let dir = choose|dir: int|
                    0 <= dir < 6 && #[trigger] open_neighbor(occ, c as int, dir);
                let x = step_index(c as int, dir, 1) as u8;
                lemma_hex_round_trip(
                    hex_step(cell_col(c as int), cell_row(c as int), dir, 1).0,
                    hex_step(cell_col(c as int), cell_row(c as int), dir, 1).1,
                );
                assert(step_on_board(c as int, dir, 1) && step_index(c as int, dir, 1) == x);
                assert(neighbor_seq(c as int, 6).contains(x));
                let j = choose|j: int| 0 <= j < cells@.len() && cells@[j] == x;
                assert(occ.contains(cells@[j]));
            }
        }
        false
    }

    /// The penguins of a set that can still move.
    fn movable(&self, penguins: CellSet) -> (s: CellSet)
        requires
            penguins.wf(),
        ensures
            s@ == penguins@.filter(|c: u8| has_open_neighbor(self.occupied(), c as int)),
            s.wf(),
    {
        let ghost occ = self.occupied();
        let ghost keep = |c: u8| has_open_neighbor(occ, c as int);
        let mut out = CellSet::new();
        let mut it = penguins.iter();
        loop
            invariant
                occ == self.occupied(),
                keep == (|c: u8| has_open_neighbor(occ, c as int)),
                penguins.wf(),
                out.wf(),
                it.wf(),
                it.set() == penguins,
                it.pending().finite(),
                forall|c: u8| out@.contains(c) <==> penguins@.contains(c) && !it.pending().contains(c) && keep(c),
            decreases it.pending().len(),
        {
            let ghost before = it;
            match it.next() {
                Some(p) => {
                    assert(before.pending().contains(p));
                    assert(it.pending().finite());
                    if self.can_move_from(p) {
                        out = out.insert(p);
                    }
                },
                None => {
                    assert(out@ =~= penguins@.filter(keep));
                    return out;
                },
            }
        }
    }

    /// Takes from the board every penguin that can no longer move. The cell
    /// it stood on stays claimed.
    pub fn reap(&mut self)
        requires
            old(self).wf(),
        ensures
            final(self).wf(),
            final(self).fish == old(self).fish,
            final(self).claimed == old(self).claimed,
            forall|p: int|
                0 <= p < 2 ==> (#[trigger] final(self).penguins[p])@ == old(self).penguins[p]@.filter(
                    |c: u8| has_open_neighbor(old(self).occupied(), c as int),
                ),
    {
        let ghost before = *self;
        let first = self.movable(self.penguins[0]);
        let second = self.movable(self.penguins[1]);
        self.penguins = [first, second];
        proof {
            assert forall|c: u8| (c as nat) < NUM_CELLS implies self.spec_num_fish(c) >= 1 by {
                assert(before.spec_num_fish(c) >= 1);
            }
            assert forall|p: int| 0 <= p < 2 implies (#[trigger] self.penguins[p])@.subset_of(
                self.claimed[p]@,
            ) by {
                assert(before.penguins[p]@.subset_of(before.claimed[p]@));
            }
        }
    }

    /// Whether the straight line from `src` to `dst` exists and is
    /// unobstructed. A claim on `src` itself does not obstruct it.
    pub fn is_clear_path(&self, src: &EvenR, dst: &EvenR) -> (b: bool)
        requires
            on_board(src.col as int, src.row as int),
            on_board(dst.col as int, dst.row as int),
        ensures
            b == clear_line(self.occupied(), *src, *dst),
    {
        let ghost occ = self.occupied();
        let ghost dir = line_dir(*src, *dst);
        let ghost n = line_len(*src, *dst);
        if *src == *dst || !src.in_line(dst) {
            return false;
        }
        proof {
            lemma_line_ends(*src, *dst, 0);
            lemma_hex_round_trip(dst.col as int, dst.row as int);
        }
        if self.is_claimed(Board::evenr_to_index(dst)) {
            proof {
                assert(!open_hex(occ, hex_step(src.col as int, src.row as int, dir, n)));
            }
            return false;
        }
        let mut walk = crate::hex::line(src, dst);
        let _ = walk.next();
        let ghost mut k: int = 1;
        proof {
            assert(1 * dir_dx(dir) == dir_dx(dir) && 1 * dir_dz(dir) == dir_dz(dir));
        }
        loop
            invariant
                on_board(src.col as int, src.row as int),
                on_board(dst.col as int, dst.row as int),
                *src != *dst,
                src.spec_in_line(*dst),
                occ == self.occupied(),
                dir == line_dir(*src, *dst),
                n == line_len(*src, *dst),
                0 <= dir < 6,
                walk.wf(),
                walk.dir() == dir,
                1 <= k <= n,
                open_hex(occ, hex_step(src.col as int, src.row as int, dir, n)),
                walk.cursor().x == src.col - half_up(src.row as int) + k * dir_dx(dir),
                walk.cursor().z == src.row + k * dir_dz(dir),
                walk.cursor().y == -(walk.cursor().x + walk.cursor().z),
                forall|j: int|
                    1 <= j < k ==> open_hex(
                        occ,
                        #[trigger] hex_step(src.col as int, src.row as int, dir, j),
                    ),
            decreases n - k,
        {
            proof {
                lemma_line_ends(*src, *dst, k);
                assert(-n <= k * dir_dx(dir) <= n && -n <= k * dir_dz(dir) <= n)
                    by (nonlinear_arith)
                    requires
                        1 <= k <= n,
                        -1 <= dir_dx(dir) <= 1,
                        -1 <= dir_dz(dir) <= 1,
                ;
                assert((k + 1) * dir_dx(dir) == k * dir_dx(dir) + dir_dx(dir))
                    by (nonlinear_arith);
                assert((k + 1) * dir_dz(dir) == k * dir_dz(dir) + dir_dz(dir))
                    by (nonlinear_arith);
            }
            let hex = match walk.next() {
                Some(hex) => hex,
                None => {
                    return vstd::pervasive::unreached();
                },
            };
            assert(hex.col == hex_step(src.col as int, src.row as int, dir, k).0);
            assert(hex.row == hex_step(src.col as int, src.row as int, dir, k).1);
            if hex == *dst {
                return true;
            }
            if !Board::in_bounds(&hex) {
                return false;
            }
            proof {
                lemma_hex_round_trip(hex.col as int, hex.row as int);
            }
            if self.is_claimed(Board::evenr_to_index(&hex)) {
                return false;
            }
            proof {
                k = k + 1;
            }
        }
    }

    /// Whether `p` may move a penguin from `src` to `dst`: a penguin of `p`
    /// stands on `src`, nobody has claimed `dst`, and the straight line from
    /// `src` to `dst` is unobstructed.
    pub fn is_legal_move(&self, p: Player, src: u8, dst: u8) -> (b: bool)
        requires
            p.id < 2,
            (src as nat) < NUM_CELLS,
            (dst as nat) < NUM_CELLS,
        ensures
            b == self.spec_is_legal_move(p, src, dst),
    {
        self.penguins[p.id].contains(src) && !self.is_claimed(dst) && self.is_clear_path(
            &Board::index_to_evenr(src),
            &Board::index_to_evenr(dst),
        )
    }

    /// A penguin of `p` stands on `src`, nobody has claimed `dst`, and the
    /// straight line from `src` to `dst` is unobstructed.
    pub open spec fn spec_is_legal_move(self, p: Player, src: u8, dst: u8) -> bool {
        &&& self.penguins[p.id as int]@.contains(src)
        &&& !self.occupied().contains(dst)
        &&& clear_line(self.occupied(), cell_hex(src), cell_hex(dst))
    }

    /// Claims cell `idx` for `p` and puts a penguin of `p` on it, unless the
    /// cell is claimed already.
    pub fn claim_cell(&mut self, p: Player, idx: u8) -> (r: Result<(), IllegalMoveError>)
        requires
            p.id < 2,
            (idx as nat) < NUM_CELLS,
        ensures
            r is Err <==> old(self).occupied().contains(idx),
            r matches Err(e) ==> *final(self) == *old(self) && e.player == p && e.message@
                == claimed_message(idx),
            r is Ok ==> *final(self) == old(self).after_claim(p, idx),
            old(self).wf() ==> final(self).wf(),
    {
        if self.is_claimed(idx) {
            return Err(IllegalMoveError::new(p, format_claimed(idx)));
        }
        let ghost before = *self;
        let claimed = self.claimed[p.id].insert(idx);
        let penguins = self.penguins[p.id].insert(idx);
        self.claimed[p.id] = claimed;
        self.penguins[p.id] = penguins;
        proof {
            assert(self.claimed =~= before.after_claim(p, idx).claimed);
            assert(self.penguins =~= before.after_claim(p, idx).penguins);
            if before.wf() {
                before.lemma_after_claim_wf(p, idx);
            }
        }
        Ok(())
    }

    /// The board after `p` has claimed cell `idx` and put a penguin on it.
    pub open spec fn after_claim(self, p: Player, idx: u8) -> Board {
        Board {
            penguins: vstd::array::spec_array_update(
                self.penguins,
                p.id as int,
                self.penguins[p.id as int].insert(idx),
            ),
            fish: self.fish,
            claimed: vstd::array::spec_array_update(
                self.claimed,
                p.id as int,
                self.claimed[p.id as int].insert(idx),
            ),
        }
    }

    /// The board after `p` has moved a penguin from `src` to `dst`.
    pub open spec fn after_move(self, p: Player, src: u8, dst: u8) -> Board {
        Board {
            penguins: vstd::array::spec_array_update(
                self.penguins,
                p.id as int,
                self.penguins[p.id as int].remove(src).insert(dst),
            ),
            fish: self.fish,
            claimed: vstd::array::spec_array_update(
                self.claimed,
                p.id as int,
                self.claimed[p.id as int].insert(dst),
            ),
        }
    }

    /// A claim on an unclaimed cell keeps the board in order, and changes the
    /// sets of the claiming player only.
    pub proof fn lemma_after_claim_wf(self, p: Player, idx: u8)
        requires
            self.wf(),
            p.id < 2,
            (idx as nat) < NUM_CELLS,
            !self.occupied().contains(idx),
        ensures
            self.after_claim(p, idx).wf(),
            self.after_claim(p, idx).occupied() == self.occupied().insert(idx),
            self.after_claim(p, idx).claimed[p.id as int]@ == self.claimed[p.id as int]@.insert(
                idx,
            ),
            self.after_claim(p, idx).penguins[p.id as int]@ == self.penguins[p.id as int]@.insert(
                idx,
            ),
            self.after_claim(p, idx).claimed[1 - p.id as int] == self.claimed[1 - p.id as int],
            self.after_claim(p, idx).penguins[1 - p.id as int] == self.penguins[1 - p.id as int],
    {
        let b = self.after_claim(p, idx);
        crate::cellset::lemma_view_insert(self.claimed[p.id as int], idx);
        crate::cellset::lemma_view_insert(self.penguins[p.id as int], idx);
        assert(b.occupied() =~= self.occupied().insert(idx));
        assert forall|c: u8| (c as nat) < NUM_CELLS implies b.spec_num_fish(c) >= 1 by {
            assert(self.spec_num_fish(c) >= 1);
        }
        assert forall|k: int| 0 <= k < 3 implies (#[trigger] b.fish[k]).wf() by {
            assert(self.fish[k].wf());
        }
        assert forall|q: int| 0 <= q < 2 implies (#[trigger] b.claimed[q]).wf() by {
            assert(self.claimed[q].wf());
        }
        assert forall|q: int| 0 <= q < 2 implies (#[trigger] b.penguins[q]).wf() by {
            assert(self.penguins[q].wf());
        }
        assert forall|q: int| 0 <= q < 2 implies (#[trigger] b.penguins[q])@.subset_of(
            b.claimed[q]@,
        ) by {
            assert(self.penguins[q]@.subset_of(self.claimed[q]@));
        }
    }

    /// A move to an unclaimed cell keeps the board in order, and changes the
    /// sets of the moving player only.
    pub proof fn lemma_after_move_wf(self, p: Player, src: u8, dst: u8)
        requires
            self.wf(),
            p.id < 2,
            (src as nat) < NUM_CELLS,
            (dst as nat) < NUM_CELLS,
            !self.occupied().contains(dst),
        ensures
            self.after_move(p, src, dst).wf(),
            self.after_move(p, src, dst).occupied() == self.occupied().insert(dst),
            self.after_move(p, src, dst).claimed[p.id as int]@ == self.claimed[p.id as int]@.insert(
                dst,
            ),
            self.after_move(p, src, dst).penguins[p.id as int]@ == self.penguins[p.id as int]@.remove(
                src,
            ).insert(dst),
            self.after_move(p, src, dst).claimed[1 - p.id as int] == self.claimed[1 - p.id as int],
            self.after_move(p, src, dst).penguins[1 - p.id as int] == self.penguins[1
                - p.id as int],
    {
        let b = self.after_move(p, src, dst);
        crate::cellset::lemma_view_insert(self.claimed[p.id as int], dst);
        crate::cellset::lemma_view_remove(self.penguins[p.id as int], src);
        crate::cellset::lemma_view_insert(self.penguins[p.id as int].remove(src), dst);
        assert(b.occupied() =~= self.occupied().insert(dst));
        assert forall|c: u8| (c as nat) < NUM_CELLS implies b.spec_num_fish(c) >= 1 by {
            assert(self.spec_num_fish(c) >= 1);
        }
        assert forall|k: int| 0 <= k < 3 implies (#[trigger] b.fish[k]).wf() by {
            assert(self.fish[k].wf());
        }
        assert forall|q: int| 0 <= q < 2 implies (#[trigger] b.claimed[q]).wf() by {
            assert(self.claimed[q].wf());
        }
        assert forall|q: int| 0 <= q < 2 implies (#[trigger] b.penguins[q]).wf() by {
            assert(self.penguins[q].wf());
        }
        assert forall|q: int| 0 <= q < 2 implies (#[trigger] b.penguins[q])@.subset_of(
            b.claimed[q]@,
        ) by {
            assert(self.penguins[q]@.subset_of(self.claimed[q]@));
        }
    }

    /// Moves a penguin of `p` from `src` to `dst` and claims `dst` for `p`,
    /// if the move is legal; else the board stays as it is.
    pub fn move_penguin(&mut self, p: Player, src: u8, dst: u8) -> (r: Result<
        &Self,
        IllegalMoveError,
    >)
        requires
            p.id < 2,
            (src as nat) < NUM_CELLS,
            (dst as nat) < NUM_CELLS,
        ensures
            r is Ok <==> old(self).spec_is_legal_move(p, src, dst),
            r matches Err(e) ==> *final(self) == *old(self) && e.player == p && e.message@
                == cannot_move_message(p.id, src, dst),
            r is Ok ==> *final(self) == old(self).after_move(p, src, dst),
            r matches Ok(b) ==> *b == *final(self),
            old(self).wf() ==> final(self).wf(),
    {
        if !self.is_legal_move(p, src, dst) {
            return Err(IllegalMoveError::new(p, format_cannot_move(p.id, src, dst)));
        }
        let ghost before = *self;
        let claimed = self.claimed[p.id].insert(dst);
        let penguins = self.penguins[p.id].remove(src).insert(dst);
        self.claimed[p.id] = claimed;
        self.penguins[p.id] = penguins;
        proof {
            assert(self.claimed =~= before.after_move(p, src, dst).claimed);
            assert(self.penguins =~= before.after_move(p, src, dst).penguins);
            if before.wf() {
                before.lemma_after_move_wf(p, src, dst);
            }
        }
        Ok(self)
    }
}

/// The text of the error for a claim on cell `idx`, which is claimed
/// already.
pub uninterp spec fn claimed_message(idx: u8) -> Seq<char>;

/// The text of the error for a move of player `player` from `src` to `dst`
/// that the rules reject.
pub uninterp spec fn cannot_move_message(player: usize, src: u8, dst: u8) -> Seq<char>;

/// `format!` of std: the sentence that says that cell `idx` is claimed
/// already, with the index written in decimal.
#[verifier::external_body]
fn format_claimed(idx: u8) -> (s: String)
    ensures
        s@ == claimed_message(idx),
{
    format!("Cell at {} already claimed", idx)
}

/// `format!` of std: the sentence that says that the player cannot move a
/// penguin from `src` to `dst`, with the three numbers written in decimal.
#[verifier::external_body]
fn format_cannot_move(player: usize, src: u8, dst: u8) -> (s: String)
    ensures
        s@ == cannot_move_message(player, src, dst),
{
    format!("Player Player {{ id: {} }} cannot move penguin from {} to {}", player, src, dst)
}

/// The cells below `n` on which `fish` has the value `x`.
pub open spec fn cells_with(fish: Seq<usize>, x: usize, n: int) -> Set<u8> {
    Set::new(|c: u8| c < n && c < fish.len() && fish[c as int] == x)
}

/// As many cells have a value as the value occurs among the items.
pub proof fn lemma_cells_with_count(fish: Seq<usize>, x: usize, n: int)
    requires
        0 <= n <= fish.len(),
        n <= 256,
    ensures
        cells_with(fish, x, n).finite(),
        cells_with(fish, x, n).len() == fish.take(n).to_multiset().count(x),
    decreases n,
{
    if n == 0 {
        assert(cells_with(fish, x, 0) =~= Set::<u8>::empty());
        assert(fish.take(0) =~= Seq::<usize>::empty());
        fish.take(0).to_multiset_ensures();
        assert(fish.take(0).to_multiset().len() == 0);
        if fish.take(0).to_multiset().count(x) > 0 {
            assert(fish.take(0).contains(x));
        }
    } else {
        lemma_cells_with_count(fish, x, n - 1);
        let last = fish[n - 1];
        assert(fish.take(n) =~= fish.take(n - 1).push(last));
        vstd::seq_lib::to_multiset_build(fish.take(n - 1), last);
        if last == x {
            assert(cells_with(fish, x, n) =~= cells_with(fish, x, n - 1).insert((n - 1) as u8));
        } else {
            assert(cells_with(fish, x, n) =~= cells_with(fish, x, n - 1));
        }
    }
}

/// Thirty ones, then twenty twos, then ten threes.
proof fn lemma_sorted_counts(sorted: Seq<usize>)
    requires
        sorted.len() == 60,
        forall|i: int|
            0 <= i < 60 ==> #[trigger] sorted[i] == if i < 30 {
                1usize
            } else if i < 50 {
                2usize
            } else {
                3usize
            },
    ensures
        sorted.to_multiset().count(1) == 30,
        sorted.to_multiset().count(2) == 20,
        sorted.to_multiset().count(3) == 10,
{
    lemma_cells_with_count(sorted, 1, 60);
    lemma_cells_with_count(sorted, 2, 60);
    lemma_cells_with_count(sorted, 3, 60);
    assert(sorted.take(60) =~= sorted);
    let low = crate::cellset::cells_below(30);
    let mid = crate::cellset::cells_below(50);
    let all = crate::cellset::cells_below(60);
    crate::cellset::lemma_cells_below_len(30);
    crate::cellset::lemma_cells_below_len(50);
    crate::cellset::lemma_cells_below_len(60);
    assert(cells_with(sorted, 1, 60) =~= low);
    let twos = cells_with(sorted, 2, 60);
    let threes = cells_with(sorted, 3, 60);
    assert(low + twos =~= mid);
    assert(low.disjoint(twos));
    vstd::set_lib::lemma_set_disjoint_lens(low, twos);
    assert(mid + threes =~= all);
    assert(mid.disjoint(threes));
    vstd::set_lib::lemma_set_disjoint_lens(mid, threes);
}

/// Two sequences of the same items are equally long and hold values from
/// the same range.
proof fn lemma_same_items(a: Seq<usize>, b: Seq<usize>)
    requires
        a.to_multiset() == b.to_multiset(),
        forall|i: int| 0 <= i < a.len() ==> 1 <= #[trigger] a[i] <= 3,
    ensures
        a.len() == b.len(),
        forall|i: int| 0 <= i < b.len() ==> 1 <= #[trigger] b[i] <= 3,
{
    a.to_multiset_ensures();
    b.to_multiset_ensures();
    assert forall|i: int| 0 <= i < b.len() implies 1 <= #[trigger] b[i] <= 3 by {
        assert(b.contains(b[i]));
        assert(a.to_multiset().count(b[i]) > 0);
        assert(a.contains(b[i]));
    }
}

} // verus!
