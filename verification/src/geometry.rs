//! The geometry of the board: how cells are numbered, which cells lie next
//! to each other, and which cells lie on the six rays that leave a cell.

use vstd::prelude::*;
use crate::bits::{bit, has_cell};
use crate::hex::{dir_dx, dir_dz, hex_step, line_dir, EvenR};

verus! {

/// The row of cell `idx`.
pub open spec fn cell_row(idx: int) -> int {
    2 * (idx / 15) + if idx % 15 >= 7 {
        1int
    } else {
        0int
    }
}

/// The column of cell `idx`.
pub open spec fn cell_col(idx: int) -> int {
    if idx % 15 >= 7 {
        idx % 15 - 7
    } else {
        idx % 15
    }
}

/// The number of cells in row `row`.
pub open spec fn row_len(row: int) -> int {
    if row % 2 == 0 {
        7
    } else {
        8
    }
}

/// The index of the cell in column `col` of row `row`.
pub open spec fn cell_index(col: int, row: int) -> int {
    15 * (row / 2) + if row % 2 == 1 {
        7int
    } else {
        0int
    } + col
}

/// Column `col` of row `row` is a cell of the board.
pub open spec fn on_board(col: int, row: int) -> bool {
    0 <= row < 8 && 0 <= col < row_len(row)
}

/// The cell `idx`, in offset coordinates.
pub open spec fn cell_hex(idx: u8) -> EvenR {
    EvenR { col: cell_col(idx as int) as i64, row: cell_row(idx as int) as i64 }
}

/// Index and offset coordinates of the cells of the board are inverse to
/// each other.
pub proof fn lemma_index_round_trip(idx: int)
    requires
        0 <= idx < 60,
    ensures
        on_board(cell_col(idx), cell_row(idx)),
        cell_index(cell_col(idx), cell_row(idx)) == idx,
{
}

/// The coordinates of the index of a cell on the board are those of the
/// cell.
pub proof fn lemma_hex_round_trip(col: int, row: int)
    requires
        on_board(col, row),
    ensures
        0 <= cell_index(col, row) < 60,
        cell_col(cell_index(col, row)) == col,
        cell_row(cell_index(col, row)) == row,
{
}


/// The change of the index on one step in direction `dir`, while the step
/// stays on the board.
pub open spec fn dir_delta(dir: int) -> int {
    if dir == 0 {
        1
    } else if dir == 1 {
        -7
    } else if dir == 2 {
        -8
    } else if dir == 3 {
        -1
    } else if dir == 4 {
        7
    } else {
        8
    }
}

/// The cell `k` steps from cell `src` in direction `dir` is a cell of the
/// board.
pub open spec fn step_on_board(src: int, dir: int, k: int) -> bool {
    on_board(
        hex_step(cell_col(src), cell_row(src), dir, k).0,
        hex_step(cell_col(src), cell_row(src), dir, k).1,
    )
}

/// The index of the cell `k` steps from cell `src` in direction `dir`.
pub open spec fn step_index(src: int, dir: int, k: int) -> int {
    cell_index(
        hex_step(cell_col(src), cell_row(src), dir, k).0,
        hex_step(cell_col(src), cell_row(src), dir, k).1,
    )
}

/// The first `k` steps from cell `src` in direction `dir` all stay on the
/// board.
pub open spec fn ray_on_board(src: int, dir: int, k: int) -> bool {
    forall|j: int| 1 <= j <= k ==> #[trigger] step_on_board(src, dir, j)
}

/// Cell `b` lies next to cell `a`.
pub open spec fn adjacent(a: int, b: int) -> bool {
    exists|dir: int| 0 <= dir < 6 && #[trigger] step_on_board(a, dir, 1) && step_index(a, dir, 1) == b
}

/// One step on the board changes the index by the amount of its direction.
pub proof fn lemma_step_delta(col: int, row: int, dir: int)
    requires
        on_board(col, row),
        0 <= dir < 6,
        on_board(hex_step(col, row, dir, 1).0, hex_step(col, row, dir, 1).1),
    ensures
        cell_index(hex_step(col, row, dir, 1).0, hex_step(col, row, dir, 1).1) == cell_index(
            col,
            row,
        ) + dir_delta(dir),
{
}

/// Steps add up: `k` steps are `k - 1` steps and one more.
pub proof fn lemma_step_compose(col: int, row: int, dir: int, k: int)
    requires
        0 <= dir < 6,
    ensures
        hex_step(col, row, dir, k) == hex_step(
            hex_step(col, row, dir, k - 1).0,
            hex_step(col, row, dir, k - 1).1,
            dir,
            1,
        ),
{
    if dir == 0 {
    } else if dir == 1 {
    } else if dir == 2 {
    } else if dir == 3 {
    } else if dir == 4 {
    } else {
    }
}

/// Along a ray that stays on the board, the index changes by the same
/// amount on every step.
pub proof fn lemma_ray_index(src: int, dir: int, k: int)
    requires
        0 <= src < 60,
        0 <= dir < 6,
        0 <= k,
        ray_on_board(src, dir, k),
    ensures
        step_index(src, dir, k) == src + k * dir_delta(dir),
        0 <= src + k * dir_delta(dir) < 60,
        k <= 59,
    decreases k,
{
    let col = cell_col(src);
    let row = cell_row(src);
    lemma_index_round_trip(src);
    if k == 0 {
        assert(0 * dir_dx(dir) == 0 && 0 * dir_dz(dir) == 0);
        assert(hex_step(col, row, dir, 0) == (col, row));
    } else {
        assert(ray_on_board(src, dir, k - 1)) by {
            assert forall|j: int| 1 <= j <= k - 1 implies #[trigger] step_on_board(src, dir, j) by {
                assert(step_on_board(src, dir, j));
            }
        }
        lemma_ray_index(src, dir, k - 1);
        let prev = hex_step(col, row, dir, k - 1);
        assert(on_board(prev.0, prev.1)) by {
            if k - 1 >= 1 {
                assert(step_on_board(src, dir, k - 1));
            } else {
                assert(0 * dir_dx(dir) == 0 && 0 * dir_dz(dir) == 0);
                assert(prev == (col, row));
            }
        }
        lemma_step_compose(col, row, dir, k);
        assert(step_on_board(src, dir, k));
        lemma_step_delta(prev.0, prev.1, dir);
        lemma_hex_round_trip(
            hex_step(col, row, dir, k).0,
            hex_step(col, row, dir, k).1,
        );
        assert(k * dir_delta(dir) == (k - 1) * dir_delta(dir) + dir_delta(dir))
            by (nonlinear_arith);
        assert(k <= 59) by {
            let d = dir_delta(dir);
            assert(0 <= src + k * d < 60);
            if d >= 1 {
                assert(k * d >= k) by (nonlinear_arith)
                    requires
                        d >= 1,
                        k >= 0,
                ;
            } else {
                assert(k * d <= -k) by (nonlinear_arith)
                    requires
                        d <= -1,
                        k >= 0,
                ;
            }
        }
    }
}

/// Whether the index grows along direction `dir`.
pub open spec fn is_forward(dir: int) -> bool {
    dir == 0 || dir == 4 || dir == 5
}

/// Along a ray that stays on the board, the index grows in the forward
/// directions and shrinks in the others.
pub proof fn lemma_ray_monotone(src: int, dir: int, i: int, j: int)
    requires
        0 <= src < 60,
        0 <= dir < 6,
        0 <= i < j,
        ray_on_board(src, dir, j),
    ensures
        0 <= step_index(src, dir, i) < 60,
        0 <= step_index(src, dir, j) < 60,
        is_forward(dir) ==> step_index(src, dir, i) < step_index(src, dir, j),
        !is_forward(dir) ==> step_index(src, dir, i) > step_index(src, dir, j),
{
    assert(ray_on_board(src, dir, i)) by {
        assert forall|n: int| 1 <= n <= i implies #[trigger] step_on_board(src, dir, n) by {
            assert(step_on_board(src, dir, n));
        }
    }
    lemma_ray_index(src, dir, i);
    lemma_ray_index(src, dir, j);
    let d = dir_delta(dir);
    if is_forward(dir) {
        assert(i * d < j * d) by (nonlinear_arith)
            requires
                d >= 1,
                i < j,
        ;
    } else {
        assert(i * d > j * d) by (nonlinear_arith)
            requires
                d <= -1,
                i < j,
        ;
    }
}

/// Every one of the first `k` steps from `src` in direction `dir` stays on
/// the board and comes to a cell that is not in `occ`.
pub open spec fn reaches(occ: Set<u8>, src: int, dir: int, k: int) -> bool {
    forall|j: int|
        1 <= j <= k ==> #[trigger] step_on_board(src, dir, j) && !occ.contains(
            step_index(src, dir, j) as u8,
        )
}

/// The cells to which a straight walk from `src` in direction `dir` can
/// come without leaving the board or touching a cell of `occ`.
pub open spec fn destinations_in_dir(occ: Set<u8>, src: int, dir: int) -> Set<u8> {
    Set::new(
        |c: u8|
            exists|k: int|
                1 <= k && #[trigger] reaches(occ, src, dir, k) && step_index(src, dir, k) == c,
    )
}

/// The cells to which a straight walk from `src` can come, in any of the six
/// directions, without leaving the board or touching a cell of `occ`: what a
/// cell-by-cell scan of the six lines finds.
pub open spec fn destinations(occ: Set<u8>, src: int) -> Set<u8> {
    Set::new(
        |c: u8|
            exists|dir: int| 0 <= dir < 6 && #[trigger] destinations_in_dir(occ, src, dir).contains(c),
    )
}

/// The cells that lie within `m` steps of `src` in direction `dir`.
pub open spec fn on_ray(src: int, dir: int, m: int, c: u8) -> bool {
    exists|j: int| 1 <= j <= m && #[trigger] step_index(src, dir, j) == c
}

/// The neighbours of `c` in the first `n` directions, in order, as far as
/// they are on the board.
pub open spec fn neighbor_seq(c: int, n: int) -> Seq<u8>
    decreases n,
{
    if n <= 0 {
        Seq::empty()
    } else if step_on_board(c, n - 1, 1) {
        neighbor_seq(c, n - 1).push(step_index(c, n - 1, 1) as u8)
    } else {
        neighbor_seq(c, n - 1)
    }
}

/// The neighbours in the first `n` directions are at most `n` cells of the
/// board: those one step away in one of these directions.
pub proof fn lemma_neighbor_seq(c: int, n: int)
    requires
        0 <= c < 60,
        0 <= n <= 6,
    ensures
        neighbor_seq(c, n).len() <= n,
        forall|i: int| 0 <= i < neighbor_seq(c, n).len() ==> #[trigger] neighbor_seq(c, n)[i] < 60,
        forall|x: u8|
            neighbor_seq(c, n).contains(x) <==> exists|dir: int|
                0 <= dir < n && #[trigger] step_on_board(c, dir, 1) && step_index(c, dir, 1) == x,
    decreases n,
{
    if n > 0 {
        lemma_neighbor_seq(c, n - 1);
        let rest = neighbor_seq(c, n - 1);
        let all = neighbor_seq(c, n);
        if step_on_board(c, n - 1, 1) {
            let y = step_index(c, n - 1, 1) as u8;
            lemma_hex_round_trip(
                hex_step(cell_col(c), cell_row(c), n - 1, 1).0,
                hex_step(cell_col(c), cell_row(c), n - 1, 1).1,
            );
            assert forall|x: u8| all.contains(x) <==> exists|dir: int|
                0 <= dir < n && #[trigger] step_on_board(c, dir, 1) && step_index(c, dir, 1)
                    == x by {
                if all.contains(x) {
                    let i = choose|i: int| 0 <= i < all.len() && all[i] == x;
                    if i < rest.len() {
                        assert(rest.contains(x));
                    } else {
                        assert(step_on_board(c, n - 1, 1) && step_index(c, n - 1, 1) == x);
                    }
                }
                if exists|dir: int|
                    0 <= dir < n && #[trigger] step_on_board(c, dir, 1) && step_index(c, dir, 1)
                        == x {
                    let dir = choose|dir: int|
                        0 <= dir < n && #[trigger] step_on_board(c, dir, 1) && step_index(
                            c,
                            dir,
                            1,
                        ) == x;
                    if dir < n - 1 {
                        assert(rest.contains(x));
                        let i = choose|i: int| 0 <= i < rest.len() && rest[i] == x;
                        assert(all[i] == x);
                    } else {
                        assert(all[rest.len() as int] == x);
                    }
                }
            }
        } else {
            assert forall|x: u8| all.contains(x) <==> exists|dir: int|
                0 <= dir < n && #[trigger] step_on_board(c, dir, 1) && step_index(c, dir, 1)
                    == x by {
                if exists|dir: int|
                    0 <= dir < n && #[trigger] step_on_board(c, dir, 1) && step_index(c, dir, 1)
                        == x {
                    let dir = choose|dir: int|
                        0 <= dir < n && #[trigger] step_on_board(c, dir, 1) && step_index(
                            c,
                            dir,
                            1,
                        ) == x;
                    assert(dir < n - 1);
                }
            }
        }
    }
}

/// The neighbours of a cell are the cells next to it.
pub proof fn lemma_neighbors_adjacent(c: int)
    requires
        0 <= c < 60,
    ensures
        forall|x: u8| neighbor_seq(c, 6).contains(x) <==> adjacent(c, x as int),
        forall|x: u8| adjacent(c, x as int) ==> x < 60,
{
    lemma_neighbor_seq(c, 6);
    assert forall|x: u8| adjacent(c, x as int) implies x < 60 by {
        let dir = choose|dir: int|
            0 <= dir < 6 && #[trigger] step_on_board(c, dir, 1) && step_index(c, dir, 1) == x;
        lemma_hex_round_trip(
            hex_step(cell_col(c), cell_row(c), dir, 1).0,
            hex_step(cell_col(c), cell_row(c), dir, 1).1,
        );
    }
}

/// The neighbour of `c` in direction `dir` is on the board and not in `occ`.
pub open spec fn open_neighbor(occ: Set<u8>, c: int, dir: int) -> bool {
    step_on_board(c, dir, 1) && !occ.contains(step_index(c, dir, 1) as u8)
}

/// Some neighbour of `c` is on the board and not in `occ`.
pub open spec fn has_open_neighbor(occ: Set<u8>, c: int) -> bool {
    exists|dir: int| 0 <= dir < 6 && #[trigger] open_neighbor(occ, c, dir)
}

/// Going round the first `n` neighbours of `c`: how often an open neighbour
/// was followed by one that is claimed or off the board, and whether the
/// last one seen was open.
pub open spec fn crossings(occ: Set<u8>, c: int, n: int) -> (int, bool)
    decreases n,
{
    if n <= 0 {
        (0, false)
    } else {
        let before = crossings(occ, c, n - 1);
        if open_neighbor(occ, c, n - 1) {
            (before.0, true)
        } else if before.1 {
            (before.0 + 1, false)
        } else {
            (before.0, false)
        }
    }
}

/// Looking at more neighbours never lowers the count of crossings.
pub proof fn lemma_crossings_grow(occ: Set<u8>, c: int, n: int, m: int)
    requires
        0 <= n <= m,
    ensures
        0 <= crossings(occ, c, n).0 <= crossings(occ, c, m).0,
    decreases m,
{
    if n < m {
        lemma_crossings_grow(occ, c, n, m - 1);
    } else if n > 0 {
        lemma_crossings_grow(occ, c, n - 1, n - 1);
    }
}

/// A cell has an open neighbour exactly when a walk from it can come
/// somewhere.
pub proof fn lemma_open_neighbor_moves(occ: Set<u8>, c: int)
    requires
        0 <= c < 60,
    ensures
        has_open_neighbor(occ, c) <==> destinations(occ, c) != Set::<u8>::empty(),
{
    if has_open_neighbor(occ, c) {
        let dir = choose|dir: int| 0 <= dir < 6 && #[trigger] open_neighbor(occ, c, dir);
        assert(reaches(occ, c, dir, 1));
        let x = step_index(c, dir, 1) as u8;
        lemma_hex_round_trip(
            hex_step(cell_col(c), cell_row(c), dir, 1).0,
            hex_step(cell_col(c), cell_row(c), dir, 1).1,
        );
        assert(destinations_in_dir(occ, c, dir).contains(x));
        assert(destinations(occ, c).contains(x));
    }
    if destinations(occ, c) != Set::<u8>::empty() {
        assert(!(destinations(occ, c) =~= Set::<u8>::empty()));
        let x = choose|x: u8| destinations(occ, c).contains(x);
        let dir = choose|dir: int|
            0 <= dir < 6 && #[trigger] destinations_in_dir(occ, c, dir).contains(x);
        let k = choose|k: int|
            1 <= k && #[trigger] reaches(occ, c, dir, k) && step_index(c, dir, k) == x;
        assert(step_on_board(c, dir, 1));
        assert(open_neighbor(occ, c, dir));
    }
}

/// The number of steps between two cells on one straight line.
pub open spec fn line_len(src: EvenR, dst: EvenR) -> int {
    let dx = dst.cube().0 - src.cube().0;
    let dz = dst.cube().2 - src.cube().2;
    if dx != 0 {
        if dx > 0 {
            dx
        } else {
            -dx
        }
    } else if dz > 0 {
        dz
    } else {
        -dz
    }
}

/// Column `hex.0` of row `hex.1` is a cell of the board and not in `occ`.
pub open spec fn open_hex(occ: Set<u8>, hex: (int, int)) -> bool {
    on_board(hex.0, hex.1) && !occ.contains(cell_index(hex.0, hex.1) as u8)
}

/// The straight line from `src` to `dst` exists and is unobstructed: the
/// two are distinct cells on one line of the grid, and every cell after
/// `src` up to and including `dst` is on the board and not in `occ`.
pub open spec fn clear_line(occ: Set<u8>, src: EvenR, dst: EvenR) -> bool {
    &&& src != dst
    &&& src.spec_in_line(dst)
    &&& forall|j: int|
        1 <= j <= line_len(src, dst) ==> open_hex(
            occ,
            #[trigger] hex_step(src.col as int, src.row as int, line_dir(src, dst), j),
        )
}

/// The line from `src` towards `dst` comes to `dst` after as many steps as
/// the two are apart, and not before.
pub proof fn lemma_line_ends(src: EvenR, dst: EvenR, k: int)
    requires
        src != dst,
        src.spec_in_line(dst),
    ensures
        0 <= line_dir(src, dst) < 6,
        1 <= line_len(src, dst),
        hex_step(src.col as int, src.row as int, line_dir(src, dst), line_len(src, dst)) == (
            dst.col as int,
            dst.row as int,
        ),
        hex_step(src.col as int, src.row as int, line_dir(src, dst), k) == (
            dst.col as int,
            dst.row as int,
        ) ==> k == line_len(src, dst),
{
    let d = line_dir(src, dst);
    let n = line_len(src, dst);
    if d == 0 {
        assert(n * dir_dx(d) == n && k * dir_dx(d) == k);
        assert(n * dir_dz(d) == 0 && k * dir_dz(d) == 0);
    } else if d == 1 {
        assert(n * dir_dx(d) == n && k * dir_dx(d) == k);
        assert(n * dir_dz(d) == -n && k * dir_dz(d) == -k);
    } else if d == 2 {
        assert(n * dir_dx(d) == 0 && k * dir_dx(d) == 0);
        assert(n * dir_dz(d) == -n && k * dir_dz(d) == -k);
    } else if d == 3 {
        assert(n * dir_dx(d) == -n && k * dir_dx(d) == -k);
        assert(n * dir_dz(d) == 0 && k * dir_dz(d) == 0);
    } else if d == 4 {
        assert(n * dir_dx(d) == -n && k * dir_dx(d) == -k);
        assert(n * dir_dz(d) == n && k * dir_dz(d) == k);
    } else {
        assert(n * dir_dx(d) == 0 && k * dir_dx(d) == 0);
        assert(n * dir_dz(d) == n && k * dir_dz(d) == k);
    }
}

/// A cell `k` steps away in direction `dir` lies on one line with the
/// start, in that direction and at that distance.
pub proof fn lemma_step_line(src: EvenR, dst: EvenR, dir: int, k: int)
    requires
        0 <= dir < 6,
        1 <= k,
        hex_step(src.col as int, src.row as int, dir, k) == (dst.col as int, dst.row as int),
    ensures
        src != dst,
        src.spec_in_line(dst),
        line_dir(src, dst) == dir,
        line_len(src, dst) == k,
{
    if dir == 0 {
        assert(k * dir_dx(dir) == k && k * dir_dz(dir) == 0);
    } else if dir == 1 {
        assert(k * dir_dx(dir) == k && k * dir_dz(dir) == -k);
    } else if dir == 2 {
        assert(k * dir_dx(dir) == 0 && k * dir_dz(dir) == -k);
    } else if dir == 3 {
        assert(k * dir_dx(dir) == -k && k * dir_dz(dir) == 0);
    } else if dir == 4 {
        assert(k * dir_dx(dir) == -k && k * dir_dz(dir) == k);
    } else {
        assert(k * dir_dx(dir) == 0 && k * dir_dz(dir) == k);
    }
}

/// A walk from `src` can come to `dst` exactly when `dst` is unclaimed and
/// the straight line from `src` to `dst` is unobstructed: scanning the six
/// lines from a cell and testing the line to a given cell agree.
pub proof fn lemma_destination_clear(occ: Set<u8>, src: u8, dst: u8)
    requires
        src < 60,
    ensures
        destinations(occ, src as int).contains(dst) <==> dst < 60 && !occ.contains(dst)
            && clear_line(occ, cell_hex(src), cell_hex(dst)),
{
    let s = cell_hex(src);
    let d = cell_hex(dst);
    lemma_index_round_trip(src as int);
    if destinations(occ, src as int).contains(dst) {
        lemma_destinations_on_board(occ, src as int);
        let dir = choose|dir: int|
            0 <= dir < 6 && #[trigger] destinations_in_dir(occ, src as int, dir).contains(dst);
        let k = choose|k: int|
            1 <= k && #[trigger] reaches(occ, src as int, dir, k) && step_index(
                src as int,
                dir,
                k,
            ) == dst;
        assert(step_on_board(src as int, dir, k));
        let h = hex_step(s.col as int, s.row as int, dir, k);
        lemma_hex_round_trip(h.0, h.1);
        lemma_step_line(s, d, dir, k);
        assert forall|j: int| 1 <= j <= line_len(s, d) implies open_hex(
            occ,
            #[trigger] hex_step(s.col as int, s.row as int, line_dir(s, d), j),
        ) by {
            assert(step_on_board(src as int, dir, j));
        }
    }
    if dst < 60 && !occ.contains(dst) && clear_line(occ, s, d) {
        lemma_index_round_trip(dst as int);
        lemma_line_ends(s, d, 0);
        let dir = line_dir(s, d);
        let n = line_len(s, d);
        assert forall|j: int| 1 <= j <= n implies #[trigger] step_on_board(src as int, dir, j)
            && !occ.contains(step_index(src as int, dir, j) as u8) by {
            assert(open_hex(occ, hex_step(s.col as int, s.row as int, dir, j)));
        }
        assert(reaches(occ, src as int, dir, n));
        assert(step_index(src as int, dir, n) == dst);
        assert(destinations_in_dir(occ, src as int, dir).contains(dst));
    }
}

/// A walk comes only to cells of the board, and never back to its start.
pub proof fn lemma_destinations_on_board(occ: Set<u8>, src: int)
    requires
        0 <= src < 60,
    ensures
        forall|c: u8| destinations(occ, src).contains(c) ==> c < 60 && c != src,
{
    assert forall|c: u8| destinations(occ, src).contains(c) implies c < 60 && c != src by {
        let dir = choose|dir: int|
            0 <= dir < 6 && #[trigger] destinations_in_dir(occ, src, dir).contains(c);
        let k = choose|k: int|
            1 <= k && #[trigger] reaches(occ, src, dir, k) && step_index(src, dir, k) == c;
        assert(ray_on_board(src, dir, k)) by {
            assert forall|n: int| 1 <= n <= k implies #[trigger] step_on_board(src, dir, n) by {
                assert(step_on_board(src, dir, n));
            }
        }
        lemma_ray_monotone(src, dir, 0, k);
        lemma_ray_index(src, dir, 0);
    }
}

/// The ray from `src` in direction `dir`, clipped before the first cell of
/// `occ` on it, holds the cells to which a walk in that direction can come.
///
/// `ray` holds the `m` cells of the ray up to the edge of the board,
/// `occ_word` the cells of `occ`. Where a cell of the ray is in `occ`,
/// `first` is the one that a walk from `src` meets first: the lowest in a
/// forward direction, the highest in the others.
pub proof fn lemma_clipped_ray(
    occ: Set<u8>,
    occ_word: u64,
    src: int,
    dir: int,
    m: int,
    ray: u64,
    clipped: u64,
    blocked: bool,
    first: u64,
)
    requires
        0 <= src < 60,
        0 <= dir < 6,
        0 <= m,
        ray_on_board(src, dir, m),
        !step_on_board(src, dir, m + 1),
        forall|c: u8| has_cell(ray, c) <==> on_ray(src, dir, m, c),
        forall|c: u8| c < 64 ==> (has_cell(occ_word, c) <==> occ.contains(c)),
        blocked ==> first < 64 && bit(ray, first) && bit(occ_word, first),
        blocked && is_forward(dir) ==> forall|j: u64|
            j < first ==> !(bit(ray, j) && bit(occ_word, j)),
        blocked && !is_forward(dir) ==> forall|j: u64|
            first < j < 64 ==> !(bit(ray, j) && bit(occ_word, j)),
        !blocked ==> forall|j: u64| j < 64 ==> !(bit(ray, j) && bit(occ_word, j)),
        forall|c: u8|
            has_cell(clipped, c) <==> has_cell(ray, c) && (blocked ==> if is_forward(dir) {
                c < first
            } else {
                c > first
            }),
    ensures
        forall|c: u8| has_cell(clipped, c) <==> destinations_in_dir(occ, src, dir).contains(c),
{
    assert forall|c: u8| has_cell(clipped, c) implies destinations_in_dir(
        occ,
        src,
        dir,
    ).contains(c) by {
        assert(on_ray(src, dir, m, c));
        let j = choose|j: int| 1 <= j <= m && #[trigger] step_index(src, dir, j) == c;
        assert(ray_on_board(src, dir, j)) by {
            assert forall|n: int| 1 <= n <= j implies #[trigger] step_on_board(src, dir, n) by {
                assert(step_on_board(src, dir, n));
            }
        }
        assert forall|i: int| 1 <= i <= j implies #[trigger] step_on_board(src, dir, i)
            && !occ.contains(step_index(src, dir, i) as u8) by {
            assert(step_on_board(src, dir, i));
            let ci = step_index(src, dir, i);
            if i < j {
                lemma_ray_monotone(src, dir, i, j);
            } else {
                lemma_ray_monotone(src, dir, 0, j);
            }
            let cu = ci as u8;
            assert(step_index(src, dir, i) == cu);
            assert(on_ray(src, dir, m, cu));
            assert(has_cell(ray, cu));
            if occ.contains(cu) {
                assert(has_cell(occ_word, cu));
            }
        }
        assert(reaches(occ, src, dir, j));
    }
    assert forall|c: u8| destinations_in_dir(occ, src, dir).contains(c) implies has_cell(clipped, c) by {
        let k = choose|k: int|
            1 <= k && #[trigger] reaches(occ, src, dir, k) && step_index(src, dir, k) == c;
        if k > m {
            assert(step_on_board(src, dir, m + 1));
        }
        assert(on_ray(src, dir, m, c));
        assert(ray_on_board(src, dir, k)) by {
            assert forall|n: int| 1 <= n <= k implies #[trigger] step_on_board(src, dir, n) by {
                assert(step_on_board(src, dir, n));
            }
        }
        lemma_ray_monotone(src, dir, 0, k);
        if blocked {
            let fu = first as u8;
            assert(fu as u64 == first);
            assert(has_cell(ray, fu));
            assert(on_ray(src, dir, m, fu));
            let b = choose|b: int| 1 <= b <= m && #[trigger] step_index(src, dir, b) == fu;
            assert(occ.contains(fu));
            if b <= k {
                assert(step_on_board(src, dir, b));
                assert(false);
            } else {
                assert(ray_on_board(src, dir, b)) by {
                    assert forall|n: int| 1 <= n <= b implies #[trigger] step_on_board(
                        src,
                        dir,
                        n,
                    ) by {
                        assert(step_on_board(src, dir, n));
                    }
                }
                lemma_ray_monotone(src, dir, k, b);
            }
        }
    }
}

} // verus!
