//! Icebergs: the connected regions of unclaimed ice, and what follows from
//! them for a penguin that is alone on one.

use vstd::prelude::*;
use crate::board::Board;
use crate::cellset::{CellSet, is_least, cells_below};
use crate::fixed::cells_slice;
use crate::geometry::{adjacent, cell_col, cell_row, step_index, step_on_board, open_neighbor};
use crate::geometry::{lemma_hex_round_trip, lemma_index_round_trip, lemma_neighbors_adjacent};
use crate::geometry::{neighbor_seq, lemma_neighbor_seq};
use crate::hex::hex_step;
use crate::NUM_CELLS;

verus! {

/// The direction opposite to `dir`.
pub open spec fn opposite(dir: int) -> int {
    if dir < 3 {
        dir + 3
    } else {
        dir - 3
    }
}

/// Lying next to each other goes both ways.
pub proof fn lemma_adjacent_symmetric(a: int, b: int)
    requires
        0 <= a < 60,
        adjacent(a, b),
    ensures
        0 <= b < 60,
        adjacent(b, a),
{
    let dir = choose|dir: int|
        0 <= dir < 6 && #[trigger] step_on_board(a, dir, 1) && step_index(a, dir, 1) == b;
    let col = cell_col(a);
    let row = cell_row(a);
    let to = hex_step(col, row, dir, 1);
    lemma_index_round_trip(a);
    lemma_hex_round_trip(to.0, to.1);
    let back = opposite(dir);
    assert(hex_step(to.0, to.1, back, 1) == (col, row));
    assert(step_on_board(b, back, 1) && step_index(b, back, 1) == a);
}

/// A walk over the ice: every cell is on the board, each lies next to the
/// one before it, and every cell after the first is not in `occ`.
pub open spec fn is_path(occ: Set<u8>, path: Seq<u8>) -> bool {
    &&& path.len() >= 1
    &&& forall|i: int| 0 <= i < path.len() ==> #[trigger] path[i] < 60
    &&& forall|i: int|
        1 <= i < path.len() ==> adjacent(path[i - 1] as int, #[trigger] path[i] as int)
            && !occ.contains(path[i])
}

/// A walk over the ice leads from `a` to `b` without touching a cell of
/// `occ` after `a`.
pub open spec fn connected(occ: Set<u8>, a: u8, b: u8) -> bool {
    exists|path: Seq<u8>| #[trigger] is_path(occ, path) && path[0] == a && path.last() == b
}

/// The iceberg of `start`: the cells to which a walk over the ice leads from
/// `start`.
pub open spec fn iceberg_of(occ: Set<u8>, start: u8) -> Set<u8> {
    Set::new(|c: u8| connected(occ, start, c))
}

/// Every cell is connected to itself.
pub proof fn lemma_connected_self(occ: Set<u8>, a: u8)
    requires
        a < 60,
    ensures
        connected(occ, a, a),
{
    let path = seq![a];
    assert(is_path(occ, path) && path[0] == a && path.last() == a);
}

/// A walk goes on to any unclaimed neighbour of its last cell.
pub proof fn lemma_connected_step(occ: Set<u8>, a: u8, b: u8, c: u8)
    requires
        connected(occ, a, b),
        adjacent(b as int, c as int),
        !occ.contains(c),
    ensures
        connected(occ, a, c),
{
    let path = choose|path: Seq<u8>|
        #[trigger] is_path(occ, path) && path[0] == a && path.last() == b;
    lemma_adjacent_symmetric(b as int, c as int);
    let longer = path.push(c);
    assert forall|i: int| 1 <= i < longer.len() implies adjacent(
        longer[i - 1] as int,
        #[trigger] longer[i] as int,
    ) && !occ.contains(longer[i]) by {
        if i < path.len() {
            assert(longer[i] == path[i]);
            assert(longer[i - 1] == path[i - 1]);
        }
    }
    assert(is_path(occ, longer) && longer[0] == a && longer.last() == c);
}

/// Two walks, one after the other, are a walk.
pub proof fn lemma_connected_trans(occ: Set<u8>, a: u8, b: u8, c: u8)
    requires
        connected(occ, a, b),
        connected(occ, b, c),
    ensures
        connected(occ, a, c),
{
    let first = choose|path: Seq<u8>|
        #[trigger] is_path(occ, path) && path[0] == a && path.last() == b;
    let second = choose|path: Seq<u8>|
        #[trigger] is_path(occ, path) && path[0] == b && path.last() == c;
    lemma_path_append(occ, a, first, second, second.len() as int);
}

proof fn lemma_path_append(occ: Set<u8>, a: u8, first: Seq<u8>, second: Seq<u8>, n: int)
    requires
        is_path(occ, first),
        first[0] == a,
        is_path(occ, second),
        second[0] == first.last(),
        1 <= n <= second.len(),
    ensures
        connected(occ, a, second[n - 1]),
    decreases n,
{
    if n == 1 {
        assert(is_path(occ, first) && first[0] == a && first.last() == second[0]);
    } else {
        lemma_path_append(occ, a, first, second, n - 1);
        assert(adjacent(second[n - 2] as int, second[n - 1] as int));
        lemma_connected_step(occ, a, second[n - 2], second[n - 1]);
    }
}

/// A walk can be walked back, where its first cell is unclaimed too.
pub proof fn lemma_connected_symmetric(occ: Set<u8>, a: u8, b: u8)
    requires
        connected(occ, a, b),
        !occ.contains(a),
    ensures
        connected(occ, b, a),
{
    let path = choose|path: Seq<u8>|
        #[trigger] is_path(occ, path) && path[0] == a && path.last() == b;
    lemma_path_back(occ, path, 0);
}

proof fn lemma_path_back(occ: Set<u8>, path: Seq<u8>, i: int)
    requires
        is_path(occ, path),
        !occ.contains(path[0]),
        0 <= i < path.len(),
    ensures
        connected(occ, path.last(), path[i]),
    decreases path.len() - i,
{
    if i == path.len() - 1 {
        lemma_connected_self(occ, path.last());
    } else {
        lemma_path_back(occ, path, i + 1);
        assert(adjacent(path[i] as int, path[i + 1] as int));
        lemma_adjacent_symmetric(path[i] as int, path[i + 1] as int);
        if i >= 1 {
            assert(!occ.contains(path[i]));
        }
        lemma_connected_step(occ, path.last(), path[i + 1], path[i]);
    }
}

/// A set that holds `start` and, with each of its cells, the unclaimed
/// neighbours of that cell, holds the iceberg of `start`.
pub proof fn lemma_closed_holds_iceberg(occ: Set<u8>, start: u8, s: Set<u8>)
    requires
        s.contains(start),
        forall|m: u8, n: u8|
            s.contains(m) && #[trigger] adjacent(m as int, n as int) && !occ.contains(n)
                ==> s.contains(n),
    ensures
        iceberg_of(occ, start).subset_of(s),
{
    assert forall|c: u8| iceberg_of(occ, start).contains(c) implies s.contains(c) by {
        let path = choose|path: Seq<u8>|
            #[trigger] is_path(occ, path) && path[0] == start && path.last() == c;
        lemma_closed_holds_path(occ, s, path, path.len() - 1);
    }
}

proof fn lemma_closed_holds_path(occ: Set<u8>, s: Set<u8>, path: Seq<u8>, i: int)
    requires
        is_path(occ, path),
        s.contains(path[0]),
        forall|m: u8, n: u8|
            s.contains(m) && #[trigger] adjacent(m as int, n as int) && !occ.contains(n)
                ==> s.contains(n),
        0 <= i < path.len(),
    ensures
        s.contains(path[i]),
    decreases i,
{
    if i > 0 {
        lemma_closed_holds_path(occ, s, path, i - 1);
        assert(adjacent(path[i - 1] as int, path[i] as int) && !occ.contains(path[i]));
    }
}

/// The cells of an iceberg have the same iceberg.
pub proof fn lemma_same_iceberg(occ: Set<u8>, a: u8, b: u8)
    requires
        !occ.contains(a),
        connected(occ, a, b),
    ensures
        iceberg_of(occ, a) == iceberg_of(occ, b),
{
    lemma_connected_symmetric(occ, a, b);
    assert forall|c: u8| iceberg_of(occ, a).contains(c) == iceberg_of(occ, b).contains(c) by {
        if connected(occ, a, c) {
            lemma_connected_trans(occ, b, a, c);
        }
        if connected(occ, b, c) {
            lemma_connected_trans(occ, a, b, c);
        }
    }
    assert(iceberg_of(occ, a) =~= iceberg_of(occ, b));
}

/// An iceberg lies on the board, and but for its first cell on unclaimed
/// ice.
pub proof fn lemma_iceberg_cells(occ: Set<u8>, start: u8)
    ensures
        forall|c: u8| iceberg_of(occ, start).contains(c) ==> c < 60 && (c == start || !occ.contains(c)),
{
    assert forall|c: u8| iceberg_of(occ, start).contains(c) implies c < 60 && (c == start
        || !occ.contains(c)) by {
        let path = choose|path: Seq<u8>|
            #[trigger] is_path(occ, path) && path[0] == start && path.last() == c;
        if path.len() > 1 {
            assert(!occ.contains(path[path.len() - 1]));
        }
    }
}

/// How many entries of `queue` are cells of `marked`.
pub open spec fn marked_in_queue(queue: Seq<u8>, marked: Set<u8>) -> nat
    decreases queue.len(),
{
    if queue.len() == 0 {
        0
    } else {
        marked_in_queue(queue.drop_last(), marked) + if marked.contains(queue.last()) {
            1nat
        } else {
            0nat
        }
    }
}

proof fn lemma_marked_in_queue_push(queue: Seq<u8>, marked: Set<u8>, x: u8)
    ensures
        marked_in_queue(queue.push(x), marked) == marked_in_queue(queue, marked) + if marked.contains(
            x,
        ) {
            1nat
        } else {
            0nat
        },
{
    assert(queue.push(x).drop_last() =~= queue);
}

/// Entries behind a queue that are not cells of `marked` do not change how
/// many of its entries are.
proof fn lemma_marked_in_queue_extend(base: Seq<u8>, queue: Seq<u8>, marked: Set<u8>)
    requires
        base.len() <= queue.len(),
        forall|i: int| 0 <= i < base.len() ==> queue[i] == base[i],
        forall|i: int| base.len() <= i < queue.len() ==> !marked.contains(#[trigger] queue[i]),
    ensures
        marked_in_queue(queue, marked) == marked_in_queue(base, marked),
    decreases queue.len(),
{
    if queue.len() == base.len() {
        assert(queue =~= base);
    } else {
        lemma_marked_in_queue_extend(base, queue.drop_last(), marked);
    }
}

/// What the flood fill knows of its marked cells and its queue, at the
/// start of every round.
pub open spec fn fill_state(occ: Set<u8>, start: u8, marked: Set<u8>, queue: Seq<u8>) -> bool {
    &&& forall|c: u8| marked.contains(c) ==> c < 60 && connected(occ, start, c)
    &&& forall|i: int|
        0 <= i < queue.len() ==> (#[trigger] queue[i]) < 60 && connected(occ, start, queue[i])
    &&& forall|m: u8, n: u8|
        marked.contains(m) && #[trigger] adjacent(m as int, n as int) && !occ.contains(n)
            ==> marked.contains(n) || queue.contains(n)
    &&& marked.contains(start) || queue.contains(start)
}

/// One round of the flood fill keeps what it knows: the last entry of the
/// queue is marked, and its unclaimed and unmarked neighbours are queued.
proof fn lemma_fill_round(
    occ: Set<u8>,
    start: u8,
    old_marked: Set<u8>,
    base: Seq<u8>,
    idx: u8,
    fresh: Set<u8>,
    queue: Seq<u8>,
)
    requires
        fill_state(occ, start, old_marked, base.push(idx)),
        forall|x: u8|
            fresh.contains(x) <==> adjacent(idx as int, x as int) && !occ.contains(x)
                && !old_marked.insert(idx).contains(x),
        base.len() <= queue.len(),
        forall|i: int| 0 <= i < base.len() ==> queue[i] == base[i],
        forall|i: int| base.len() <= i < queue.len() ==> fresh.contains(#[trigger] queue[i]),
        forall|x: u8| fresh.contains(x) ==> queue.contains(x),
    ensures
        fill_state(occ, start, old_marked.insert(idx), queue),
        marked_in_queue(queue, old_marked.insert(idx)) == marked_in_queue(
            base,
            old_marked.insert(idx),
        ),
        old_marked.contains(idx) ==> marked_in_queue(queue, old_marked.insert(idx)) + 1
            == marked_in_queue(base.push(idx), old_marked),
{
    let marked = old_marked.insert(idx);
    let old_queue = base.push(idx);
    assert(old_queue[base.len() as int] == idx);
    assert(connected(occ, start, idx));
    assert forall|i: int| 0 <= i < queue.len() implies (#[trigger] queue[i]) < 60 && connected(
        occ,
        start,
        queue[i],
    ) by {
        if i < base.len() {
            assert(old_queue[i] == queue[i]);
        } else {
            assert(fresh.contains(queue[i]));
            lemma_adjacent_symmetric(idx as int, queue[i] as int);
            lemma_connected_step(occ, start, idx, queue[i]);
        }
    }
    assert forall|m: u8, n: u8|
        marked.contains(m) && #[trigger] adjacent(m as int, n as int) && !occ.contains(
            n,
        ) implies marked.contains(n) || queue.contains(n) by {
        if !marked.contains(n) {
            if m == idx {
                assert(fresh.contains(n));
            } else {
                assert(old_marked.contains(m));
                assert(old_queue.contains(n));
                let i = choose|i: int| 0 <= i < old_queue.len() && old_queue[i] == n;
                assert(queue[i] == n);
            }
        }
    }
    if !marked.contains(start) {
        assert(old_queue.contains(start));
        let i = choose|i: int| 0 <= i < old_queue.len() && old_queue[i] == start;
        assert(queue[i] == start);
    }
    lemma_marked_in_queue_extend(base, queue, marked);
    if old_marked.contains(idx) {
        assert(marked =~= old_marked);
        lemma_marked_in_queue_push(base, old_marked, idx);
    }
}

/// Puts every cell of `cells` behind the queue.
fn enqueue(queue: &mut Vec<u8>, cells: CellSet)
    requires
        cells.wf(),
    ensures
        old(queue)@.len() <= final(queue)@.len(),
        forall|i: int| 0 <= i < old(queue)@.len() ==> final(queue)@[i] == old(queue)@[i],
        forall|i: int|
            old(queue)@.len() <= i < final(queue)@.len() ==> cells@.contains(
                #[trigger] final(queue)@[i],
            ),
        forall|x: u8| cells@.contains(x) ==> final(queue)@.contains(x),
{
    let ghost base = queue@;
    let mut it = cells.iter();
    loop
        invariant
            base == old(queue)@,
            it.wf(),
            it.set() == cells,
            cells.wf(),
            it.pending().finite(),
            it.pending().subset_of(cells@),
            base.len() <= queue@.len(),
            forall|i: int| 0 <= i < base.len() ==> queue@[i] == base[i],
            forall|i: int| base.len() <= i < queue@.len() ==> cells@.contains(#[trigger] queue@[i]),
            forall|x: u8| cells@.contains(x) && !it.pending().contains(x) ==> queue@.contains(x),
        decreases it.pending().len(),
    {
        let ghost before = it;
        let ghost queue_before = queue@;
        match it.next() {
            Some(x) => {
                queue.push(x);
                proof {
                    assert(before.pending().contains(x));
                    assert(queue@[queue@.len() - 1] == x);
                    assert forall|y: u8|
                        cells@.contains(y) && !it.pending().contains(y) implies queue@.contains(
                        y,
                    ) by {
                        if y != x {
                            assert(queue_before.contains(y));
                            let i = choose|i: int|
                                0 <= i < queue_before.len() && queue_before[i] == y;
                            assert(queue@[i] == y);
                        }
                    }
                }
            },
            None => {
                return ;
            },
        }
    }
}

impl Board {
    /// The iceberg of `start`: every cell to which a walk over unclaimed
    /// ice leads from `start`, and `start` itself.
    pub fn component(&self, start: u8) -> (s: CellSet)
        requires
            (start as nat) < NUM_CELLS,
        ensures
            s@ == iceberg_of(self.occupied(), start),
            s.wf(),
    {
        let ghost occ = self.occupied();
        let mut marked = CellSet::new();
        let mut queue: Vec<u8> = Vec::new();
        queue.push(start);
        proof {
            lemma_connected_self(occ, start);
            crate::cellset::lemma_view_finite(marked);
            assert(queue@[0] == start);
        }
        loop
            invariant
                (start as nat) < NUM_CELLS,
                occ == self.occupied(),
                marked.wf(),
                marked@.finite(),
                marked@.len() <= 60,
                fill_state(occ, start, marked@, queue@),
            decreases 60 - marked@.len(), marked_in_queue(queue@, marked@),
        {
            let ghost old_queue = queue@;
            let ghost old_marked = marked;
            let idx = match queue.pop() {
                Some(idx) => idx,
                None => {
                    proof {
                        assert forall|m: u8, n: u8|
                            marked@.contains(m) && #[trigger] adjacent(m as int, n as int)
                                && !occ.contains(n) implies marked@.contains(n) by {
                            assert(!queue@.contains(n));
                        }
                        assert(!queue@.contains(start));
                        lemma_closed_holds_iceberg(occ, start, marked@);
                        assert(marked@ =~= iceberg_of(occ, start));
                    }
                    return marked;
                },
            };
            let ghost base = queue@;
            proof {
                assert(old_queue =~= base.push(idx));
                assert(old_queue[old_queue.len() - 1] == idx);
            }
            marked = marked.insert(idx);
            let around = Board::neighbors(idx);
            let cells = cells_slice(&around);
            proof {
                lemma_neighbor_seq(idx as int, 6);
                lemma_neighbors_adjacent(idx as int);
                crate::cellset::lemma_view_finite(marked);
                crate::cellset::lemma_wf_len(marked);
            }
            let new_members = CellSet::from_slice(cells).exclude(self.all_claimed_cells()).exclude(
                marked,
            );
            enqueue(&mut queue, new_members);
            proof {
                assert forall|x: u8|
                    new_members@.contains(x) <==> adjacent(idx as int, x as int) && !occ.contains(
                        x,
                    ) && !old_marked@.insert(idx).contains(x) by {
                    if adjacent(idx as int, x as int) {
                        assert(neighbor_seq(idx as int, 6).contains(x));
                    }
                    if new_members@.contains(x) {
                        assert(cells@.to_set().contains(x));
                        assert(neighbor_seq(idx as int, 6).contains(x));
                    }
                }
                lemma_fill_round(occ, start, old_marked@, base, idx, new_members@, queue@);
            }
        }
    }

    /// The icebergs of the board: the connected regions of unclaimed ice,
    /// in the order of their lowest cells.
    pub fn connected_components(&self) -> (v: Vec<CellSet>)
        requires
            self.wf(),
        ensures
            are_icebergs(self.occupied(), v@),
            self.occupied().len() + total_len(v@) == NUM_CELLS,
            v@.len() <= NUM_CELLS,
    {
        let ghost occ = self.occupied();
        let claimed_cells = self.all_claimed_cells();
        proof {
            lemma_open_cells_len(occ, claimed_cells);
        }
        let num_unclaimed = NUM_CELLS - claimed_cells.len();
        let mut marked = CellSet::new();
        let mut components: Vec<CellSet> = Vec::new();
        proof {
            assert(union_of(components@) =~= marked@);
            crate::cellset::lemma_view_finite(marked);
        }
        while marked.len() < num_unclaimed
            invariant
                self.wf(),
                occ == self.occupied(),
                claimed_cells@ == occ,
                claimed_cells.wf(),
                open_cells(occ).finite(),
                num_unclaimed == open_cells(occ).len(),
                occ.len() + num_unclaimed == NUM_CELLS,
                marked.wf(),
                marked@.finite(),
                icebergs_so_far(occ, components@, marked@),
                total_len(components@) == marked@.len(),
                components@.len() <= marked@.len(),
            decreases num_unclaimed - marked@.len(),
        {
            let available = CellSet::full().exclude(claimed_cells).exclude(marked);
            proof {
                assert(available@ =~= open_cells(occ).difference(marked@));
                if available@ =~= Set::<u8>::empty() {
                    assert forall|c: u8| open_cells(occ).contains(c) implies marked@.contains(
                        c,
                    ) by {
                        assert(!available@.contains(c));
                    }
                    vstd::set_lib::lemma_len_subset(open_cells(occ), marked@);
                }
            }
            let mut it = available.iter();
            let idx = match it.next() {
                Some(idx) => idx,
                None => {
                    return vstd::pervasive::unreached();
                },
            };
            let new_component = self.component(idx);
            let ghost old_marked = marked@;
            let ghost old_components = components@;
            marked = marked.union(new_component);
            components.push(new_component);
            proof {
                assert(is_least(available@, idx));
                lemma_next_iceberg(occ, old_components, old_marked, idx, new_component);
                crate::cellset::lemma_view_finite(marked);
                crate::cellset::lemma_view_finite(new_component);
                assert(components@.drop_last() =~= old_components);
                vstd::set_lib::lemma_len_subset(marked@, open_cells(occ));
            }
        }
        proof {
            vstd::set_lib::lemma_len_subset(marked@, open_cells(occ));
            vstd::set_lib::lemma_subset_equality(marked@, open_cells(occ));
            assert(union_of(components@) =~= open_cells(occ));
        }
        components
    }
}

/// The cells of the board that are not in `occ`.
pub open spec fn open_cells(occ: Set<u8>) -> Set<u8> {
    Set::new(|c: u8| c < 60 && !occ.contains(c))
}

/// Some cell of `s` lies below `b`.
pub open spec fn has_below(s: Set<u8>, b: u8) -> bool {
    exists|a: u8| s.contains(a) && a < b
}

/// The cells of all the sets of `comps`.
pub open spec fn union_of(comps: Seq<CellSet>) -> Set<u8> {
    Set::new(|c: u8| exists|i: int| 0 <= i < comps.len() && (#[trigger] comps[i])@.contains(c))
}

/// The sizes of the sets of `comps`, added up.
pub open spec fn total_len(comps: Seq<CellSet>) -> nat
    decreases comps.len(),
{
    if comps.len() == 0 {
        0
    } else {
        total_len(comps.drop_last()) + comps.last()@.len()
    }
}

/// Each set of `comps` is the iceberg of its lowest cell, which is
/// unclaimed; no two of them share a cell; and they come in the order of
/// their lowest cells.
pub open spec fn distinct_icebergs(occ: Set<u8>, comps: Seq<CellSet>) -> bool {
    &&& forall|i: int|
        0 <= i < comps.len() ==> (#[trigger] comps[i]).wf() && exists|seed: u8|
            is_least(comps[i]@, seed) && !occ.contains(seed) && comps[i]@ == iceberg_of(occ, seed)
    &&& forall|i: int, j: int|
        0 <= i < j < comps.len() ==> (#[trigger] comps[i])@.disjoint((#[trigger] comps[j])@)
    &&& forall|i: int, j: int, b: u8|
        #![trigger comps[i], comps[j]@.contains(b)]
        0 <= i < j < comps.len() && comps[j]@.contains(b) ==> has_below(comps[i]@, b)
}

/// The sets of `comps` are the icebergs of the board: distinct icebergs
/// that together hold every unclaimed cell, and nothing else.
pub open spec fn are_icebergs(occ: Set<u8>, comps: Seq<CellSet>) -> bool {
    &&& distinct_icebergs(occ, comps)
    &&& union_of(comps) == open_cells(occ)
}

/// The sets of `comps` are the icebergs found so far, `marked` holds their
/// cells, and every unclaimed cell outside lies above the lowest cell of
/// each of them.
pub open spec fn icebergs_so_far(occ: Set<u8>, comps: Seq<CellSet>, marked: Set<u8>) -> bool {
    &&& distinct_icebergs(occ, comps)
    &&& union_of(comps) == marked
    &&& marked.subset_of(open_cells(occ))
    &&& forall|c: u8| marked.contains(c) ==> iceberg_of(occ, c).subset_of(marked)
    &&& forall|i: int, b: u8|
        0 <= i < comps.len() && open_cells(occ).contains(b) && !marked.contains(b)
            ==> #[trigger] has_below(comps[i]@, b)
}

/// Claimed and unclaimed cells together are the cells of the board.
proof fn lemma_open_cells_len(occ: Set<u8>, claimed: CellSet)
    requires
        claimed.wf(),
        claimed@ == occ,
    ensures
        open_cells(occ).finite(),
        occ.finite(),
        occ.len() + open_cells(occ).len() == NUM_CELLS,
{
    crate::cellset::lemma_view_finite(claimed);
    crate::cellset::lemma_cells_below_len(NUM_CELLS as nat);
    let all = cells_below(NUM_CELLS as nat);
    vstd::set_lib::lemma_len_subset(open_cells(occ), all);
    assert(occ + open_cells(occ) =~= all);
    assert(occ.disjoint(open_cells(occ)));
    vstd::set_lib::lemma_set_disjoint_lens(occ, open_cells(occ));
}

/// The iceberg of the lowest unclaimed cell that is not marked yet is the
/// next iceberg.
proof fn lemma_next_iceberg(
    occ: Set<u8>,
    comps: Seq<CellSet>,
    marked: Set<u8>,
    idx: u8,
    next: CellSet,
)
    requires
        icebergs_so_far(occ, comps, marked),
        marked.finite(),
        is_least(open_cells(occ).difference(marked), idx),
        next@ == iceberg_of(occ, idx),
        next.wf(),
        total_len(comps) == marked.len(),
    ensures
        icebergs_so_far(occ, comps.push(next), marked.union(next@)),
        total_len(comps.push(next)) == marked.union(next@).len(),
        marked.union(next@).len() > marked.len(),
{
    let longer = comps.push(next);
    let more = marked.union(next@);
    lemma_connected_self(occ, idx);
    lemma_iceberg_cells(occ, idx);
    crate::cellset::lemma_view_finite(next);
    assert(next@.disjoint(marked)) by {
        assert forall|x: u8| next@.contains(x) implies !marked.contains(x) by {
            if marked.contains(x) {
                lemma_same_iceberg(occ, idx, x);
                assert(iceberg_of(occ, x).contains(idx));
            }
        }
    }
    assert forall|c: u8| more.contains(c) implies iceberg_of(occ, c).subset_of(more) by {
        if next@.contains(c) {
            lemma_same_iceberg(occ, idx, c);
        } else {
            assert(iceberg_of(occ, c).subset_of(marked));
        }
    }
    assert(is_least(next@, idx)) by {
        assert forall|c: u8| next@.contains(c) implies idx <= c by {
            assert(open_cells(occ).difference(marked).contains(c));
        }
    }
    assert forall|i: int|
        0 <= i < longer.len() implies (#[trigger] longer[i]).wf() && exists|seed: u8|
        is_least(longer[i]@, seed) && !occ.contains(seed) && longer[i]@ == iceberg_of(
            occ,
            seed,
        ) by {
        if i < comps.len() {
            assert(longer[i] == comps[i]);
        } else {
            assert(is_least(longer[i]@, idx) && !occ.contains(idx) && longer[i]@ == iceberg_of(
                occ,
                idx,
            ));
        }
    }
    assert forall|i: int, j: int| 0 <= i < j < longer.len() implies (#[trigger] longer[i])@.disjoint(
        (#[trigger] longer[j])@,
    ) by {
        if j < comps.len() {
            assert(longer[i] == comps[i] && longer[j] == comps[j]);
        } else {
            assert(longer[i] == comps[i]);
            assert forall|x: u8| longer[i]@.contains(x) implies !next@.contains(x) by {
                assert(union_of(comps).contains(x));
            }
        }
    }
    assert forall|i: int, j: int, b: u8|
        #![trigger longer[i], longer[j]@.contains(b)]
        0 <= i < j < longer.len() && longer[j]@.contains(b) implies has_below(longer[i]@, b) by {
        assert(longer[i] == comps[i]);
        if j < comps.len() {
            assert(longer[j] == comps[j]);
            assert(comps[j]@.contains(b));
            assert(has_below(comps[i]@, b));
        } else {
            assert(open_cells(occ).contains(b) && !marked.contains(b));
            assert(has_below(comps[i]@, b));
        }
    }
    assert(union_of(longer) =~= more) by {
        assert forall|c: u8| union_of(longer).contains(c) == more.contains(c) by {
            if union_of(longer).contains(c) {
                let i = choose|i: int| 0 <= i < longer.len() && (#[trigger] longer[i])@.contains(c);
                if i < comps.len() {
                    assert(comps[i]@.contains(c));
                    assert(union_of(comps).contains(c));
                }
            }
            if marked.contains(c) {
                assert(union_of(comps).contains(c));
                let i = choose|i: int| 0 <= i < comps.len() && (#[trigger] comps[i])@.contains(c);
                assert(longer[i]@.contains(c));
            }
            if next@.contains(c) {
                assert(longer[comps.len() as int]@.contains(c));
            }
        }
    }
    assert forall|i: int, b: u8|
        0 <= i < longer.len() && open_cells(occ).contains(b) && !more.contains(
            b,
        ) implies #[trigger] has_below(longer[i]@, b) by {
        if i < comps.len() {
            assert(longer[i] == comps[i]);
            assert(has_below(comps[i]@, b));
        } else {
            assert(open_cells(occ).difference(marked).contains(b));
            assert(longer[i]@.contains(idx) && idx < b);
        }
    }
    assert(longer.drop_last() =~= comps);
    vstd::set_lib::lemma_set_disjoint_lens(marked, next@);
    assert(next@.len() > 0) by {
        if next@.len() == 0 {
            next@.lemma_len0_is_empty();
        }
    }
}

impl Board {
    /// The fish on the cells of `s`.
    pub open spec fn fish_in(self, s: Set<u8>) -> nat {
        s.intersect(self.fish[0]@).len() + 2 * s.intersect(self.fish[1]@).len() + 3 * s.intersect(
            self.fish[2]@,
        ).len()
    }

    /// One more cell adds the fish on it.
    pub proof fn lemma_fish_in_insert(self, s: Set<u8>, c: u8)
        requires
            self.wf(),
            s.finite(),
            !s.contains(c),
            c < 60,
        ensures
            self.fish_in(s.insert(c)) == self.fish_in(s) + self.spec_num_fish(c),
            1 <= self.spec_num_fish(c) <= 3,
    {
        let t = s.insert(c);
        assert(self.spec_num_fish(c) >= 1);
        assert forall|k: int| 0 <= k < 3 implies #[trigger] t.intersect(self.fish[k]@) == if self.fish[k]@.contains(
            c,
        ) {
            s.intersect(self.fish[k]@).insert(c)
        } else {
            s.intersect(self.fish[k]@)
        } by {
            if self.fish[k]@.contains(c) {
                assert(t.intersect(self.fish[k]@) =~= s.intersect(self.fish[k]@).insert(c));
            } else {
                assert(t.intersect(self.fish[k]@) =~= s.intersect(self.fish[k]@));
            }
        }
        assert forall|k: int| 0 <= k < 3 implies (#[trigger] s.intersect(self.fish[k]@)).finite() by {
            vstd::set_lib::lemma_len_intersect(s, self.fish[k]@);
        }
        assert(t.intersect(self.fish[0]@) == if self.fish[0]@.contains(c) {
            s.intersect(self.fish[0]@).insert(c)
        } else {
            s.intersect(self.fish[0]@)
        });
        assert(t.intersect(self.fish[1]@) == if self.fish[1]@.contains(c) {
            s.intersect(self.fish[1]@).insert(c)
        } else {
            s.intersect(self.fish[1]@)
        });
        assert(t.intersect(self.fish[2]@) == if self.fish[2]@.contains(c) {
            s.intersect(self.fish[2]@).insert(c)
        } else {
            s.intersect(self.fish[2]@)
        });
        assert(s.intersect(self.fish[0]@).finite());
        assert(s.intersect(self.fish[1]@).finite());
        assert(s.intersect(self.fish[2]@).finite());
    }

    /// The fish on the cells of `iceberg`.
    pub fn iceberg_fish(&self, iceberg: CellSet) -> (n: usize)
        requires
            self.wf(),
            iceberg.wf(),
        ensures
            n == self.fish_in(iceberg@),
            n <= 3 * iceberg@.len(),
            n <= 180,
    {
        let mut total: usize = 0;
        let mut it = iceberg.iter();
        let ghost mut seen: Set<u8> = Set::empty();
        proof {
            assert(seen.intersect(self.fish[0]@) =~= Set::<u8>::empty());
            assert(seen.intersect(self.fish[1]@) =~= Set::<u8>::empty());
            assert(seen.intersect(self.fish[2]@) =~= Set::<u8>::empty());
            crate::cellset::lemma_view_finite(iceberg);
            crate::cellset::lemma_wf_len(iceberg);
        }
        loop
            invariant
                self.wf(),
                iceberg.wf(),
                iceberg@.finite(),
                iceberg@.len() <= 60,
                it.wf(),
                it.set() == iceberg,
                it.pending().finite(),
                seen.finite(),
                seen == iceberg@.difference(it.pending()),
                it.pending().subset_of(iceberg@),
                total == self.fish_in(seen),
                total <= 3 * seen.len(),
                seen.len() <= iceberg@.len(),
            decreases it.pending().len(),
        {
            let ghost before = it;
            match it.next() {
                Some(c) => {
                    proof {
                        assert(before.pending().contains(c));
                        self.lemma_fish_in_insert(seen, c);
                        assert(seen.insert(c) =~= iceberg@.difference(it.pending()));
                        vstd::set_lib::lemma_len_subset(seen.insert(c), iceberg@);
                    }
                    total = total + self.num_fish(c);
                    proof {
                        seen = seen.insert(c);
                    }
                },
                None => {
                    proof {
                        assert(seen =~= iceberg@);
                    }
                    return total;
                },
            }
        }
    }

    /// Whether some cell of `iceberg` lies next to `cell`.
    pub fn touches(iceberg: CellSet, cell: u8) -> (b: bool)
        requires
            (cell as nat) < NUM_CELLS,
        ensures
            b == spec_touches(iceberg@, cell),
    {
        let around = Board::neighbors(cell);
        let cells = cells_slice(&around);
        proof {
            lemma_neighbor_seq(cell as int, 6);
            lemma_neighbors_adjacent(cell as int);
        }
        let mut i: usize = 0;
        while i < cells.len()
            invariant
                i <= cells.len(),
                (cell as nat) < NUM_CELLS,
                cells@ == neighbor_seq(cell as int, 6),
                forall|j: int| 0 <= j < cells@.len() ==> #[trigger] cells@[j] < 60,
                forall|x: u8| neighbor_seq(cell as int, 6).contains(x) <==> adjacent(cell as int, x as int),
                forall|j: int| 0 <= j < i ==> !iceberg@.contains(#[trigger] cells@[j]),
            decreases cells.len() - i,
        {
            if iceberg.contains(cells[i]) {
                proof {
                    assert(neighbor_seq(cell as int, 6).contains(cells@[i as int]));
                }
                return true;
            }
            i += 1;
        }
        proof {
            if spec_touches(iceberg@, cell) {
                let n = choose|n: u8| adjacent(cell as int, n as int) && iceberg@.contains(n);
                assert(cells@.contains(n));
                let j = choose|j: int| 0 <= j < cells@.len() && cells@[j] == n;
                assert(!iceberg@.contains(cells@[j]));
            }
        }
        false
    }

    /// The most fish that a penguin on `penguin` could still get if no
    /// other penguin ever moved: the fish on the richest iceberg next to
    /// it, and nothing where no unclaimed cell lies next to it.
    pub fn best_score_for_penguin(&self, penguin: u8) -> (n: usize)
        requires
            self.wf(),
            (penguin as nat) < NUM_CELLS,
        ensures
            self.is_best_score(penguin, n as nat),
            n <= 180,
    {
        let ghost occ = self.occupied();
        let components = self.connected_components();
        let mut best: usize = 0;
        let mut i: usize = 0;
        while i < components.len()
            invariant
                self.wf(),
                (penguin as nat) < NUM_CELLS,
                occ == self.occupied(),
                are_icebergs(occ, components@),
                i <= components.len(),
                best <= 180,
                forall|j: int|
                    0 <= j < i && spec_touches((#[trigger] components@[j])@, penguin) ==> self.fish_in(
                        components@[j]@,
                    ) <= best,
                best == 0 || exists|j: int|
                    0 <= j < i && spec_touches((#[trigger] components@[j])@, penguin) && self.fish_in(
                        components@[j]@,
                    ) == best,
            decreases components.len() - i,
        {
            let iceberg = components[i];
            assert(components@[i as int].wf());
            if Board::touches(iceberg, penguin) {
                let fish = self.iceberg_fish(iceberg);
                if fish > best {
                    best = fish;
                }
            }
            i += 1;
        }
        proof {
            self.lemma_best_over_icebergs(penguin, components@, best as nat);
        }
        best
    }

    /// `n` is the most fish on an iceberg next to `penguin`: the fish on
    /// the iceberg of one of its unclaimed neighbours, and no less than the
    /// fish on the iceberg of any of them; or nothing, where it has none.
    pub open spec fn is_best_score(self, penguin: u8, n: nat) -> bool {
        &&& forall|dir: int|
            0 <= dir < 6 && #[trigger] open_neighbor(self.occupied(), penguin as int, dir)
                ==> self.fish_in(
                iceberg_of(self.occupied(), step_index(penguin as int, dir, 1) as u8),
            ) <= n
        &&& (n == 0 || exists|dir: int|
            0 <= dir < 6 && #[trigger] open_neighbor(self.occupied(), penguin as int, dir)
                && self.fish_in(
                iceberg_of(self.occupied(), step_index(penguin as int, dir, 1) as u8),
            ) == n)
    }

    /// The richest of the icebergs that touch a cell is the richest of the
    /// icebergs of its unclaimed neighbours.
    proof fn lemma_best_over_icebergs(self, penguin: u8, comps: Seq<CellSet>, best: nat)
        requires
            self.wf(),
            penguin < 60,
            are_icebergs(self.occupied(), comps),
            forall|j: int|
                0 <= j < comps.len() && spec_touches((#[trigger] comps[j])@, penguin) ==> self.fish_in(
                    comps[j]@,
                ) <= best,
            best == 0 || exists|j: int|
                0 <= j < comps.len() && spec_touches((#[trigger] comps[j])@, penguin) && self.fish_in(
                    comps[j]@,
                ) == best,
        ensures
            self.is_best_score(penguin, best),
    {
        let occ = self.occupied();
        assert forall|dir: int|
            0 <= dir < 6 && #[trigger] open_neighbor(occ, penguin as int, dir) implies self.fish_in(
            iceberg_of(occ, step_index(penguin as int, dir, 1) as u8),
        ) <= best by {
            let n = step_index(penguin as int, dir, 1) as u8;
            lemma_hex_round_trip(
                hex_step(cell_col(penguin as int), cell_row(penguin as int), dir, 1).0,
                hex_step(cell_col(penguin as int), cell_row(penguin as int), dir, 1).1,
            );
            assert(step_on_board(penguin as int, dir, 1) && step_index(penguin as int, dir, 1) == n);
            assert(adjacent(penguin as int, n as int));
            assert(open_cells(occ).contains(n));
            assert(union_of(comps).contains(n));
            let j = choose|j: int| 0 <= j < comps.len() && (#[trigger] comps[j])@.contains(n);
            lemma_iceberg_through(occ, comps, j, n);
            assert(spec_touches(comps[j]@, penguin));
        }
        if best != 0 {
            let j = choose|j: int|
                0 <= j < comps.len() && spec_touches((#[trigger] comps[j])@, penguin) && self.fish_in(
                    comps[j]@,
                ) == best;
            let n = choose|n: u8| adjacent(penguin as int, n as int) && comps[j]@.contains(n);
            let dir = choose|dir: int|
                0 <= dir < 6 && #[trigger] step_on_board(penguin as int, dir, 1) && step_index(
                    penguin as int,
                    dir,
                    1,
                ) == n;
            assert(union_of(comps).contains(n));
            lemma_iceberg_through(occ, comps, j, n);
            assert(open_neighbor(occ, penguin as int, dir));
        }
    }
}

/// Some cell of `iceberg` lies next to `cell`.
pub open spec fn spec_touches(iceberg: Set<u8>, cell: u8) -> bool {
    exists|n: u8| adjacent(cell as int, n as int) && iceberg.contains(n)
}

/// An iceberg is the iceberg of each of its cells.
pub proof fn lemma_iceberg_through(occ: Set<u8>, comps: Seq<CellSet>, j: int, n: u8)
    requires
        are_icebergs(occ, comps),
        0 <= j < comps.len(),
        comps[j]@.contains(n),
    ensures
        comps[j]@ == iceberg_of(occ, n),
{
    let seed = choose|seed: u8|
        is_least(comps[j]@, seed) && !occ.contains(seed) && comps[j]@ == iceberg_of(occ, seed);
    lemma_same_iceberg(occ, seed, n);
}

} // verus!
