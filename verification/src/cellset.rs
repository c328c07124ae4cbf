//! A set of board cells packed into one 64-bit word.

use vstd::prelude::*;
use crate::bits::{bit, count_bits};
use crate::bits::{lemma_bit_zero, lemma_bit_or, lemma_bit_and, lemma_bit_and_not};
use crate::bits::{lemma_bit_single, lemma_bit_shr, lemma_bit_low_sixty, lemma_bits_equal};
use crate::bits::lemma_lowest_bit;
use crate::NUM_CELLS;

verus! {

/// A set of cells. Bit `i` of `data` is set exactly when cell `i` is a member.
#[derive(Clone, Copy, Debug, Eq, Hash, Ord, PartialEq, PartialOrd, Structural)]
#[must_use]
pub struct CellSet {
    pub data: u64,
}

impl View for CellSet {
    type V = Set<u8>;

    open spec fn view(&self) -> Set<u8> {
        Set::new(|c: u8| bit(self.data, c as u64))
    }
}

/// The members of `s` that are below `n`.
pub open spec fn members_below(s: Set<u8>, n: nat) -> Set<u8> {
    s.filter(|c: u8| (c as nat) < n)
}

/// The members of `s` that are at or above `n`.
pub open spec fn members_from(s: Set<u8>, n: nat) -> Set<u8> {
    s.filter(|c: u8| (c as nat) >= n)
}

/// `m` is the least member of `s`.
pub open spec fn is_least(s: Set<u8>, m: u8) -> bool {
    s.contains(m) && forall|c: u8| s.contains(c) ==> m <= c
}

impl CellSet {
    /// No bit at or above the number of cells is set.
    pub open spec fn wf(self) -> bool {
        forall|c: u8| self@.contains(c) ==> (c as nat) < NUM_CELLS
    }

    /// The empty set.
    pub open spec fn spec_new() -> CellSet {
        CellSet { data: 0 }
    }

    /// The set of all cells of the board.
    pub open spec fn spec_full() -> CellSet {
        CellSet { data: !0u64 >> 4 }
    }

    /// The set with `value` added.
    pub open spec fn spec_insert(self, value: u8) -> CellSet {
        CellSet { data: self.data | (1u64 << (value as u64)) }
    }

    /// The set with `value` taken out.
    pub open spec fn spec_remove(self, value: u8) -> CellSet {
        CellSet { data: self.data & !(1u64 << (value as u64)) }
    }

    /// Whether `value` is a member.
    pub open spec fn spec_contains(self, value: u8) -> bool {
        self.data & (1u64 << (value as u64)) != 0
    }

    /// The members of both sets.
    pub open spec fn spec_intersect(self, other: CellSet) -> CellSet {
        CellSet { data: self.data & other.data }
    }

    /// The members of `self` that are not in `other`.
    pub open spec fn spec_exclude(self, other: CellSet) -> CellSet {
        CellSet { data: self.data & !other.data }
    }

    /// The members of either set.
    pub open spec fn spec_union(self, other: CellSet) -> CellSet {
        CellSet { data: self.data | other.data }
    }

    /// The empty set.
    #[verifier::when_used_as_spec(spec_new)]
    pub fn new() -> (s: CellSet)
        ensures
            s == CellSet::spec_new(),
            s@ == Set::<u8>::empty(),
            s.wf(),
    {
        let s = CellSet { data: 0 };
        proof {
            lemma_view_new();
        }
        s
    }

    /// The set of all cells of the board.
    #[verifier::when_used_as_spec(spec_full)]
    pub fn full() -> (s: CellSet)
        ensures
            s == CellSet::spec_full(),
            forall|c: u8| s@.contains(c) <==> (c as nat) < NUM_CELLS,
            s@.len() == NUM_CELLS,
            s.wf(),
    {
        let s = CellSet { data: !0u64 >> 4 };
        proof {
            lemma_view_full();
        }
        s
    }

    /// The set with `value` added.
    #[verifier::when_used_as_spec(spec_insert)]
    pub fn insert(self, value: u8) -> (s: CellSet)
        requires
            (value as nat) < NUM_CELLS,
        ensures
            s == self.spec_insert(value),
            s@ == self@.insert(value),
            self.wf() ==> s.wf(),
    {
        proof {
            lemma_view_insert(self, value);
        }
        CellSet { data: self.data | (1u64 << (value as u64)) }
    }

    /// The set with `value` taken out.
    #[verifier::when_used_as_spec(spec_remove)]
    pub fn remove(self, value: u8) -> (s: CellSet)
        requires
            (value as nat) < NUM_CELLS,
        ensures
            s == self.spec_remove(value),
            s@ == self@.remove(value),
            self.wf() ==> s.wf(),
    {
        proof {
            lemma_view_remove(self, value);
        }
        CellSet { data: self.data & !(1u64 << (value as u64)) }
    }

    /// Whether `value` is a member.
    #[verifier::when_used_as_spec(spec_contains)]
    pub fn contains(self, value: u8) -> (b: bool)
        requires
            (value as nat) < NUM_CELLS,
        ensures
            b == self.spec_contains(value),
            b == self@.contains(value),
    {
        proof {
            lemma_view_contains(self, value);
        }
        (self.data & (1u64 << (value as u64))) != 0
    }

    /// The members of both sets.
    #[verifier::when_used_as_spec(spec_intersect)]
    pub fn intersect(self, other: CellSet) -> (s: CellSet)
        ensures
            s == self.spec_intersect(other),
            s@ == self@.intersect(other@),
            self.wf() || other.wf() ==> s.wf(),
    {
        proof {
            lemma_view_intersect(self, other);
        }
        CellSet { data: self.data & other.data }
    }

    /// The members of `self` that are not in `other`.
    #[verifier::when_used_as_spec(spec_exclude)]
    pub fn exclude(self, other: CellSet) -> (s: CellSet)
        ensures
            s == self.spec_exclude(other),
            s@ == self@.difference(other@),
            self.wf() ==> s.wf(),
    {
        proof {
            lemma_view_exclude(self, other);
        }
        CellSet { data: self.data & !other.data }
    }

    /// The members of either set.
    #[verifier::when_used_as_spec(spec_union)]
    pub fn union(self, other: CellSet) -> (s: CellSet)
        ensures
            s == self.spec_union(other),
            s@ == self@.union(other@),
            self.wf() && other.wf() ==> s.wf(),
    {
        proof {
            lemma_view_union(self, other);
        }
        CellSet { data: self.data | other.data }
    }

    /// The set of the cells that `cells` holds.
    pub fn from_slice(cells: &[u8]) -> (s: CellSet)
        requires
            forall|i: int| 0 <= i < cells@.len() ==> (#[trigger] cells@[i] as nat) < NUM_CELLS,
        ensures
            s@ == cells@.to_set(),
            s.wf(),
    {
        let mut ret = CellSet::new();
        let mut i: usize = 0;
        while i < cells.len()
            invariant
                i <= cells.len(),
                forall|j: int| 0 <= j < cells@.len() ==> (#[trigger] cells@[j] as nat) < NUM_CELLS,
                ret.wf(),
                forall|c: u8| ret@.contains(c) <==> exists|j: int| 0 <= j < i && cells@[j] == c,
            decreases cells.len() - i,
        {
            let ghost before = ret;
            ret = ret.insert(cells[i]);
            proof {
                assert forall|c: u8| ret@.contains(c) <==> exists|j: int|
                    0 <= j < i + 1 && cells@[j] == c by {
                    if before@.contains(c) {
                        let j = choose|j: int| 0 <= j < i && cells@[j] == c;
                        assert(0 <= j < i + 1 && cells@[j] == c);
                    }
                    if c == cells@[i as int] {
                        assert(0 <= i < i + 1 && cells@[i as int] == c);
                    }
                }
            }
            i += 1;
        }
        proof {
            assert forall|c: u8| ret@.contains(c) == cells@.to_set().contains(c) by {
                if ret@.contains(c) {
                    let j = choose|j: int| 0 <= j < i && cells@[j] == c;
                    assert(cells@.contains(c));
                }
                if cells@.contains(c) {
                    let j = choose|j: int| 0 <= j < cells@.len() && cells@[j] == c;
                    assert(0 <= j < i && cells@[j] == c);
                }
            }
            assert(ret@ =~= cells@.to_set());
        }
        ret
    }

    /// The members below the number of cells, in ascending order.
    pub fn to_vec(self) -> (cells: Vec<u8>)
        requires
            self.wf(),
        ensures
            lists_cells(cells@, self@),
            cells@.len() <= 60,
    {
        let mut cells: Vec<u8> = Vec::new();
        let mut it = self.iter();
        proof {
            lemma_view_finite(self);
            lemma_wf_len(self);
            vstd::set_lib::lemma_len_subset(it.pending(), self@);
        }
        loop
            invariant
                self.wf(),
                it.wf(),
                it.set() == self,
                it.pending().finite(),
                it.pending().subset_of(self@),
                cells@.len() + it.pending().len() <= 60,
                forall|i: int|
                    0 <= i < cells@.len() ==> self@.contains(#[trigger] cells@[i])
                        && !it.pending().contains(cells@[i]),
                forall|c: u8| self@.contains(c) && !it.pending().contains(c) ==> cells@.contains(c),
                forall|i: int, c: u8|
                    #![trigger cells@[i], it.pending().contains(c)]
                    0 <= i < cells@.len() && it.pending().contains(c) ==> cells@[i] < c,
                forall|i: int, j: int| 0 <= i < j < cells@.len() ==> cells@[i] < cells@[j],
            decreases it.pending().len(),
        {
            let ghost before = it;
            let ghost so_far = cells@;
            match it.next() {
                Some(c) => {
                    cells.push(c);
                    proof {
                        assert(before.pending().contains(c));
                        assert(is_least(before.pending(), c));
                        assert(cells@[so_far.len() as int] == c);
                        assert forall|d: u8|
                            self@.contains(d) && !it.pending().contains(d) implies cells@.contains(
                            d,
                        ) by {
                            if d != c {
                                assert(so_far.contains(d));
                                let i = choose|i: int| 0 <= i < so_far.len() && so_far[i] == d;
                                assert(cells@[i] == d);
                            }
                        }
                        assert forall|i: int, d: u8|
                            #![trigger cells@[i], it.pending().contains(d)]
                            0 <= i < cells@.len() && it.pending().contains(d) implies cells@[i] < d by {
                            assert(before.pending().contains(d));
                            if i < so_far.len() {
                                assert(cells@[i] == so_far[i]);
                            }
                        }
                        assert forall|i: int, j: int| 0 <= i < j < cells@.len() implies cells@[i]
                            < cells@[j] by {
                            assert(cells@[i] == so_far[i]);
                            if j < so_far.len() {
                                assert(cells@[j] == so_far[j]);
                            }
                        }
                    }
                },
                None => {
                    return cells;
                },
            }
        }
    }

    /// Whether the set has no member.
    pub fn is_empty(self) -> (b: bool)
        ensures
            b == (self@ == Set::<u8>::empty()),
            b == (self@.len() == 0),
    {
        proof {
            lemma_view_empty(self);
            lemma_view_finite(self);
            if self@.len() == 0 {
                self@.lemma_len0_is_empty();
            }
        }
        self.data == 0
    }

    /// The number of members.
    pub fn len(self) -> (n: usize)
        ensures
            n == self@.len(),
            n <= 64,
            self.wf() ==> n <= NUM_CELLS,
    {
        proof {
            lemma_view_len(self);
            lemma_wf_len(self);
        }
        self.data.count_ones() as usize
    }

    /// A cursor over the members below the number of cells, in ascending
    /// order. Every call starts from cell 0.
    pub fn iter(self) -> (it: Iter)
        ensures
            it.wf(),
            it.set() == self,
            it.pending().finite(),
            it.pending() == members_below(self@, NUM_CELLS as nat),
            self.wf() ==> it.pending() == self@,
    {
        let it = Iter { cell_set: self, value: 0 };
        proof {
            lemma_view_finite(self);
            vstd::set_lib::lemma_len_subset(it.pending(), self@);
        }
        assert(it.pending() =~= members_below(self@, NUM_CELLS as nat));
        assert(self.wf() ==> it.pending() =~= self@);
        it
    }
}

impl Default for CellSet {
    fn default() -> (s: CellSet)
        ensures
            s == CellSet::spec_new(),
    {
        CellSet { data: 0 }
    }
}

/// A cursor over the members of a set, in ascending order.
pub struct Iter {
    cell_set: CellSet,
    value: u8,
}

impl Iter {
    /// The cursor's position is at most the number of cells.
    pub closed spec fn wf(self) -> bool {
        (self.value as nat) <= NUM_CELLS
    }

    /// The set that the cursor walks.
    pub closed spec fn set(self) -> CellSet {
        self.cell_set
    }

    /// The position below which the cursor has handed every member out.
    pub closed spec fn position(self) -> nat {
        self.value as nat
    }

    /// The members that the cursor has yet to hand out.
    pub open spec fn pending(self) -> Set<u8> {
        self.set()@.filter(|c: u8| self.position() <= (c as nat) && (c as nat) < NUM_CELLS)
    }

    /// The least pending member, or `None` once none is left.
    pub fn next(&mut self) -> (r: Option<u8>)
        requires
            old(self).wf(),
        ensures
            final(self).wf(),
            final(self).set() == old(self).set(),
            old(self).pending().finite(),
            r is Some ==> final(self).pending().len() + 1 == old(self).pending().len(),
            match r {
                Some(v) => is_least(old(self).pending(), v) && final(self).pending() == old(
                    self,
                ).pending().remove(v),
                None => old(self).pending() == Set::<u8>::empty() && final(self).pending()
                    == Set::<u8>::empty(),
            },
    {
        let ghost start = *self;
        let data = self.cell_set.data;
        proof {
            lemma_view_finite(self.cell_set);
            vstd::set_lib::lemma_len_subset(start.pending(), self.cell_set@);
        }
        while self.value < NUM_CELLS as u8
            invariant
                start == *old(self),
                start.pending().finite(),
                self.wf(),
                self.cell_set == start.cell_set,
                data == start.cell_set.data,
                start.value <= self.value,
                forall|c: u8| start.value <= c < self.value ==> !#[trigger] bit(data, c as u64),
            decreases NUM_CELLS - self.value,
        {
            let v = self.value;
            let remainder = data >> ((v + 1) as u64);
            let skip = remainder.trailing_zeros();
            proof {
                if remainder != 0 {
                    lemma_lowest_bit(remainder);
                    lemma_bit_shr(data, (v + 1) as u64, skip as u64);
                } else {
                    vstd::std_specs::bits::axiom_u64_trailing_zeros(remainder);
                }
                assert forall|c: u8| v < c && (c as int) < v + 1 + skip implies !#[trigger] bit(
                    data,
                    c as u64,
                ) by {
                    let j = (c - v - 1) as u64;
                    lemma_bit_shr(data, (v + 1) as u64, j);
                    if remainder == 0 {
                        lemma_bit_zero(j);
                    }
                }
            }
            let next = if skip >= NUM_CELLS as u32 {
                NUM_CELLS as u8
            } else {
                let n = v + 1 + skip as u8;
                if n < NUM_CELLS as u8 {
                    n
                } else {
                    NUM_CELLS as u8
                }
            };
            self.value = next;
            if self.cell_set.contains(v) {
                proof {
                    assert(is_least(start.pending(), v));
                    assert(self.pending() =~= start.pending().remove(v));
                }
                return Some(v);
            }
        }
        proof {
            assert(start.pending() =~= Set::<u8>::empty());
            assert(self.pending() =~= Set::<u8>::empty());
        }
        None
    }

    /// The number of members at or above the cursor's position, as both
    /// bounds of the remaining length.
    pub fn size_hint(&self) -> (r: (usize, Option<usize>))
        requires
            self.wf(),
        ensures
            r.0 == members_from(self.set()@, self.position()).len(),
            r.1 == Some(r.0),
            self.set().wf() ==> r.0 == self.pending().len(),
    {
        let shifted = CellSet { data: self.cell_set.data >> (self.value as u64) };
        proof {
            lemma_view_shifted(self.cell_set, self.value);
            assert(self.set().wf() ==> self.pending() =~= members_from(
                self.set()@,
                self.position(),
            ));
        }
        let size = shifted.len();
        (size, Some(size))
    }
}

/// Inserting a cell makes it a member; removing it again leaves the set
/// without the cell, which is the set as it was where the cell was no
/// member before. The full set holds as many cells as the board has.
pub proof fn lemma_insert_then_remove(s: CellSet, c: u8)
    requires
        (c as nat) < NUM_CELLS,
    ensures
        s.insert(c).contains(c),
        s.insert(c)@.contains(c),
        !s.insert(c).remove(c)@.contains(c),
        s.insert(c).remove(c)@ == s@.remove(c),
        !s@.contains(c) ==> s.insert(c).remove(c) == s,
        CellSet::full()@.len() == NUM_CELLS,
{
    lemma_view_insert(s, c);
    lemma_view_contains(s.insert(c), c);
    lemma_view_remove(s.insert(c), c);
    assert(s@.insert(c).remove(c) =~= s@.remove(c));
    if !s@.contains(c) {
        assert(s@.remove(c) =~= s@);
        lemma_view_injective(s.insert(c).remove(c), s);
    }
    lemma_view_full();
}

/// `list` holds the cells of `set`, each once, in ascending order.
pub open spec fn lists_cells(list: Seq<u8>, set: Set<u8>) -> bool {
    &&& forall|i: int| 0 <= i < list.len() ==> set.contains(#[trigger] list[i])
    &&& forall|c: u8| set.contains(c) ==> list.contains(c)
    &&& forall|i: int, j: int| 0 <= i < j < list.len() ==> list[i] < list[j]
}

/// The cells of `set` in ascending order.
pub open spec fn sorted_cells(set: Set<u8>) -> Seq<u8> {
    choose|list: Seq<u8>| lists_cells(list, set)
}

/// Only one list holds the cells of a set in ascending order.
pub proof fn lemma_sorted_cells(list: Seq<u8>, set: Set<u8>)
    requires
        lists_cells(list, set),
    ensures
        list == sorted_cells(set),
{
    let other = sorted_cells(set);
    lemma_cell_lists_agree(list, other, set);
}

proof fn lemma_cell_lists_agree(a: Seq<u8>, b: Seq<u8>, set: Set<u8>)
    requires
        lists_cells(a, set),
        lists_cells(b, set),
    ensures
        a == b,
    decreases a.len(),
{
    if a.len() == 0 {
        if b.len() > 0 {
            assert(set.contains(b[0]));
            assert(a.contains(b[0]));
        }
        assert(a =~= b);
    } else {
        let top = a.last();
        assert(set.contains(top));
        assert(b.contains(top));
        let at = choose|i: int| 0 <= i < b.len() && b[i] == top;
        if at < b.len() - 1 {
            let more = b[b.len() - 1];
            assert(set.contains(more));
            assert(a.contains(more));
            let i = choose|i: int| 0 <= i < a.len() && a[i] == more;
            assert(a[i] <= top);
        }
        let rest = set.remove(top);
        assert(lists_cells(a.drop_last(), rest)) by {
            assert forall|c: u8| rest.contains(c) implies a.drop_last().contains(c) by {
                assert(a.contains(c));
                let i = choose|i: int| 0 <= i < a.len() && a[i] == c;
                assert(a.drop_last()[i] == c);
            }
        }
        assert(lists_cells(b.drop_last(), rest)) by {
            assert forall|c: u8| rest.contains(c) implies b.drop_last().contains(c) by {
                assert(b.contains(c));
                let i = choose|i: int| 0 <= i < b.len() && b[i] == c;
                assert(b.drop_last()[i] == c);
            }
        }
        lemma_cell_lists_agree(a.drop_last(), b.drop_last(), rest);
        assert(a =~= a.drop_last().push(top));
        assert(b =~= b.drop_last().push(top));
    }
}

/// The members of `s` below `n`, as a set of their own.
pub open spec fn view_below(s: CellSet, n: nat) -> Set<u8> {
    Set::new(|c: u8| (c as nat) < n && bit(s.data, c as u64))
}

/// The empty set has no member.
pub proof fn lemma_view_new()
    ensures
        CellSet::spec_new()@ == Set::<u8>::empty(),
        CellSet::spec_new().wf(),
{
    assert forall|c: u8| !CellSet::spec_new()@.contains(c) by {
        lemma_bit_zero(c as u64);
    }
    assert(CellSet::spec_new()@ =~= Set::<u8>::empty());
}

/// All the cells below `n`.
pub open spec fn cells_below(n: nat) -> Set<u8> {
    Set::new(|c: u8| (c as nat) < n)
}

/// There are `n` cells below `n`.
pub proof fn lemma_cells_below_len(n: nat)
    requires
        n <= 256,
    ensures
        cells_below(n).finite(),
        cells_below(n).len() == n,
    decreases n,
{
    if n == 0 {
        assert(cells_below(0) =~= Set::<u8>::empty());
    } else {
        lemma_cells_below_len((n - 1) as nat);
        assert(cells_below(n) =~= cells_below((n - 1) as nat).insert((n - 1) as u8));
    }
}

/// The full set holds the cells of the board, and no other.
pub proof fn lemma_view_full()
    ensures
        forall|c: u8| CellSet::spec_full()@.contains(c) <==> (c as nat) < NUM_CELLS,
        CellSet::spec_full()@ == cells_below(NUM_CELLS as nat),
        CellSet::spec_full()@.len() == NUM_CELLS,
        CellSet::spec_full().wf(),
{
    assert forall|c: u8| CellSet::spec_full()@.contains(c) <==> (c as nat) < NUM_CELLS by {
        lemma_bit_low_sixty(c as u64);
    }
    assert(CellSet::spec_full()@ =~= cells_below(NUM_CELLS as nat));
    lemma_cells_below_len(NUM_CELLS as nat);
}

/// Setting a bit adds a member.
pub proof fn lemma_view_insert(s: CellSet, value: u8)
    requires
        value < 64,
    ensures
        s.spec_insert(value)@ == s@.insert(value),
        s.wf() && (value as nat) < NUM_CELLS ==> s.spec_insert(value).wf(),
{
    assert forall|c: u8| s.spec_insert(value)@.contains(c) == s@.insert(value).contains(c) by {
        lemma_bit_or(s.data, 1u64 << (value as u64), c as u64);
        lemma_bit_single(value as u64, c as u64);
    }
    assert(s.spec_insert(value)@ =~= s@.insert(value));
}

/// Clearing a bit takes a member out.
pub proof fn lemma_view_remove(s: CellSet, value: u8)
    requires
        value < 64,
    ensures
        s.spec_remove(value)@ == s@.remove(value),
        s.wf() ==> s.spec_remove(value).wf(),
{
    assert forall|c: u8| s.spec_remove(value)@.contains(c) == s@.remove(value).contains(c) by {
        lemma_bit_and_not(s.data, 1u64 << (value as u64), c as u64);
        lemma_bit_single(value as u64, c as u64);
    }
    assert(s.spec_remove(value)@ =~= s@.remove(value));
}

/// Testing a bit tests for a member.
pub proof fn lemma_view_contains(s: CellSet, value: u8)
    requires
        value < 64,
    ensures
        s.spec_contains(value) == s@.contains(value),
{
    let d = s.data;
    let v = value as u64;
    assert((d & (1u64 << v) != 0) == ((d >> v) & 1 == 1)) by (bit_vector)
        requires
            v < 64,
    ;
}

/// The bits set in both words are the members of both sets.
pub proof fn lemma_view_intersect(s: CellSet, t: CellSet)
    ensures
        s.spec_intersect(t)@ == s@.intersect(t@),
        s.wf() || t.wf() ==> s.spec_intersect(t).wf(),
{
    assert forall|c: u8| s.spec_intersect(t)@.contains(c) == s@.intersect(t@).contains(c) by {
        lemma_bit_and(s.data, t.data, c as u64);
    }
    assert(s.spec_intersect(t)@ =~= s@.intersect(t@));
}

/// The bits set in one word and not in the other are the members of the
/// difference.
pub proof fn lemma_view_exclude(s: CellSet, t: CellSet)
    ensures
        s.spec_exclude(t)@ == s@.difference(t@),
        s.wf() ==> s.spec_exclude(t).wf(),
{
    assert forall|c: u8| s.spec_exclude(t)@.contains(c) == s@.difference(t@).contains(c) by {
        lemma_bit_and_not(s.data, t.data, c as u64);
    }
    assert(s.spec_exclude(t)@ =~= s@.difference(t@));
}

/// The bits set in either word are the members of either set.
pub proof fn lemma_view_union(s: CellSet, t: CellSet)
    ensures
        s.spec_union(t)@ == s@.union(t@),
        s.wf() && t.wf() ==> s.spec_union(t).wf(),
{
    assert forall|c: u8| s.spec_union(t)@.contains(c) == s@.union(t@).contains(c) by {
        lemma_bit_or(s.data, t.data, c as u64);
    }
    assert(s.spec_union(t)@ =~= s@.union(t@));
}

/// Two sets with the same members are the same value.
pub proof fn lemma_view_injective(s: CellSet, t: CellSet)
    requires
        s@ == t@,
    ensures
        s == t,
{
    assert forall|i: u64| i < 64 implies bit(s.data, i) == bit(t.data, i) by {
        let c = i as u8;
        assert(c as u64 == i);
        assert(s@.contains(c) == bit(s.data, c as u64));
        assert(t@.contains(c) == bit(t.data, c as u64));
    }
    lemma_bits_equal(s.data, t.data);
}

/// The zero word is the empty set, and no other word is.
pub proof fn lemma_view_empty(s: CellSet)
    ensures
        (s.data == 0) == (s@ == Set::<u8>::empty()),
{
    lemma_view_new();
    if s@ == Set::<u8>::empty() {
        lemma_view_injective(s, CellSet::spec_new());
    }
}

/// As many members lie below `n` as bits are set below `n`.
pub proof fn lemma_view_below_len(s: CellSet, n: nat)
    requires
        n <= 64,
    ensures
        view_below(s, n).finite(),
        view_below(s, n).len() == count_bits(s.data, n),
    decreases n,
{
    if n == 0 {
        assert(view_below(s, 0) =~= Set::<u8>::empty());
    } else {
        lemma_view_below_len(s, (n - 1) as nat);
        let c = (n - 1) as u8;
        if bit(s.data, c as u64) {
            assert(view_below(s, n) =~= view_below(s, (n - 1) as nat).insert(c));
        } else {
            assert(view_below(s, n) =~= view_below(s, (n - 1) as nat));
        }
    }
}

/// A set has at most 64 members.
pub proof fn lemma_view_finite(s: CellSet)
    ensures
        s@.finite(),
        s@.len() <= 64,
{
    lemma_view_len(s);
}

/// No more than `n` bits are set below `n`.
pub proof fn lemma_count_bits_bound(x: u64, n: nat)
    ensures
        count_bits(x, n) <= n,
    decreases n,
{
    if n > 0 {
        lemma_count_bits_bound(x, (n - 1) as nat);
    }
}

/// A set has as many members as its word has bits set.
pub proof fn lemma_view_len(s: CellSet)
    ensures
        s@.finite(),
        s@.len() == count_bits(s.data, 64),
        s@.len() <= 64,
{
    lemma_view_below_len(s, 64);
    assert(s@ =~= view_below(s, 64));
    lemma_count_bits_bound(s.data, 64);
}

/// A set within the board has no more members than the board has cells.
pub proof fn lemma_wf_len(s: CellSet)
    ensures
        s.wf() ==> s@.len() <= NUM_CELLS,
{
    if s.wf() {
        lemma_view_finite(s);
        lemma_cells_below_len(NUM_CELLS as nat);
        vstd::set_lib::lemma_len_subset(s@, cells_below(NUM_CELLS as nat));
    }
}

/// Shifting the word right by `k` leaves as many members as were at or
/// above `k`.
pub proof fn lemma_view_shifted(s: CellSet, k: u8)
    requires
        k < 64,
    ensures
        (CellSet { data: s.data >> (k as u64) })@.len() == members_from(s@, k as nat).len(),
{
    let t = CellSet { data: s.data >> (k as u64) };
    let from = members_from(s@, k as nat);
    lemma_view_finite(s);
    lemma_view_finite(t);
    let up = |c: u8| (c + k) as u8;
    assert forall|c: u8| t@.contains(c) implies c + k < 64 && from.contains((c + k) as u8) by {
        lemma_bit_shr(s.data, k as u64, c as u64);
    }
    assert forall|d: u8| from.contains(d) implies d >= k && t@.contains((d - k) as u8) by {
        lemma_bit_shr(s.data, k as u64, (d - k) as u64);
    }
    assert(t@.map(up) =~= from) by {
        assert forall|d: u8| from.contains(d) implies t@.map(up).contains(d) by {
            let c = (d - k) as u8;
            assert(t@.contains(c) && up(c) == d);
        }
    }
    vstd::set_lib::lemma_map_size(t@, from, up);
}

} // verus!
