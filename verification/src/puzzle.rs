//! The slither link puzzle: hints, cell sides and the edges between cells.
use vstd::prelude::*;

use crate::geom::{grid_index, same_slot, valid_size, Point, Size, Table};

verus! {

/// A hint of the puzzle: the number of lines around a cell, if given.
pub type Hint = Option<u8>;

/// A cell's side of the loop.
#[derive(Copy, Clone, Debug, PartialEq, Eq, Structural, PartialOrd, Ord)]
pub enum Side {
    /// The cell is inside the loop.
    In,
    /// The cell is outside the loop.
    Out,
}

/// The edge between two cells.
#[derive(Copy, Clone, Debug, PartialEq, Eq, Structural, PartialOrd, Ord)]
pub enum Edge {
    /// The edge is a line: the cells are on different sides.
    Line,
    /// The edge is a cross: the cells are on the same side.
    Cross,
}

/// The numeric value of a hint (`0` when absent).
pub open spec fn hint_value(h: Hint) -> int {
    match h {
        Some(n) => n as int,
        None => 0,
    }
}

/// The sum of the given hints.
pub open spec fn hint_sum(hints: Seq<Hint>) -> int
    decreases hints.len(),
{
    if hints.len() == 0 {
        0
    } else {
        hint_sum(hints.drop_last()) + hint_value(hints.last())
    }
}

/// Replacing one hint changes the sum by the difference of the two values.
pub proof fn lemma_hint_sum_update(hints: Seq<Hint>, i: int, h: Hint)
    requires
        0 <= i < hints.len(),
    ensures
        hint_sum(hints.update(i, h)) == hint_sum(hints) - hint_value(hints[i]) + hint_value(h),
    decreases hints.len(),
{
    let u = hints.update(i, h);
    if i == hints.len() - 1 {
        assert(u.drop_last() =~= hints.drop_last());
    } else {
        assert(u.drop_last() =~= hints.drop_last().update(i, h));
        lemma_hint_sum_update(hints.drop_last(), i, h);
    }
}

/// Sums are never negative.
pub proof fn lemma_hint_sum_nonneg(hints: Seq<Hint>)
    ensures
        0 <= hint_sum(hints),
    decreases hints.len(),
{
    if hints.len() > 0 {
        lemma_hint_sum_nonneg(hints.drop_last());
    }
}

/// Every hint sum is bounded by 255 times the number of hints.
pub proof fn lemma_hint_sum_bound(hints: Seq<Hint>)
    ensures
        hint_sum(hints) <= 255 * hints.len(),
    decreases hints.len(),
{
    if hints.len() > 0 {
        lemma_hint_sum_bound(hints.drop_last());
    }
}

/// Sizes of the four tables of a puzzle of size `s` are all valid.
pub open spec fn valid_puzzle_size(s: Size) -> bool {
    &&& 0 < s.0 && 0 < s.1
    &&& valid_size(s)
    &&& valid_size(Size(s.0, (s.1 + 1) as i32))
    &&& valid_size(Size((s.0 + 1) as i32, s.1))
    &&& s.0 < i32::MAX && s.1 < i32::MAX
}

/// Slither link puzzle data.
#[derive(Clone, Debug, PartialEq, Eq)]
pub struct Puzzle {
    size: Size,
    hint: Table<Hint>,
    side: Table<Option<Side>>,
    edge_v: Table<Option<Edge>>,
    edge_h: Table<Option<Edge>>,
    sum_of_hint: u32,
}

impl Puzzle {
    /// The tables have the sizes that go with the puzzle's size and the hint total is kept.
    pub closed spec fn wf(&self) -> bool {
        &&& valid_puzzle_size(self.size)
        &&& self.hint.wf() && self.side.wf() && self.edge_v.wf() && self.edge_h.wf()
        &&& self.hint.spec_size() == self.size
        &&& self.side.spec_size() == self.size
        &&& self.edge_v.spec_size() == Size(self.size.0, (self.size.1 + 1) as i32)
        &&& self.edge_h.spec_size() == Size((self.size.0 + 1) as i32, self.size.1)
        &&& self.sum_of_hint == self.spec_sum_of_hint()
    }

    /// The size of the puzzle.
    pub closed spec fn spec_size(&self) -> Size {
        self.size
    }

    /// The hint at `p` (the outside hint for points outside).
    pub closed spec fn hint_at(&self, p: Point) -> Hint {
        self.hint.at(p)
    }

    /// The side at `p` (the outside side for points outside).
    pub closed spec fn side_at(&self, p: Point) -> Option<Side> {
        self.side.at(p)
    }

    /// The horizontal edge above `p`.
    pub closed spec fn edge_h_at(&self, p: Point) -> Option<Edge> {
        self.edge_h.at(p)
    }

    /// The vertical edge on the left of `p`.
    pub closed spec fn edge_v_at(&self, p: Point) -> Option<Edge> {
        self.edge_v.at(p)
    }

    /// Outside the grid there are no hints, every side is `Out` and every edge a cross.
    pub open spec fn default_outside(&self) -> bool {
        let s = self.spec_size();
        &&& forall|q: Point| !s.spec_contains(q) ==> #[trigger] self.hint_at(q) == None::<u8>
        &&& forall|q: Point| !s.spec_contains(q) ==> #[trigger] self.side_at(q) == Some(Side::Out)
        &&& forall|q: Point|
            !Size(s.0, (s.1 + 1) as i32).spec_contains(q) ==> #[trigger] self.edge_v_at(q) == Some(
                Edge::Cross,
            )
        &&& forall|q: Point|
            !Size((s.0 + 1) as i32, s.1).spec_contains(q) ==> #[trigger] self.edge_h_at(q) == Some(
                Edge::Cross,
            )
    }

    /// The hints of the inside cells in row-major order.
    pub closed spec fn hint_cells(&self) -> Seq<Hint> {
        self.hint.cells()
    }

    /// The sides of the inside cells in row-major order.
    pub closed spec fn side_cells(&self) -> Seq<Option<Side>> {
        self.side.cells()
    }

    /// The vertical edges in row-major order over `rows x (columns + 1)`.
    pub closed spec fn edge_v_cells(&self) -> Seq<Option<Edge>> {
        self.edge_v.cells()
    }

    /// The horizontal edges in row-major order over `(rows + 1) x columns`.
    pub closed spec fn edge_h_cells(&self) -> Seq<Option<Edge>> {
        self.edge_h.cells()
    }

    /// The sum of the hints, the outside hint included.
    pub closed spec fn spec_sum_of_hint(&self) -> int {
        hint_sum(self.hint.cells()) + hint_value(self.hint.outside())
    }

    /// The lengths of the cell sequences follow the size.
    pub proof fn lemma_lengths(&self)
        requires
            self.wf(),
        ensures
            valid_puzzle_size(self.spec_size()),
            self.hint_cells().len() == self.spec_size().0 * self.spec_size().1,
            self.side_cells().len() == self.spec_size().0 * self.spec_size().1,
            self.edge_v_cells().len() == self.spec_size().0 * (self.spec_size().1 + 1),
            self.edge_h_cells().len() == (self.spec_size().0 + 1) * self.spec_size().1,
    {
        self.hint.lemma_len();
        self.side.lemma_len();
        self.edge_v.lemma_len();
        self.edge_h.lemma_len();
    }

    /// Creates an empty puzzle: no hints, no sides and no edges known.
    pub fn new(size: Size) -> (r: Puzzle)
        requires
            valid_puzzle_size(size),
        ensures
            r.wf(),
            r.spec_size() == size,
            r.hint_cells() == Seq::new((size.0 * size.1) as nat, |_i: int| None::<u8>),
            r.side_cells() == Seq::new((size.0 * size.1) as nat, |_i: int| None::<Side>),
            r.edge_v_cells() == Seq::new((size.0 * (size.1 + 1)) as nat, |_i: int| None::<Edge>),
            r.edge_h_cells() == Seq::new(((size.0 + 1) * size.1) as nat, |_i: int| None::<Edge>),
            r.default_outside(),
    {
        let hint = none_vec::<u8>((size.0 * size.1) as usize);
        proof {
            lemma_hint_sum_none((size.0 * size.1) as nat);
        }
        let side = none_vec::<Side>((size.0 * size.1) as usize);
        let edge_v = none_vec::<Edge>((size.0 * (size.1 + 1)) as usize);
        let edge_h = none_vec::<Edge>(((size.0 + 1) * size.1) as usize);
        Puzzle::with_data(size, hint, side, edge_v, edge_h)
    }

    /// Creates a puzzle from the row-major contents of its four tables.
    pub fn with_data(
        size: Size,
        hint: Vec<Hint>,
        side: Vec<Option<Side>>,
        edge_v: Vec<Option<Edge>>,
        edge_h: Vec<Option<Edge>>,
    ) -> (r: Puzzle)
        requires
            valid_puzzle_size(size),
            hint.len() == size.0 * size.1,
            side.len() == size.0 * size.1,
            edge_v.len() == size.0 * (size.1 + 1),
            edge_h.len() == (size.0 + 1) * size.1,
            hint_sum(hint@) <= u32::MAX,
        ensures
            r.wf(),
            r.spec_size() == size,
            r.hint_cells() == hint@,
            r.side_cells() == side@,
            r.edge_v_cells() == edge_v@,
            r.edge_h_cells() == edge_h@,
            r.default_outside(),
    {
        let mut sum_of_hint: u32 = 0;
        let mut i: usize = 0;
        while i < hint.len()
            invariant
                i <= hint.len(),
                sum_of_hint == hint_sum(hint@.take(i as int)),
                hint_sum(hint@) <= u32::MAX,
            decreases hint.len() - i,
        {
            proof {
                assert(hint@.take(i as int + 1).drop_last() =~= hint@.take(i as int));
                lemma_hint_sum_prefix(hint@, i as int + 1);
            }
            if let Some(n) = hint[i] {
                sum_of_hint = sum_of_hint + n as u32;
            }
            i = i + 1;
        }
        proof {
            assert(hint@.take(hint.len() as int) =~= hint@);
        }
        let hint = Table::new(size, None, hint);
        let side = Table::new(size, Some(Side::Out), side);
        let edge_v = Table::new(Size(size.0, size.1 + 1), Some(Edge::Cross), edge_v);
        let edge_h = Table::new(Size(size.0 + 1, size.1), Some(Edge::Cross), edge_h);
        Puzzle { size: size, hint: hint, side: side, edge_v: edge_v, edge_h: edge_h, sum_of_hint: sum_of_hint }
    }

    /// The size of the puzzle.
    pub fn size(&self) -> (r: Size)
        requires
            self.wf(),
        ensures
            r == self.spec_size(),
            valid_puzzle_size(r),
    {
        self.size
    }

    /// The sum of all hints.
    pub fn sum_of_hint(&self) -> (r: u32)
        requires
            self.wf(),
        ensures
            r == self.spec_sum_of_hint(),
    {
        self.sum_of_hint
    }

    /// Gets the hint at the point.
    pub fn hint(&self, p: Point) -> (r: Hint)
        requires
            self.wf(),
        ensures
            r == self.hint_at(p),
    {
        *self.hint.index(p)
    }

    /// Sets the hint at the point (a point outside sets the outside hint).
    pub fn set_hint(&mut self, p: Point, hint: Hint)
        requires
            old(self).wf(),
            old(self).spec_sum_of_hint() - hint_value(old(self).hint_at(p)) + hint_value(hint)
                <= u32::MAX,
        ensures
            final(self).wf(),
            final(self).spec_size() == old(self).spec_size(),
            forall|q: Point| #[trigger] final(self).hint_at(q) == if same_slot(old(self).spec_size(), p, q) {
                hint
            } else {
                old(self).hint_at(q)
            },
            final(self).side_cells() == old(self).side_cells(),
            final(self).edge_v_cells() == old(self).edge_v_cells(),
            final(self).edge_h_cells() == old(self).edge_h_cells(),
            forall|q: Point| #[trigger] final(self).side_at(q) == old(self).side_at(q),
            forall|q: Point| #[trigger] final(self).edge_v_at(q) == old(self).edge_v_at(q),
            forall|q: Point| #[trigger] final(self).edge_h_at(q) == old(self).edge_h_at(q),
            final(self).spec_sum_of_hint() == old(self).spec_sum_of_hint() - hint_value(
                old(self).hint_at(p),
            ) + hint_value(hint),
    {
        let old_hint = *self.hint.index(p);
        proof {
            self.hint.lemma_len();
            if self.size.spec_contains(p) {
                crate::geom::lemma_index_in_grid(self.size, p);
                lemma_hint_sum_update(self.hint.cells(), grid_index(self.size, p), hint);
                lemma_hint_sum_update(self.hint.cells(), grid_index(self.size, p), None);
                lemma_hint_sum_nonneg(self.hint.cells().update(grid_index(self.size, p), None));
            }
            lemma_hint_sum_nonneg(self.hint.cells());
        }
        let mut sum = self.sum_of_hint;
        if let Some(n) = old_hint {
            sum = sum - n as u32;
        }
        if let Some(n) = hint {
            sum = sum + n as u32;
        }
        self.hint.set(p, hint);
        self.sum_of_hint = sum;
    }

    /// Gets the side at the point.
    pub fn side(&self, p: Point) -> (r: Option<Side>)
        requires
            self.wf(),
        ensures
            r == self.side_at(p),
    {
        *self.side.index(p)
    }

    /// Sets the side at the point (a point outside sets the outside side).
    pub fn set_side(&mut self, p: Point, side: Option<Side>)
        requires
            old(self).wf(),
        ensures
            final(self).wf(),
            final(self).spec_size() == old(self).spec_size(),
            forall|q: Point| #[trigger] final(self).side_at(q) == if same_slot(old(self).spec_size(), p, q) {
                side
            } else {
                old(self).side_at(q)
            },
            final(self).hint_cells() == old(self).hint_cells(),
            final(self).edge_v_cells() == old(self).edge_v_cells(),
            final(self).edge_h_cells() == old(self).edge_h_cells(),
            forall|q: Point| #[trigger] final(self).hint_at(q) == old(self).hint_at(q),
            forall|q: Point| #[trigger] final(self).edge_v_at(q) == old(self).edge_v_at(q),
            forall|q: Point| #[trigger] final(self).edge_h_at(q) == old(self).edge_h_at(q),
            old(self).spec_size().spec_contains(p) ==> final(self).side_cells() == old(self).side_cells().update(
                grid_index(old(self).spec_size(), p),
                side,
            ),
    {
        proof {
            self.side.lemma_len();
            if self.size.spec_contains(p) {
                crate::geom::lemma_index_in_grid(self.size, p);
            }
        }
        self.side.set(p, side);
    }

    /// Gets the horizontal edge above the point.
    pub fn edge_h(&self, p: Point) -> (r: Option<Edge>)
        requires
            self.wf(),
        ensures
            r == self.edge_h_at(p),
    {
        *self.edge_h.index(p)
    }

    /// Sets the horizontal edge above the point.
    pub fn set_edge_h(&mut self, p: Point, edge: Option<Edge>)
        requires
            old(self).wf(),
        ensures
            final(self).wf(),
            final(self).spec_size() == old(self).spec_size(),
            forall|q: Point| #[trigger] final(self).edge_h_at(q) == if same_slot(
                Size((old(self).spec_size().0 + 1) as i32, old(self).spec_size().1),
                p,
                q,
            ) {
                edge
            } else {
                old(self).edge_h_at(q)
            },
            final(self).hint_cells() == old(self).hint_cells(),
            final(self).side_cells() == old(self).side_cells(),
            final(self).edge_v_cells() == old(self).edge_v_cells(),
            forall|q: Point| #[trigger] final(self).hint_at(q) == old(self).hint_at(q),
            forall|q: Point| #[trigger] final(self).side_at(q) == old(self).side_at(q),
            forall|q: Point| #[trigger] final(self).edge_v_at(q) == old(self).edge_v_at(q),
    {
        proof {
            self.edge_h.lemma_len();
        }
        self.edge_h.set(p, edge);
    }

    /// Gets the vertical edge on the left of the point.
    pub fn edge_v(&self, p: Point) -> (r: Option<Edge>)
        requires
            self.wf(),
        ensures
            r == self.edge_v_at(p),
    {
        *self.edge_v.index(p)
    }

    /// Sets the vertical edge on the left of the point.
    pub fn set_edge_v(&mut self, p: Point, edge: Option<Edge>)
        requires
            old(self).wf(),
        ensures
            final(self).wf(),
            final(self).spec_size() == old(self).spec_size(),
            forall|q: Point| #[trigger] final(self).edge_v_at(q) == if same_slot(
                Size(old(self).spec_size().0, (old(self).spec_size().1 + 1) as i32),
                p,
                q,
            ) {
                edge
            } else {
                old(self).edge_v_at(q)
            },
            final(self).hint_cells() == old(self).hint_cells(),
            final(self).side_cells() == old(self).side_cells(),
            final(self).edge_h_cells() == old(self).edge_h_cells(),
            forall|q: Point| #[trigger] final(self).hint_at(q) == old(self).hint_at(q),
            forall|q: Point| #[trigger] final(self).side_at(q) == old(self).side_at(q),
            forall|q: Point| #[trigger] final(self).edge_h_at(q) == old(self).edge_h_at(q),
    {
        proof {
            self.edge_v.lemma_len();
        }
        self.edge_v.set(p, edge);
    }
    /// A copy of the puzzle.
    pub fn duplicate(&self) -> (r: Puzzle)
        ensures
            r.wf() == self.wf(),
            r.spec_size() == self.spec_size(),
            r.hint_cells() == self.hint_cells(),
            r.side_cells() == self.side_cells(),
            r.edge_v_cells() == self.edge_v_cells(),
            r.edge_h_cells() == self.edge_h_cells(),
            r.spec_sum_of_hint() == self.spec_sum_of_hint(),
            forall|p: Point| #[trigger] r.hint_at(p) == self.hint_at(p),
            forall|p: Point| #[trigger] r.side_at(p) == self.side_at(p),
            forall|p: Point| #[trigger] r.edge_v_at(p) == self.edge_v_at(p),
            forall|p: Point| #[trigger] r.edge_h_at(p) == self.edge_h_at(p),
    {
        Puzzle {
            size: self.size,
            hint: self.hint.duplicate(),
            side: self.side.duplicate(),
            edge_v: self.edge_v.duplicate(),
            edge_h: self.edge_h.duplicate(),
            sum_of_hint: self.sum_of_hint,
        }
    }

}

/// The sum of a prefix of hints grows by the last hint and stays below the whole sum.
pub proof fn lemma_hint_sum_prefix(hints: Seq<Hint>, k: int)
    requires
        0 < k <= hints.len(),
    ensures
        hint_sum(hints.take(k)) == hint_sum(hints.take(k - 1)) + hint_value(hints[k - 1]),
        hint_sum(hints.take(k)) <= hint_sum(hints),
    decreases hints.len(),
{
    assert(hints.take(k).drop_last() =~= hints.take(k - 1));
    if k < hints.len() {
        assert(hints.drop_last().take(k) =~= hints.take(k));
        lemma_hint_sum_prefix(hints.drop_last(), k);
    } else {
        assert(hints.take(k) =~= hints);
    }
}

/// A grid without hints sums to zero.
pub proof fn lemma_hint_sum_none(n: nat)
    ensures
        hint_sum(Seq::new(n, |_i: int| None::<u8>)) == 0,
    decreases n,
{
    if n > 0 {
        assert(Seq::new(n, |_i: int| None::<u8>).drop_last() =~= Seq::new((n - 1) as nat, |_i: int| None::<u8>));
        lemma_hint_sum_none((n - 1) as nat);
    }
}

/// A vector of `n` absent values.
pub fn none_vec<T: Copy>(n: usize) -> (r: Vec<Option<T>>)
    ensures
        r@ == Seq::new(n as nat, |_i: int| None::<T>),
{
    let mut v: Vec<Option<T>> = Vec::new();
    let mut i: usize = 0;
    while i < n
        invariant
            i <= n,
            v@ == Seq::new(i as nat, |_i: int| None::<T>),
        decreases n - i,
    {
        v.push(None);
        i = i + 1;
        assert(v@ =~= Seq::new(i as nat, |_i: int| None::<T>));
    }
    v
}

} // verus!
