//! What is known of the sides of the cells: a union-find over two keys per cell.
//!
//! Cell `c` has the keys `2c` ("c is on side X") and `2c + 1` ("c is on the other side").
//! Joining `2a` with `2b` and `2a + 1` with `2b + 1` records that `a` and `b` are on the same
//! side; joining `2a` with `2b + 1` and `2a + 1` with `2b` records that they are on different
//! sides. Cell `0` is the outside, which is `Out` by definition.
use vstd::prelude::*;

use crate::geom::{lemma_grid_index_injective, same_slot, valid_size, CellId, Move, Point, Size};
use crate::model::{ErrorKind, SolverResult, State};
use crate::puzzle::{valid_puzzle_size, Edge, Puzzle, Side};
use crate::sized_union_find::{count_roots, joined, lemma_count_roots_identity, lemma_count_roots_le_len, UnionFind};

verus! {

/// The key that stands for "cell `c` is on the same side as the key's class".
pub open spec fn key0(c: nat) -> nat {
    2 * c
}

/// The key that stands for "cell `c` is on the other side".
pub open spec fn key1(c: nat) -> nat {
    2 * c + 1
}

/// The state of a relation read from two facts: "same" and "different".
pub open spec fn relation_state<T>(same: bool, different: bool, if_same: T, if_different: T) -> State<T> {
    if same && different {
        State::Conflict
    } else if same {
        State::Fixed(if_same)
    } else if different {
        State::Fixed(if_different)
    } else {
        State::Unknown
    }
}

/// What is known of the sides of the cells of a puzzle.
#[derive(Clone)]
pub struct SideMap {
    uf: UnionFind<()>,
    revision: u32,
    max_revision: u32,
}

impl SideMap {
    /// Two keys per cell, and every successful change was one join at least.
    pub closed spec fn wf(&self) -> bool {
        &&& self.uf.wf()
        &&& self.uf.spec_size() == 2 * self.num_cells()
        &&& self.num_cells() >= 1
        &&& 2 * self.num_cells() <= u32::MAX
        &&& self.revision + count_roots(self.uf.reps()) <= self.uf.spec_size()
    }

    /// The number of cells, the outside included.
    pub closed spec fn num_cells(&self) -> nat {
        self.uf.spec_size() / 2
    }

    /// Whether keys `i` and `j` are in the same class.
    pub closed spec fn together(&self, i: nat, j: nat) -> bool {
        self.uf.reps()[i as int] == self.uf.reps()[j as int]
    }

    /// The number of changes made so far.
    pub closed spec fn spec_revision(&self) -> nat {
        self.revision as nat
    }

    /// The number of changes after which every cell is known.
    pub closed spec fn spec_max_revision(&self) -> nat {
        self.max_revision as nat
    }

    /// The number of classes of keys.
    pub closed spec fn classes(&self) -> nat {
        count_roots(self.uf.reps())
    }

    /// What is known of the side of cell `p`.
    pub open spec fn side_state(&self, p: nat) -> State<Side> {
        relation_state(self.together(key0(p), key0(0)), self.together(key0(p), key1(0)), Side::Out, Side::In)
    }

    /// What is known of the edge between cells `p0` and `p1`.
    pub open spec fn edge_state(&self, p0: nat, p1: nat) -> State<Edge> {
        relation_state(self.together(key0(p0), key0(p1)), self.together(key0(p0), key1(p1)), Edge::Cross, Edge::Line)
    }

    /// Every relation between keys known before is still known afterwards, and every
    /// change since counted one join at least: the revision grows by no more than the
    /// classes shrink; while the revision stays, the map knows exactly what it knew.
    pub open spec fn keeps(&self, after: &SideMap) -> bool {
        &&& after.num_cells() == self.num_cells()
        &&& after.spec_max_revision() == self.spec_max_revision()
        &&& self.spec_revision() <= after.spec_revision()
        &&& after.spec_revision() + after.classes() <= self.spec_revision() + self.classes()
        &&& forall|i: nat, j: nat|
            i < 2 * self.num_cells() && j < 2 * self.num_cells() && #[trigger] self.together(i, j)
                ==> after.together(i, j)
        &&& after.spec_revision() == self.spec_revision() ==> forall|i: nat, j: nat|
            i < 2 * self.num_cells() && j < 2 * self.num_cells() ==> #[trigger] after.together(i, j) == self.together(i, j)
    }

    /// A map for `num_cell` cells where nothing is known; `max_revision` is the number of
    /// changes after which everything is known.
    pub fn new(num_cell: usize, max_revision: u32) -> (r: SideMap)
        requires
            1 <= num_cell,
            2 * num_cell <= u32::MAX,
        ensures
            r.wf(),
            r.num_cells() == num_cell,
            r.spec_revision() == 0,
            r.spec_max_revision() == max_revision,
            forall|i: nat, j: nat| i < 2 * num_cell && j < 2 * num_cell ==> (#[trigger] r.together(i, j) <==> i == j),
    {
        let uf = UnionFind::from_elem(num_cell * 2, ());
        proof {
            lemma_count_roots_identity((num_cell * 2) as nat);
        }
        SideMap { uf: uf, revision: 0, max_revision: max_revision }
    }

    /// The number of changes made so far.
    pub fn revision(&self) -> (r: u32)
        ensures
            r == self.spec_revision(),
    {
        self.revision
    }

    /// Whether every cell is known: as many changes were made as there are cells inside.
    pub fn all_filled(&self) -> (r: bool)
        ensures
            r == (self.spec_revision() == self.spec_max_revision()),
    {
        self.revision == self.max_revision
    }

    /// The number of cells, the outside included.
    pub fn cell_len(&self) -> (r: usize)
        requires
            self.wf(),
        ensures
            r == self.num_cells(),
    {
        self.uf.get_total_size() / 2
    }

    /// What is known of the side of cell `p`.
    pub fn get_side(&mut self, p: CellId) -> (r: State<Side>)
        requires
            old(self).wf(),
            p.spec_id() < old(self).num_cells(),
        ensures
            final(self).wf(),
            r == old(self).side_state(p.spec_id()),
            final(self).same_view(*old(self)),
    {
        let k = p.id() * 2;
        let a = self.uf.find(k, 0);
        let b = self.uf.find(k, 1);
        if a && b {
            State::Conflict
        } else if a {
            State::Fixed(Side::Out)
        } else if b {
            State::Fixed(Side::In)
        } else {
            State::Unknown
        }
    }

    /// What is known of the edge between cells `p0` and `p1`.
    pub fn get_edge(&mut self, p0: CellId, p1: CellId) -> (r: State<Edge>)
        requires
            old(self).wf(),
            p0.spec_id() < old(self).num_cells(),
            p1.spec_id() < old(self).num_cells(),
        ensures
            final(self).wf(),
            r == old(self).edge_state(p0.spec_id(), p1.spec_id()),
            final(self).same_view(*old(self)),
    {
        let k0 = p0.id() * 2;
        let k1 = p1.id() * 2;
        let a = self.uf.find(k0, k1);
        let b = self.uf.find(k0, k1 + 1);
        if a && b {
            State::Conflict
        } else if a {
            State::Fixed(Edge::Cross)
        } else if b {
            State::Fixed(Edge::Line)
        } else {
            State::Unknown
        }
    }

    /// The two maps know the same and have the same revisions.
    pub open spec fn same_view(&self, other: SideMap) -> bool {
        &&& self.num_cells() == other.num_cells()
        &&& self.spec_revision() == other.spec_revision()
        &&& self.spec_max_revision() == other.spec_max_revision()
        &&& self.classes() == other.classes()
        &&& forall|i: nat, j: nat| #[trigger] self.together(i, j) == other.together(i, j)
    }

    /// Records that cell `p` is outside; returns whether anything changed.
    pub fn set_outside(&mut self, p: CellId) -> (r: bool)
        requires
            old(self).wf(),
            p.spec_id() < old(self).num_cells(),
        ensures
            final(self).wf(),
            old(self).set_result(*final(self), p.spec_id(), 0, true, r),
    {
        self.set_same(p, CellId::outside())
    }

    /// Records that cell `p` is inside; returns whether anything changed.
    pub fn set_inside(&mut self, p: CellId) -> (r: bool)
        requires
            old(self).wf(),
            p.spec_id() < old(self).num_cells(),
        ensures
            final(self).wf(),
            old(self).set_result(*final(self), p.spec_id(), 0, false, r),
    {
        self.set_different(p, CellId::outside())
    }

    /// Records the side of cell `p`; returns whether anything changed.
    pub fn set_side(&mut self, p: CellId, ty: Side) -> (r: bool)
        requires
            old(self).wf(),
            p.spec_id() < old(self).num_cells(),
        ensures
            final(self).wf(),
            old(self).set_result(*final(self), p.spec_id(), 0, ty == Side::Out, r),
    {
        match ty {
            Side::In => self.set_inside(p),
            Side::Out => self.set_outside(p),
        }
    }

    /// Records the edge between cells `p0` and `p1`; returns whether anything changed.
    pub fn set_edge(&mut self, p0: CellId, p1: CellId, edge: Edge) -> (r: bool)
        requires
            old(self).wf(),
            p0.spec_id() < old(self).num_cells(),
            p1.spec_id() < old(self).num_cells(),
        ensures
            final(self).wf(),
            old(self).set_result(*final(self), p0.spec_id(), p1.spec_id(), edge == Edge::Cross, r),
    {
        match edge {
            Edge::Cross => self.set_same(p0, p1),
            Edge::Line => self.set_different(p0, p1),
        }
    }

    /// What recording "`p0` and `p1` are on the same side" (`same`) or "on different
    /// sides" (`!same`) does: the classes of the matching keys are joined, the revision
    /// counts one change when anything changed, and `changed` tells whether it did.
    pub open spec fn set_result(&self, after: SideMap, p0: nat, p1: nat, same: bool, changed: bool) -> bool {
        if same {
            self.pair_result(after, key0(p0), key0(p1), key1(p0), key1(p1), changed)
        } else {
            self.pair_result(after, key0(p0), key1(p1), key1(p0), key0(p1), changed)
        }
    }

    /// What joining the classes of keys `a0`, `b0` and then of `a1`, `b1` does.
    pub open spec fn pair_result(&self, after: SideMap, a0: nat, b0: nat, a1: nat, b1: nat, changed: bool) -> bool {
        &&& after.num_cells() == self.num_cells()
        &&& after.spec_max_revision() == self.spec_max_revision()
        &&& changed == !(self.together(a0, b0) && self.together(a1, b1))
        &&& after.spec_revision() == self.spec_revision() + if changed { 1nat } else { 0nat }
        &&& changed ==> after.classes() < self.classes()
        &&& !changed ==> after.classes() == self.classes()
        &&& after.together(a0, b0)
        &&& after.together(a1, b1)
        &&& self.keeps(&after)
        &&& exists|mid: Seq<nat>|
            joined(self.key_reps(), a0 as int, b0 as int, mid) && joined(mid, a1 as int, b1 as int, after.key_reps())
    }

    /// The representative of every key.
    pub closed spec fn key_reps(&self) -> Seq<nat> {
        self.uf.reps()
    }

    /// Records that cells `p0` and `p1` are on the same side; returns whether anything
    /// changed.
    pub fn set_same(&mut self, p0: CellId, p1: CellId) -> (r: bool)
        requires
            old(self).wf(),
            p0.spec_id() < old(self).num_cells(),
            p1.spec_id() < old(self).num_cells(),
        ensures
            final(self).wf(),
            old(self).set_result(*final(self), p0.spec_id(), p1.spec_id(), true, r),
    {
        let a = p0.id() * 2;
        let b = p1.id() * 2;
        self.join_pairs(a, b, a + 1, b + 1)
    }

    /// Records that cells `p0` and `p1` are on different sides; returns whether anything
    /// changed.
    pub fn set_different(&mut self, p0: CellId, p1: CellId) -> (r: bool)
        requires
            old(self).wf(),
            p0.spec_id() < old(self).num_cells(),
            p1.spec_id() < old(self).num_cells(),
        ensures
            final(self).wf(),
            old(self).set_result(*final(self), p0.spec_id(), p1.spec_id(), false, r),
    {
        let a = p0.id() * 2;
        let b = p1.id() * 2;
        self.join_pairs(a, b + 1, a + 1, b)
    }

    fn join_pairs(&mut self, a0: usize, b0: usize, a1: usize, b1: usize) -> (r: bool)
        requires
            old(self).wf(),
            a0 < old(self).uf.spec_size(),
            b0 < old(self).uf.spec_size(),
            a1 < old(self).uf.spec_size(),
            b1 < old(self).uf.spec_size(),
        ensures
            final(self).wf(),
            old(self).pair_result(*final(self), a0 as nat, b0 as nat, a1 as nat, b1 as nat, r),
    {
        let ghost before = *self;
        let c1 = self.uf.union(a0, b0);
        let ghost mid = *self;
        let c2 = self.uf.union(a1, b1);
        proof {
            lemma_count_roots_le_len(self.uf.reps());
            self.uf.lemma_wf(a0 as int);
            before.uf.lemma_wf(a0 as int);
            mid.uf.lemma_wf(a0 as int);
            assert(joined(before.uf.reps(), a0 as int, b0 as int, mid.uf.reps()));
            assert forall|i: nat, j: nat|
                i < 2 * before.num_cells() && j < 2 * before.num_cells() && #[trigger] before.together(i, j)
                    implies self.together(i, j) by {
                assert(mid.uf.reps()[i as int] == mid.uf.reps()[j as int]);
            }
            assert(self.together(a0 as nat, b0 as nat)) by {
                assert(mid.uf.reps()[a0 as int] == mid.uf.reps()[b0 as int]);
            }
        }
        let changed = c1 || c2;
        if changed {
            self.revision = self.revision + 1;
        }
        proof {
            let m = mid.uf.reps();
            assert(joined(before.key_reps(), a0 as int, b0 as int, m) && joined(m, a1 as int, b1 as int, self.key_reps()));
            if before.together(a0 as nat, b0 as nat) {
                assert(m[a1 as int] == m[b1 as int] <==> before.together(a1 as nat, b1 as nat));
            }
            assert(changed == !(before.together(a0 as nat, b0 as nat) && before.together(a1 as nat, b1 as nat)));
        }
        changed
    }
    /// A copy of the map.
    pub fn duplicate(&self) -> (r: SideMap)
        ensures
            r.wf() == self.wf(),
            r.same_view(*self),
            r.key_reps() == self.key_reps(),
    {
        SideMap { uf: self.uf.duplicate(), revision: self.revision, max_revision: self.max_revision }
    }

}


/// The cell id of `p` in a grid of size `s`.
pub open spec fn cell_of(s: Size, p: Point) -> nat {
    s.spec_point_to_cellid(p)
}

/// Under the cell sides `a` (`true`: inside), the edge between cells `c0` and `c1` is `e`.
pub open spec fn edge_holds(a: Seq<bool>, c0: nat, c1: nat, e: Edge) -> bool {
    (a[c0 as int] == a[c1 as int]) == (e == Edge::Cross)
}

/// The cell sides `a` agree with what the puzzle states at the inside point `p`: its
/// side, the edge above it and the edge on its left.
pub open spec fn agrees_point(a: Seq<bool>, puzzle: Puzzle, p: Point) -> bool {
    let s = puzzle.spec_size();
    let c = cell_of(s, p);
    &&& (puzzle.side_at(p) matches Some(sd) ==> a[c as int] == (sd == Side::In))
    &&& (puzzle.edge_h_at(p) matches Some(e) ==> edge_holds(a, c, cell_of(s, Point((p.0 - 1) as i32, p.1)), e))
    &&& (puzzle.edge_v_at(p) matches Some(e) ==> edge_holds(a, c, cell_of(s, Point(p.0, (p.1 - 1) as i32)), e))
}

/// The cell sides `a` agree with the vertical edge on the right border in row `r`.
pub open spec fn agrees_right(a: Seq<bool>, puzzle: Puzzle, r: int) -> bool {
    let s = puzzle.spec_size();
    let p = Point(r as i32, s.1);
    puzzle.edge_v_at(p) matches Some(e) ==> edge_holds(a, cell_of(s, p), cell_of(s, Point(r as i32, (s.1 - 1) as i32)), e)
}

/// The cell sides `a` agree with the horizontal edge on the bottom border in column `c`.
pub open spec fn agrees_bottom(a: Seq<bool>, puzzle: Puzzle, c: int) -> bool {
    let s = puzzle.spec_size();
    let p = Point(s.0, c as i32);
    puzzle.edge_h_at(p) matches Some(e) ==> edge_holds(a, cell_of(s, p), cell_of(s, Point((s.0 - 1) as i32, c as i32)), e)
}

/// The cell sides `a` of the puzzle's cells, the outside cell outside, agree with every
/// side and edge the puzzle states.
pub open spec fn agrees(a: Seq<bool>, puzzle: Puzzle) -> bool {
    let s = puzzle.spec_size();
    &&& a.len() == s.spec_cell_len()
    &&& !a[0]
    &&& forall|p: Point| s.spec_contains(p) ==> #[trigger] agrees_point(a, puzzle, p)
    &&& forall|r: int| 0 <= r < s.0 ==> #[trigger] agrees_right(a, puzzle, r)
    &&& forall|c: int| 0 <= c < s.1 ==> #[trigger] agrees_bottom(a, puzzle, c)
}

/// The value a state stands for in a puzzle: the fixed value, or nothing.
pub open spec fn state_value<T>(st: State<T>) -> Option<T> {
    match st {
        State::Fixed(v) => Some(v),
        _ => None,
    }
}

impl SideMap {
    /// It is known that cell `p` is on side `s`.
    pub open spec fn knows_side(&self, p: nat, s: Side) -> bool {
        self.together(key0(p), if s == Side::Out { key0(0) } else { key1(0) })
    }

    /// It is known that the edge between cells `p0` and `p1` is `e`.
    pub open spec fn knows_edge(&self, p0: nat, p1: nat, e: Edge) -> bool {
        self.together(key0(p0), if e == Edge::Cross { key0(p1) } else { key1(p1) })
    }

    /// Everything the puzzle states at the inside point `p` is known: its side, the edge
    /// above it and the edge on its left.
    pub open spec fn knows_point(&self, puzzle: Puzzle, p: Point) -> bool {
        let s = puzzle.spec_size();
        let c = cell_of(s, p);
        &&& (puzzle.side_at(p) matches Some(sd) ==> self.knows_side(c, sd))
        &&& (puzzle.edge_h_at(p) matches Some(e) ==> self.knows_edge(c, cell_of(s, Point((p.0 - 1) as i32, p.1)), e))
        &&& (puzzle.edge_v_at(p) matches Some(e) ==> self.knows_edge(c, cell_of(s, Point(p.0, (p.1 - 1) as i32)), e))
    }

    /// The vertical edge on the left of the border point `(r, columns)` is known.
    pub open spec fn knows_right_border(&self, puzzle: Puzzle, r: int) -> bool {
        let s = puzzle.spec_size();
        let p = Point(r as i32, s.1);
        puzzle.edge_v_at(p) matches Some(e) ==> self.knows_edge(cell_of(s, p), cell_of(s, Point(r as i32, (s.1 - 1) as i32)), e)
    }

    /// The horizontal edge above the border point `(rows, c)` is known.
    pub open spec fn knows_bottom_border(&self, puzzle: Puzzle, c: int) -> bool {
        let s = puzzle.spec_size();
        let p = Point(s.0, c as i32);
        puzzle.edge_h_at(p) matches Some(e) ==> self.knows_edge(cell_of(s, p), cell_of(s, Point((s.0 - 1) as i32, c as i32)), e)
    }

    /// A map that keeps everything another one knows knows what that one knows of a puzzle.
    pub proof fn lemma_keeps_knowledge(&self, after: &SideMap, puzzle: Puzzle)
        requires
            self.keeps(after),
            puzzle.wf(),
            self.num_cells() == puzzle.spec_size().spec_cell_len(),
        ensures
            forall|p: Point| puzzle.spec_size().spec_contains(p) && #[trigger] self.knows_point(puzzle, p) ==> after.knows_point(puzzle, p),
            forall|r: int| 0 <= r < puzzle.spec_size().0 && #[trigger] self.knows_right_border(puzzle, r) ==> after.knows_right_border(puzzle, r),
            forall|c: int| 0 <= c < puzzle.spec_size().1 && #[trigger] self.knows_bottom_border(puzzle, c) ==> after.knows_bottom_border(puzzle, c),
    {
        let s = puzzle.spec_size();
        puzzle.lemma_lengths();
        assert forall|p: Point| s.spec_contains(p) && #[trigger] self.knows_point(puzzle, p) implies after.knows_point(puzzle, p) by {
            let c = cell_of(s, p);
            lemma_cell_bound(s, p);
            lemma_cell_bound(s, Point((p.0 - 1) as i32, p.1));
            lemma_cell_bound(s, Point(p.0, (p.1 - 1) as i32));
            lemma_cell_bound(s, Point(0, 0));
        }
        assert forall|r: int| 0 <= r < s.0 && #[trigger] self.knows_right_border(puzzle, r) implies after.knows_right_border(puzzle, r) by {
            lemma_cell_bound(s, Point(r as i32, s.1));
            lemma_cell_bound(s, Point(r as i32, (s.1 - 1) as i32));
        }
        assert forall|c: int| 0 <= c < s.1 && #[trigger] self.knows_bottom_border(puzzle, c) implies after.knows_bottom_border(puzzle, c) by {
            lemma_cell_bound(s, Point(s.0, c as i32));
            lemma_cell_bound(s, Point((s.0 - 1) as i32, c as i32));
        }
    }

    /// A map of the cells of `puzzle` that knows every side and edge the puzzle states.
    pub fn from_puzzle(puzzle: &Puzzle) -> (r: SideMap)
        requires
            puzzle.wf(),
        ensures
            r.wf(),
            r.num_cells() == puzzle.spec_size().spec_cell_len(),
            r.spec_max_revision() == puzzle.spec_size().0 * puzzle.spec_size().1,
            forall|p: Point| puzzle.spec_size().spec_contains(p) ==> #[trigger] r.knows_point(*puzzle, p),
            forall|row: int| 0 <= row < puzzle.spec_size().0 ==> #[trigger] r.knows_right_border(*puzzle, row),
            forall|col: int| 0 <= col < puzzle.spec_size().1 ==> #[trigger] r.knows_bottom_border(*puzzle, col),
            forall|a: Seq<bool>| agrees(a, *puzzle) ==> #[trigger] r.admits(a),
    {
        let size = puzzle.size();
        proof {
            puzzle.lemma_lengths();
            crate::geom::lemma_index_in_grid(size, Point((size.0 - 1) as i32, (size.1 - 1) as i32));
        }
        let num_cell = size.cell_len();
        let mut map = SideMap::new(num_cell, (size.0 * size.1) as u32);
        proof {
            assert forall|a: Seq<bool>| agrees(a, *puzzle) implies #[trigger] map.admits(a) by {
                assert forall|i: nat, j: nat| i < 2 * map.num_cells() && j < 2 * map.num_cells() && #[trigger] map.together(i, j)
                    implies key_value(a, i) == key_value(a, j) by {
                    assert(i == j);
                }
            }
        }
        let mut r: i32 = 0;
        while r < size.0
            invariant
                puzzle.wf(),
                size == puzzle.spec_size(),
                valid_puzzle_size(size),
                0 <= r <= size.0,
                map.wf(),
                map.num_cells() == size.spec_cell_len(),
                map.spec_max_revision() == size.0 * size.1,
                forall|p: Point| size.spec_contains(p) && p.0 < r ==> #[trigger] map.knows_point(*puzzle, p),
                forall|a: Seq<bool>| agrees(a, *puzzle) ==> #[trigger] map.admits(a),
            decreases size.0 - r,
        {
            let mut c: i32 = 0;
            while c < size.1
                invariant
                    puzzle.wf(),
                    size == puzzle.spec_size(),
                    valid_puzzle_size(size),
                    0 <= r < size.0,
                    0 <= c <= size.1,
                    map.wf(),
                    map.num_cells() == size.spec_cell_len(),
                    map.spec_max_revision() == size.0 * size.1,
                    forall|p: Point| size.spec_contains(p) && (p.0 < r || (p.0 == r && p.1 < c)) ==> #[trigger] map.knows_point(*puzzle, p),
                    forall|a: Seq<bool>| agrees(a, *puzzle) ==> #[trigger] map.admits(a),
                decreases size.1 - c,
            {
                let p = Point(r, c);
                let cp = size.point_to_cellid(p);
                let cp_u = size.point_to_cellid(p.add(Move::up()));
                let cp_l = size.point_to_cellid(p.add(Move::left()));
                let ghost m0 = map;
                proof {
                    lemma_cell_bound(size, Point(0, 0));
                }
                if let Some(side) = puzzle.side(p) {
                    let changed = map.set_side(cp, side);
                    proof {
                        assert forall|a: Seq<bool>| agrees(a, *puzzle) implies #[trigger] map.admits(a) by {
                            assert(m0.admits(a));
                            assert(agrees_point(a, *puzzle, p));
                            m0.lemma_set_result_admits(map, cp.spec_id(), 0, side == Side::Out, changed, a);
                        }
                    }
                }
                let ghost m1 = map;
                if let Some(edge) = puzzle.edge_h(p) {
                    let changed = map.set_edge(cp, cp_u, edge);
                    proof {
                        assert forall|a: Seq<bool>| agrees(a, *puzzle) implies #[trigger] map.admits(a) by {
                            assert(m1.admits(a));
                            assert(agrees_point(a, *puzzle, p));
                            m1.lemma_set_result_admits(map, cp.spec_id(), cp_u.spec_id(), edge == Edge::Cross, changed, a);
                        }
                    }
                }
                let ghost m2 = map;
                if let Some(edge) = puzzle.edge_v(p) {
                    let changed = map.set_edge(cp, cp_l, edge);
                    proof {
                        assert forall|a: Seq<bool>| agrees(a, *puzzle) implies #[trigger] map.admits(a) by {
                            assert(m2.admits(a));
                            assert(agrees_point(a, *puzzle, p));
                            m2.lemma_set_result_admits(map, cp.spec_id(), cp_l.spec_id(), edge == Edge::Cross, changed, a);
                        }
                    }
                }
                proof {
                    m0.lemma_keeps_transitive(&m1, &m2);
                    m0.lemma_keeps_transitive(&m2, &map);
                    m1.lemma_keeps_transitive(&m2, &map);
                    m0.lemma_keeps_knowledge(&map, *puzzle);
                    lemma_cell_bound(size, Point(0, 0));
                    assert(map.knows_point(*puzzle, p));
                    assert forall|q: Point| size.spec_contains(q) && (q.0 < r || (q.0 == r && q.1 < c + 1))
                        implies #[trigger] map.knows_point(*puzzle, q) by {
                        if q != p {
                            assert(m0.knows_point(*puzzle, q));
                        }
                    }
                }
                c = c + 1;
            }
            r = r + 1;
        }
        let mut r: i32 = 0;
        while r < size.0
            invariant
                puzzle.wf(),
                size == puzzle.spec_size(),
                valid_puzzle_size(size),
                0 <= r <= size.0,
                map.wf(),
                map.num_cells() == size.spec_cell_len(),
                map.spec_max_revision() == size.0 * size.1,
                forall|p: Point| size.spec_contains(p) ==> #[trigger] map.knows_point(*puzzle, p),
                forall|row: int| 0 <= row < r ==> #[trigger] map.knows_right_border(*puzzle, row),
                forall|a: Seq<bool>| agrees(a, *puzzle) ==> #[trigger] map.admits(a),
            decreases size.0 - r,
        {
            let p = Point(r, size.1);
            let cp = size.point_to_cellid(p);
            let cp_l = size.point_to_cellid(p.add(Move::left()));
            let ghost m0 = map;
            if let Some(edge) = puzzle.edge_v(p) {
                let changed = map.set_edge(cp, cp_l, edge);
                proof {
                    assert forall|a: Seq<bool>| agrees(a, *puzzle) implies #[trigger] map.admits(a) by {
                        assert(m0.admits(a));
                        assert(agrees_right(a, *puzzle, r as int));
                        m0.lemma_set_result_admits(map, cp.spec_id(), cp_l.spec_id(), edge == Edge::Cross, changed, a);
                    }
                }
            }
            proof {
                m0.lemma_keeps_knowledge(&map, *puzzle);
                lemma_cell_bound(size, Point(0, 0));
                assert forall|q: Point| size.spec_contains(q) implies #[trigger] map.knows_point(*puzzle, q) by {
                    assert(m0.knows_point(*puzzle, q));
                }
                assert forall|row: int| 0 <= row < r + 1 implies #[trigger] map.knows_right_border(*puzzle, row) by {
                    if row < r {
                        assert(m0.knows_right_border(*puzzle, row));
                    }
                }
            }
            r = r + 1;
        }
        let mut c: i32 = 0;
        while c < size.1
            invariant
                puzzle.wf(),
                size == puzzle.spec_size(),
                valid_puzzle_size(size),
                0 <= c <= size.1,
                map.wf(),
                map.num_cells() == size.spec_cell_len(),
                map.spec_max_revision() == size.0 * size.1,
                forall|p: Point| size.spec_contains(p) ==> #[trigger] map.knows_point(*puzzle, p),
                forall|row: int| 0 <= row < size.0 ==> #[trigger] map.knows_right_border(*puzzle, row),
                forall|col: int| 0 <= col < c ==> #[trigger] map.knows_bottom_border(*puzzle, col),
                forall|a: Seq<bool>| agrees(a, *puzzle) ==> #[trigger] map.admits(a),
            decreases size.1 - c,
        {
            let p = Point(size.0, c);
            let cp = size.point_to_cellid(p);
            let cp_u = size.point_to_cellid(p.add(Move::up()));
            let ghost m0 = map;
            if let Some(edge) = puzzle.edge_h(p) {
                let changed = map.set_edge(cp, cp_u, edge);
                proof {
                    assert forall|a: Seq<bool>| agrees(a, *puzzle) implies #[trigger] map.admits(a) by {
                        assert(m0.admits(a));
                        assert(agrees_bottom(a, *puzzle, c as int));
                        m0.lemma_set_result_admits(map, cp.spec_id(), cp_u.spec_id(), edge == Edge::Cross, changed, a);
                    }
                }
            }
            proof {
                m0.lemma_keeps_knowledge(&map, *puzzle);
                lemma_cell_bound(size, Point(0, 0));
                assert forall|q: Point| size.spec_contains(q) implies #[trigger] map.knows_point(*puzzle, q) by {
                    assert(m0.knows_point(*puzzle, q));
                }
                assert forall|row: int| 0 <= row < size.0 implies #[trigger] map.knows_right_border(*puzzle, row) by {
                    assert(m0.knows_right_border(*puzzle, row));
                }
                assert forall|col: int| 0 <= col < c + 1 implies #[trigger] map.knows_bottom_border(*puzzle, col) by {
                    if col < c {
                        assert(m0.knows_bottom_border(*puzzle, col));
                    }
                }
            }
            c = c + 1;
        }
        map
    }

    /// Being together is an equivalence.
    pub proof fn lemma_together_equiv(&self, i: nat, j: nat, k: nat)
        ensures
            self.together(i, i),
            self.together(i, j) == self.together(j, i),
            self.together(i, j) && self.together(j, k) ==> self.together(i, k),
    {
    }

    /// Keeping is transitive.
    pub proof fn lemma_keeps_transitive(&self, b: &SideMap, c: &SideMap)
        requires
            self.keeps(b),
            b.keeps(c),
        ensures
            self.keeps(c),
    {
    }
}

/// Cell ids of a grid are below its cell count.
pub proof fn lemma_cell_bound(s: Size, p: Point)
    requires
        valid_size(s),
    ensures
        cell_of(s, p) < s.spec_cell_len(),
{
    if s.spec_contains(p) {
        crate::geom::lemma_index_in_grid(s, p);
    }
}


impl SideMap {
    /// The puzzle shows at the inside point `p` what the map knows: its side, the edge
    /// above it and the edge on its left.
    pub open spec fn shown_point(&self, puzzle: Puzzle, size: Size, p: Point) -> bool {
        let c = cell_of(size, p);
        &&& puzzle.side_at(p) == state_value(self.side_state(c))
        &&& puzzle.edge_h_at(p) == state_value(self.edge_state(c, cell_of(size, Point((p.0 - 1) as i32, p.1))))
        &&& puzzle.edge_v_at(p) == state_value(self.edge_state(c, cell_of(size, Point(p.0, (p.1 - 1) as i32))))
    }

    /// The map knows nothing contradictory about the inside point `p`.
    pub open spec fn consistent_point(&self, size: Size, p: Point) -> bool {
        let c = cell_of(size, p);
        &&& self.side_state(c) != State::<Side>::Conflict
        &&& self.edge_state(c, cell_of(size, Point((p.0 - 1) as i32, p.1))) != State::<Edge>::Conflict
        &&& self.edge_state(c, cell_of(size, Point(p.0, (p.1 - 1) as i32))) != State::<Edge>::Conflict
    }

    /// The edge on the left of the border point `(r, columns)`.
    pub open spec fn right_border_state(&self, size: Size, r: int) -> State<Edge> {
        self.edge_state(cell_of(size, Point(r as i32, size.1)), cell_of(size, Point(r as i32, (size.1 - 1) as i32)))
    }

    /// The edge above the border point `(rows, c)`.
    pub open spec fn bottom_border_state(&self, size: Size, c: int) -> State<Edge> {
        self.edge_state(cell_of(size, Point(size.0, c as i32)), cell_of(size, Point((size.0 - 1) as i32, c as i32)))
    }

    /// Nothing the map knows about a grid of size `size` is contradictory.
    pub open spec fn consistent(&self, size: Size) -> bool {
        &&& forall|p: Point| size.spec_contains(p) ==> #[trigger] self.consistent_point(size, p)
        &&& forall|r: int| 0 <= r < size.0 ==> #[trigger] self.right_border_state(size, r) != State::<Edge>::Conflict
        &&& forall|c: int| 0 <= c < size.1 ==> #[trigger] self.bottom_border_state(size, c) != State::<Edge>::Conflict
    }

    /// Writes what the map knows into the puzzle: every side and every edge. Fails when
    /// something known is contradictory; the puzzle may then be partly written.
    pub fn complete_puzzle(&mut self, puzzle: &mut Puzzle) -> (r: SolverResult<()>)
        requires
            old(self).wf(),
            old(puzzle).wf(),
            old(self).num_cells() == old(puzzle).spec_size().spec_cell_len(),
        ensures
            final(self).wf(),
            final(self).same_view(*old(self)),
            final(puzzle).wf(),
            final(puzzle).spec_size() == old(puzzle).spec_size(),
            final(puzzle).hint_cells() == old(puzzle).hint_cells(),
            forall|q: Point| #[trigger] final(puzzle).hint_at(q) == old(puzzle).hint_at(q),
            r is Ok <==> old(self).consistent(old(puzzle).spec_size()),
            r is Ok ==> forall|p: Point| old(puzzle).spec_size().spec_contains(p) ==> #[trigger] old(self).shown_point(*final(puzzle), old(puzzle).spec_size(), p),
            r is Ok ==> forall|row: int| 0 <= row < old(puzzle).spec_size().0 ==> #[trigger] final(puzzle).edge_v_at(Point(row as i32, old(puzzle).spec_size().1)) == state_value(old(self).right_border_state(old(puzzle).spec_size(), row)),
            r is Ok ==> forall|col: int| 0 <= col < old(puzzle).spec_size().1 ==> #[trigger] final(puzzle).edge_h_at(Point(old(puzzle).spec_size().0, col as i32)) == state_value(old(self).bottom_border_state(old(puzzle).spec_size(), col)),
            r is Err ==> r->Err_0.spec_kind() == ErrorKind::InvalidBoard,
    {
        let ghost map0 = *self;
        let ghost pz0 = *puzzle;
        let size = puzzle.size();
        proof {
            puzzle.lemma_lengths();
            lemma_cell_bound(size, Point(0, 0));
        }
        let mut r: i32 = 0;
        while r < size.0
            invariant
                map0 == *old(self),
                pz0 == *old(puzzle),
                self.wf(),
                self.same_view(map0),
                puzzle.wf(),
                size == puzzle.spec_size(),
                size == pz0.spec_size(),
                valid_puzzle_size(size),
                self.num_cells() == size.spec_cell_len(),
                0 <= r <= size.0,
                puzzle.hint_cells() == pz0.hint_cells(),
                forall|q: Point| #[trigger] puzzle.hint_at(q) == pz0.hint_at(q),
                forall|p: Point| size.spec_contains(p) && p.0 < r ==> #[trigger] map0.shown_point(*puzzle, size, p),
                forall|p: Point| size.spec_contains(p) && p.0 < r ==> #[trigger] map0.consistent_point(size, p),
            decreases size.0 - r,
        {
            let mut c: i32 = 0;
            while c < size.1
                invariant
                    map0 == *old(self),
                    pz0 == *old(puzzle),
                    self.wf(),
                    self.same_view(map0),
                    puzzle.wf(),
                    size == puzzle.spec_size(),
                    size == pz0.spec_size(),
                    valid_puzzle_size(size),
                    self.num_cells() == size.spec_cell_len(),
                    0 <= r < size.0,
                    0 <= c <= size.1,
                    puzzle.hint_cells() == pz0.hint_cells(),
                    forall|q: Point| #[trigger] puzzle.hint_at(q) == pz0.hint_at(q),
                    forall|p: Point| size.spec_contains(p) && (p.0 < r || (p.0 == r && p.1 < c)) ==> #[trigger] map0.shown_point(*puzzle, size, p),
                    forall|p: Point| size.spec_contains(p) && (p.0 < r || (p.0 == r && p.1 < c)) ==> #[trigger] map0.consistent_point(size, p),
                decreases size.1 - c,
            {
                let p = Point(r, c);
                let cp = size.point_to_cellid(p);
                let cp_u = size.point_to_cellid(p.add(Move::up()));
                let cp_l = size.point_to_cellid(p.add(Move::left()));
                let ghost pz1 = *puzzle;
                let side = match self.get_side(cp).into_result() {
                    Ok(v) => v,
                    Err(e) => {
                        proof {
                            assert(!map0.consistent_point(size, p));
                        }
                        return Err(e);
                    },
                };
                let edge_h = match self.get_edge(cp, cp_u).into_result() {
                    Ok(v) => v,
                    Err(e) => {
                        proof {
                            assert(!map0.consistent_point(size, p));
                        }
                        return Err(e);
                    },
                };
                let edge_v = match self.get_edge(cp, cp_l).into_result() {
                    Ok(v) => v,
                    Err(e) => {
                        proof {
                            assert(!map0.consistent_point(size, p));
                        }
                        return Err(e);
                    },
                };
                puzzle.set_side(p, side);
                puzzle.set_edge_h(p, edge_h);
                puzzle.set_edge_v(p, edge_v);
                proof {
                    assert forall|q: Point| size.spec_contains(q) && (q.0 < r || (q.0 == r && q.1 < c + 1))
                        implies #[trigger] map0.shown_point(*puzzle, size, q) by {
                        if q != p {
                            lemma_slot_of_inside(size, p, q);
                            assert(map0.shown_point(pz1, size, q));
                        }
                    }
                    assert forall|q: Point| size.spec_contains(q) && (q.0 < r || (q.0 == r && q.1 < c + 1))
                        implies #[trigger] map0.consistent_point(size, q) by {
                        if q == p {
                        }
                    }
                }
                c = c + 1;
            }
            r = r + 1;
        }
        let mut r: i32 = 0;
        while r < size.0
            invariant
                map0 == *old(self),
                pz0 == *old(puzzle),
                self.wf(),
                self.same_view(map0),
                puzzle.wf(),
                size == puzzle.spec_size(),
                size == pz0.spec_size(),
                valid_puzzle_size(size),
                self.num_cells() == size.spec_cell_len(),
                0 <= r <= size.0,
                puzzle.hint_cells() == pz0.hint_cells(),
                forall|q: Point| #[trigger] puzzle.hint_at(q) == pz0.hint_at(q),
                forall|p: Point| size.spec_contains(p) ==> #[trigger] map0.shown_point(*puzzle, size, p),
                forall|p: Point| size.spec_contains(p) ==> #[trigger] map0.consistent_point(size, p),
                forall|row: int| 0 <= row < r ==> #[trigger] puzzle.edge_v_at(Point(row as i32, size.1)) == state_value(map0.right_border_state(size, row)),
                forall|row: int| 0 <= row < r ==> #[trigger] map0.right_border_state(size, row) != State::<Edge>::Conflict,
            decreases size.0 - r,
        {
            let p = Point(r, size.1);
            let cp = size.point_to_cellid(p);
            let cp_l = size.point_to_cellid(p.add(Move::left()));
            let ghost pz1 = *puzzle;
            let edge_v = match self.get_edge(cp, cp_l).into_result() {
                Ok(v) => v,
                Err(e) => {
                    proof {
                        assert(map0.right_border_state(size, r as int) == State::<Edge>::Conflict);
                    }
                    return Err(e);
                },
            };
            puzzle.set_edge_v(p, edge_v);
            proof {
                let vs = Size(size.0, (size.1 + 1) as i32);
                assert forall|q: Point| size.spec_contains(q) implies #[trigger] map0.shown_point(*puzzle, size, q) by {
                    lemma_slot_distinct(vs, p, q);
                    assert(map0.shown_point(pz1, size, q));
                }
                assert forall|row: int| 0 <= row < r + 1 implies #[trigger] puzzle.edge_v_at(Point(row as i32, size.1)) == state_value(map0.right_border_state(size, row)) by {
                    if row < r {
                        lemma_slot_distinct(vs, p, Point(row as i32, size.1));
                        assert(pz1.edge_v_at(Point(row as i32, size.1)) == state_value(map0.right_border_state(size, row)));
                    }
                }
                assert forall|row: int| 0 <= row < r + 1 implies #[trigger] map0.right_border_state(size, row) != State::<Edge>::Conflict by {}
            }
            r = r + 1;
        }
        let mut c: i32 = 0;
        while c < size.1
            invariant
                map0 == *old(self),
                pz0 == *old(puzzle),
                self.wf(),
                self.same_view(map0),
                puzzle.wf(),
                size == puzzle.spec_size(),
                size == pz0.spec_size(),
                valid_puzzle_size(size),
                self.num_cells() == size.spec_cell_len(),
                0 <= c <= size.1,
                puzzle.hint_cells() == pz0.hint_cells(),
                forall|q: Point| #[trigger] puzzle.hint_at(q) == pz0.hint_at(q),
                forall|p: Point| size.spec_contains(p) ==> #[trigger] map0.shown_point(*puzzle, size, p),
                forall|p: Point| size.spec_contains(p) ==> #[trigger] map0.consistent_point(size, p),
                forall|row: int| 0 <= row < size.0 ==> #[trigger] puzzle.edge_v_at(Point(row as i32, size.1)) == state_value(map0.right_border_state(size, row)),
                forall|row: int| 0 <= row < size.0 ==> #[trigger] map0.right_border_state(size, row) != State::<Edge>::Conflict,
                forall|col: int| 0 <= col < c ==> #[trigger] puzzle.edge_h_at(Point(size.0, col as i32)) == state_value(map0.bottom_border_state(size, col)),
                forall|col: int| 0 <= col < c ==> #[trigger] map0.bottom_border_state(size, col) != State::<Edge>::Conflict,
            decreases size.1 - c,
        {
            let p = Point(size.0, c);
            let cp = size.point_to_cellid(p);
            let cp_u = size.point_to_cellid(p.add(Move::up()));
            let ghost pz1 = *puzzle;
            let edge_h = match self.get_edge(cp, cp_u).into_result() {
                Ok(v) => v,
                Err(e) => {
                    proof {
                        assert(map0.bottom_border_state(size, c as int) == State::<Edge>::Conflict);
                    }
                    return Err(e);
                },
            };
            puzzle.set_edge_h(p, edge_h);
            proof {
                let hs = Size((size.0 + 1) as i32, size.1);
                assert forall|q: Point| size.spec_contains(q) implies #[trigger] map0.shown_point(*puzzle, size, q) by {
                    lemma_slot_distinct(hs, p, q);
                    assert(map0.shown_point(pz1, size, q));
                }
                assert forall|col: int| 0 <= col < c + 1 implies #[trigger] puzzle.edge_h_at(Point(size.0, col as i32)) == state_value(map0.bottom_border_state(size, col)) by {
                    if col < c {
                        lemma_slot_distinct(hs, p, Point(size.0, col as i32));
                        assert(pz1.edge_h_at(Point(size.0, col as i32)) == state_value(map0.bottom_border_state(size, col)));
                    }
                }
                assert forall|col: int| 0 <= col < c + 1 implies #[trigger] map0.bottom_border_state(size, col) != State::<Edge>::Conflict by {}
            }
            c = c + 1;
        }
        Ok(())
    }
}

/// Writing at an inside point of a puzzle touches no other inside point of any of its
/// tables.
pub proof fn lemma_slot_of_inside(size: Size, p: Point, q: Point)
    requires
        valid_puzzle_size(size),
        size.spec_contains(p),
        size.spec_contains(q),
        p != q,
    ensures
        !same_slot(size, p, q),
        !same_slot(Size(size.0, (size.1 + 1) as i32), p, q),
        !same_slot(Size((size.0 + 1) as i32, size.1), p, q),
{
    if same_slot(size, p, q) {
        lemma_grid_index_injective(size, p, q);
    }
    if same_slot(Size(size.0, (size.1 + 1) as i32), p, q) {
        lemma_grid_index_injective(Size(size.0, (size.1 + 1) as i32), p, q);
    }
    if same_slot(Size((size.0 + 1) as i32, size.1), p, q) {
        lemma_grid_index_injective(Size((size.0 + 1) as i32, size.1), p, q);
    }
}

/// Two different points inside a table use different slots.
pub proof fn lemma_slot_distinct(s: Size, p: Point, q: Point)
    requires
        s.spec_contains(p),
        s.spec_contains(q),
        p != q,
    ensures
        !same_slot(s, p, q),
{
    if same_slot(s, p, q) {
        lemma_grid_index_injective(s, p, q);
    }
}

/// The side of the class of key `k` under the cell sides `a` (`true`: inside): key `2c`
/// stands for the side of `c`, key `2c + 1` for the other side.
pub open spec fn key_value(a: Seq<bool>, k: nat) -> bool {
    if k % 2 == 0 {
        a[(k / 2) as int]
    } else {
        !a[(k / 2) as int]
    }
}

impl SideMap {
    /// A consistent map has a cell at least: the outside.
    pub proof fn lemma_has_cells(&self)
        requires
            self.wf(),
        ensures
            self.num_cells() >= 1,
    {
    }

    /// The cell sides `a` (`true`: inside) agree with everything the map knows, and the
    /// outside is outside.
    pub open spec fn admits(&self, a: Seq<bool>) -> bool {
        &&& a.len() == self.num_cells()
        &&& self.num_cells() >= 1
        &&& !a[0]
        &&& forall|i: nat, j: nat|
            i < 2 * self.num_cells() && j < 2 * self.num_cells() && #[trigger] self.together(i, j) ==> key_value(a, i)
                == key_value(a, j)
    }

    /// Recording a relation that the cell sides `a` satisfy keeps `a` admitted.
    pub proof fn lemma_set_result_admits(&self, after: SideMap, p0: nat, p1: nat, same: bool, changed: bool, a: Seq<bool>)
        requires
            self.wf(),
            after.wf(),
            self.set_result(after, p0, p1, same, changed),
            self.admits(a),
            p0 < self.num_cells(),
            p1 < self.num_cells(),
            (a[p0 as int] == a[p1 as int]) == same,
        ensures
            after.admits(a),
    {
        let n = self.num_cells();
        let (a0, b0, a1, b1) = if same {
            (key0(p0), key0(p1), key1(p0), key1(p1))
        } else {
            (key0(p0), key1(p1), key1(p0), key0(p1))
        };
        assert(self.pair_result(after, a0, b0, a1, b1, changed));
        let old_reps = self.key_reps();
        let new_reps = after.key_reps();
        let mid = choose|mid: Seq<nat>|
            joined(old_reps, a0 as int, b0 as int, mid) && joined(mid, a1 as int, b1 as int, new_reps);
        self.uf.lemma_wf(0);
        after.uf.lemma_wf(0);
        assert(old_reps.len() == 2 * n);
        assert(key_value(a, a0) == key_value(a, b0));
        assert(key_value(a, a1) == key_value(a, b1));
        assert forall|i: nat, j: nat|
            i < 2 * n && j < 2 * n && mid[i as int] == mid[j as int] implies key_value(a, i) == key_value(a, j) by {
            assert(self.together(i, a0) ==> key_value(a, i) == key_value(a, a0));
            assert(self.together(j, a0) ==> key_value(a, j) == key_value(a, a0));
            assert(self.together(i, b0) ==> key_value(a, i) == key_value(a, b0));
            assert(self.together(j, b0) ==> key_value(a, j) == key_value(a, b0));
            assert(self.together(i, j) ==> key_value(a, i) == key_value(a, j));
        }
        assert forall|i: nat, j: nat|
            i < 2 * n && j < 2 * n && #[trigger] after.together(i, j) implies key_value(a, i) == key_value(a, j) by {
            assert(new_reps[i as int] == new_reps[j as int]);
            if mid[i as int] == mid[a1 as int] && mid[j as int] == mid[b1 as int] {
            } else if mid[i as int] == mid[b1 as int] && mid[j as int] == mid[a1 as int] {
            } else {
                assert(mid[i as int] == mid[j as int]);
            }
        }
    }
}


/// Two maps that know the same admit the same cell sides.
pub proof fn lemma_same_view_admits(m0: SideMap, m1: SideMap, a: Seq<bool>)
    requires
        m1.same_view(m0),
        m0.admits(a),
    ensures
        m1.admits(a),
{
    assert forall|i: nat, j: nat|
        i < 2 * m1.num_cells() && j < 2 * m1.num_cells() && #[trigger] m1.together(i, j) implies key_value(
        a,
        i,
    ) == key_value(a, j) by {
        assert(m0.together(i, j));
    }
}

/// A map with an edge in conflict admits no cell sides.
pub proof fn lemma_conflict_admits_none(sm: SideMap, a: Seq<bool>, c0: nat, c1: nat)
    requires
        sm.edge_state(c0, c1) == State::<Edge>::Conflict,
        c0 < sm.num_cells(),
        c1 < sm.num_cells(),
    ensures
        !sm.admits(a),
{
    if sm.admits(a) {
        lemma_edge_admitted(sm, a, c0, c1);
        let k0 = key0(c0);
        let k1 = key0(c1);
        let k2 = key1(c1);
        assert(k0 / 2 == c0 && k0 % 2 == 0);
        assert(k1 / 2 == c1 && k1 % 2 == 0);
        assert(k2 / 2 == c1 && k2 % 2 == 1);
        assert(key_value(a, k0) == key_value(a, k1));
        assert(key_value(a, k0) == key_value(a, k2));
    }
}

/// A known edge agrees with cell sides that the map admits.
pub proof fn lemma_edge_admitted(sm: SideMap, a: Seq<bool>, c0: nat, c1: nat)
    requires
        sm.admits(a),
        c0 < sm.num_cells(),
        c1 < sm.num_cells(),
    ensures
        sm.edge_state(c0, c1) == State::Fixed(Edge::Line) ==> a[c0 as int] != a[c1 as int],
        sm.edge_state(c0, c1) == State::Fixed(Edge::Cross) ==> a[c0 as int] == a[c1 as int],
{
    let k0 = key0(c0);
    let k1 = key0(c1);
    let k2 = key1(c1);
    assert(k0 / 2 == c0 && k0 % 2 == 0);
    assert(k1 / 2 == c1 && k1 % 2 == 0);
    assert(k2 / 2 == c1 && k2 % 2 == 1);
    if sm.together(k0, k1) {
        assert(key_value(a, k0) == key_value(a, k1));
    }
    if sm.together(k0, k2) {
        assert(key_value(a, k0) == key_value(a, k2));
    }
}
} // verus!
