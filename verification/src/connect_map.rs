//! Areas of cells known to be on the same side, with the edges still unknown around them.
use vstd::prelude::*;

use crate::geom::{lemma_cellid_roundtrip, lemma_div_mod_point, lemma_row_major_at, row_major, valid_size, CellId, Move, Point, Size};
use crate::model::{Error, ErrorKind, SolverResult, State};
use crate::puzzle::{hint_value, Edge, Puzzle, Side};
use crate::side_map::{key0, SideMap};
use crate::sized_union_find::{count_roots, UnionFind};
use crate::union_find::{count_rep, lemma_count_fresh, lemma_count_merged, lemma_count_two};
use crate::sorted::{sort_dedup, Ordered};
use crate::theorem::{lemma_same_view_refl, lemma_same_view_trans};

verus! {

impl Ordered for CellId {
    open spec fn spec_lt(self, other: CellId) -> bool {
        self.spec_id() < other.spec_id()
    }

    proof fn lemma_order(a: CellId, b: CellId, c: CellId) {
        CellId::lemma_id_injective(a, b);
    }

    fn lt(&self, other: &CellId) -> (r: bool) {
        self.id() < other.id()
    }

    fn equal(&self, other: &CellId) -> (r: bool) {
        proof {
            CellId::lemma_id_injective(*self, *other);
        }
        self.id() == other.id()
    }
}

/// An area: cells known to be on the same side.
#[derive(Clone, Debug)]
pub struct Area {
    coord: CellId,
    side: State<Side>,
    unknown_edge: Vec<CellId>,
    sum_of_hint: u32,
    size: usize,
}

/// The side of two areas merged: a conflict stays, an unknown side takes the other, and
/// two known sides must agree.
pub open spec fn merged_side(l: State<Side>, r: State<Side>) -> State<Side> {
    match (l, r) {
        (State::Conflict, _) => State::Conflict,
        (_, State::Conflict) => State::Conflict,
        (State::Unknown, x) => x,
        (x, State::Unknown) => x,
        (State::Fixed(a), State::Fixed(b)) => if a == b {
            State::Fixed(a)
        } else {
            State::Conflict
        },
    }
}

/// The point `d` away from `p`.
pub open spec fn step(p: Point, d: Move) -> Point {
    Point((p.0 + d.0) as i32, (p.1 + d.1) as i32)
}

/// The cell at `q` lies across an edge of the area of the single cell at `p`: a
/// neighbour of an inside cell, or, for the outside, a cell of the border.
pub open spec fn across(s: Size, p: Point, q: Point) -> bool {
    if s.spec_contains(p) {
        ||| q == Point((p.0 - 1) as i32, p.1)
        ||| q == Point(p.0, (p.1 + 1) as i32)
        ||| q == Point((p.0 + 1) as i32, p.1)
        ||| q == Point(p.0, (p.1 - 1) as i32)
    } else {
        s.spec_contains(q) && (q.1 == 0 || q.1 == s.1 - 1 || q.0 == 0 || q.0 == s.0 - 1)
    }
}

/// The border of the grid in four lists: the left column, the right column, the top row
/// and the bottom row.
pub open spec fn border_list(s: Size, k: int) -> Seq<Point> {
    if k == 0 {
        Seq::new(s.0 as nat, |r: int| Point(r as i32, 0i32))
    } else if k == 1 {
        Seq::new(s.0 as nat, |r: int| Point(r as i32, (s.1 - 1) as i32))
    } else if k == 2 {
        Seq::new(s.1 as nat, |c: int| Point(0i32, c as i32))
    } else {
        Seq::new(s.1 as nat, |c: int| Point((s.0 - 1) as i32, c as i32))
    }
}

impl Area {
    /// The cell that names the area: its smallest cell.
    pub closed spec fn spec_coord(&self) -> CellId {
        self.coord
    }

    /// What is known of the area's side.
    pub closed spec fn spec_side(&self) -> State<Side> {
        self.side
    }

    /// The cells across the area's unknown edges.
    pub closed spec fn edges(&self) -> Seq<CellId> {
        self.unknown_edge@
    }

    /// The sum of the area's hints.
    pub closed spec fn spec_sum(&self) -> u32 {
        self.sum_of_hint
    }

    /// The number of the area's cells.
    pub closed spec fn spec_cells(&self) -> usize {
        self.size
    }

    /// The number of the area's cells.
    pub fn size(&self) -> (r: usize)
        ensures
            r == self.spec_cells(),
    {
        self.size
    }

    /// The cell that names the area.
    pub fn coord(&self) -> (r: CellId)
        ensures
            r == self.spec_coord(),
    {
        self.coord
    }

    /// What is known of the area's side.
    pub fn side(&self) -> (r: State<Side>)
        ensures
            r == self.spec_side(),
    {
        self.side
    }

    /// The cells across the area's unknown edges.
    pub fn unknown_edge(&self) -> (r: &[CellId])
        ensures
            r@ == self.edges(),
    {
        self.unknown_edge.as_slice()
    }

    /// The sum of the area's hints.
    pub fn sum_of_hint(&self) -> (r: u32)
        ensures
            r == self.spec_sum(),
    {
        self.sum_of_hint
    }

    /// Every cell the area names lies below `n`.
    pub open spec fn fits(&self, n: nat) -> bool {
        &&& self.spec_coord().spec_id() < n
        &&& forall|i: int| 0 <= i < self.edges().len() ==> (#[trigger] self.edges()[i]).spec_id() < n
    }

    /// The area of the single cell at `p`: its hint, its side, and the neighbours across
    /// its unknown edges (for the outside, the border cells across unknown edges).
    pub fn new(p: Point, puzzle: &Puzzle, side_map: &mut SideMap) -> (r: Area)
        requires
            puzzle.wf(),
            old(side_map).wf(),
            old(side_map).num_cells() == puzzle.spec_size().spec_cell_len(),
            p == Point(-1i32, -1i32) || puzzle.spec_size().spec_contains(p),
        ensures
            final(side_map).wf(),
            final(side_map).same_view(*old(side_map)),
            r.fits(puzzle.spec_size().spec_cell_len() as nat),
            r.spec_coord().spec_id() == puzzle.spec_size().spec_point_to_cellid(p),
            r.spec_side() == old(side_map).side_state(puzzle.spec_size().spec_point_to_cellid(p)),
            r.spec_sum() == hint_value(puzzle.hint_at(p)),
            r.spec_cells() == 1,
            crate::sorted::strictly_sorted(r.edges()),
            forall|c: CellId| #[trigger]
                r.edges().contains(c) <==> exists|q: Point|
                    #![trigger across(puzzle.spec_size(), p, q)]
                    across(puzzle.spec_size(), p, q) && puzzle.spec_size().spec_point_to_cellid(q) == c.spec_id()
                        && old(side_map).edge_state(
                        puzzle.spec_size().spec_point_to_cellid(p),
                        puzzle.spec_size().spec_point_to_cellid(q),
                    ) == State::<Edge>::Unknown,
    {
        let size = puzzle.size();
        let ghost start = *side_map;
        let ghost n = start.num_cells();
        proof {
            lemma_same_view_refl(start);
            puzzle.lemma_lengths();
        }
        let cp = size.point_to_cellid(p);
        let sum: u32 = match puzzle.hint(p) {
            Some(h) => h as u32,
            None => 0,
        };
        let mut edge: Vec<CellId> = Vec::new();
        if !cp.is_outside() {
            let dirs = Move::all_directions();
            let mut k: usize = 0;
            while k < 4
                invariant
                    k <= 4,
                    dirs@ == seq![Move(-1i32, 0i32), Move(0i32, 1i32), Move(1i32, 0i32), Move(0i32, -1i32)],
                    size == puzzle.spec_size(),
                    crate::puzzle::valid_puzzle_size(size),
                    size.spec_contains(p),
                    cp.spec_id() < n,
                    cp.spec_id() == size.spec_point_to_cellid(p),
                    n == size.spec_cell_len(),
                    side_map.wf(),
                    side_map.same_view(start),
                    start.num_cells() == n,
                    forall|i: int| 0 <= i < edge@.len() ==> (#[trigger] edge@[i]).spec_id() < n,
                    forall|c: CellId| #[trigger]
                        edge@.contains(c) <==> exists|jj: int|
                            0 <= jj < k && #[trigger] size.spec_point_to_cellid(step(p, dirs@[jj])) == c.spec_id()
                                && start.edge_state(cp.spec_id(), size.spec_point_to_cellid(step(p, dirs@[jj])))
                                == State::<Edge>::Unknown,
                decreases 4 - k,
            {
                let d = dirs[k];
                let q = p.add(d);
                let cq = size.point_to_cellid(q);
                let ghost before = *side_map;
                let ghost old_edge = edge@;
                let st = side_map.get_edge(cp, cq);
                proof {
                    lemma_same_view_trans(start, before, *side_map);
                    assert(q == step(p, dirs@[k as int]));
                }
                if let State::Unknown = st {
                    edge.push(cq);
                }
                proof {
                    assert forall|c: CellId| #[trigger]
                        edge@.contains(c) <==> exists|jj: int|
                            0 <= jj < k + 1 && #[trigger] size.spec_point_to_cellid(step(p, dirs@[jj])) == c.spec_id()
                                && start.edge_state(cp.spec_id(), size.spec_point_to_cellid(step(p, dirs@[jj])))
                                == State::<Edge>::Unknown by {
                        CellId::lemma_id_injective(c, cq);
                        if edge@.contains(c) {
                            if !old_edge.contains(c) {
                                assert(c == cq);
                                assert(size.spec_point_to_cellid(step(p, dirs@[k as int])) == c.spec_id());
                            }
                        }
                        if exists|jj: int|
                            0 <= jj < k + 1 && #[trigger] size.spec_point_to_cellid(step(p, dirs@[jj])) == c.spec_id()
                                && start.edge_state(cp.spec_id(), size.spec_point_to_cellid(step(p, dirs@[jj])))
                                == State::<Edge>::Unknown {
                            let jj = choose|jj: int|
                                0 <= jj < k + 1 && #[trigger] size.spec_point_to_cellid(step(p, dirs@[jj])) == c.spec_id()
                                    && start.edge_state(cp.spec_id(), size.spec_point_to_cellid(step(p, dirs@[jj])))
                                    == State::<Edge>::Unknown;
                            if jj == k {
                                assert(edge@.last() == cq);
                                assert(edge@.contains(cq));
                            } else {
                                assert(old_edge.contains(c));
                                let x = choose|x: int| 0 <= x < old_edge.len() && old_edge[x] == c;
                                assert(edge@[x] == c);
                            }
                        }
                    }
                }
                k = k + 1;
            }
            proof {
                assert forall|c: CellId| #[trigger]
                    edge@.contains(c) <==> exists|q: Point|
                        #![trigger across(size, p, q)]
                        across(size, p, q) && size.spec_point_to_cellid(q) == c.spec_id() && start.edge_state(
                            size.spec_point_to_cellid(p),
                            size.spec_point_to_cellid(q),
                        ) == State::<Edge>::Unknown by {
                    if edge@.contains(c) {
                        let jj = choose|jj: int|
                            0 <= jj < 4 && #[trigger] size.spec_point_to_cellid(step(p, dirs@[jj])) == c.spec_id()
                                && start.edge_state(cp.spec_id(), size.spec_point_to_cellid(step(p, dirs@[jj])))
                                == State::<Edge>::Unknown;
                        assert(across(size, p, step(p, dirs@[jj])));
                    }
                    if exists|q: Point|
                        #![trigger across(size, p, q)]
                        across(size, p, q) && size.spec_point_to_cellid(q) == c.spec_id() && start.edge_state(
                            size.spec_point_to_cellid(p),
                            size.spec_point_to_cellid(q),
                        ) == State::<Edge>::Unknown {
                        let q = choose|q: Point|
                            #![trigger across(size, p, q)]
                            across(size, p, q) && size.spec_point_to_cellid(q) == c.spec_id() && start.edge_state(
                                size.spec_point_to_cellid(p),
                                size.spec_point_to_cellid(q),
                            ) == State::<Edge>::Unknown;
                        if q == step(p, dirs@[0]) {
                            assert(size.spec_point_to_cellid(step(p, dirs@[0])) == c.spec_id());
                        } else if q == step(p, dirs@[1]) {
                            assert(size.spec_point_to_cellid(step(p, dirs@[1])) == c.spec_id());
                        } else if q == step(p, dirs@[2]) {
                            assert(size.spec_point_to_cellid(step(p, dirs@[2])) == c.spec_id());
                        } else {
                            assert(size.spec_point_to_cellid(step(p, dirs@[3])) == c.spec_id());
                        }
                    }
                }
            }
        } else {
            let mut k: usize = 0;
            while k < 4
                invariant
                    k <= 4,
                    size == puzzle.spec_size(),
                    crate::puzzle::valid_puzzle_size(size),
                    p == Point(-1i32, -1i32),
                    cp.spec_id() == 0,
                    cp.spec_id() < n,
                    n == size.spec_cell_len(),
                    side_map.wf(),
                    side_map.same_view(start),
                    start.num_cells() == n,
                    forall|i: int| 0 <= i < edge@.len() ==> (#[trigger] edge@[i]).spec_id() < n,
                    forall|c: CellId| #[trigger]
                        edge@.contains(c) <==> exists|kk: int, jj: int|
                            0 <= kk < k && 0 <= jj < border_list(size, kk).len() && #[trigger] size.spec_point_to_cellid(
                                border_list(size, kk)[jj],
                            ) == c.spec_id() && start.edge_state(0, size.spec_point_to_cellid(border_list(size, kk)[jj]))
                                == State::<Edge>::Unknown,
                decreases 4 - k,
            {
                let list: Vec<Point> = if k == 0 {
                    size.points_in_column(0).to_vec()
                } else if k == 1 {
                    size.points_in_column(size.1 - 1).to_vec()
                } else if k == 2 {
                    size.points_in_row(0).to_vec()
                } else {
                    size.points_in_row(size.0 - 1).to_vec()
                };
                proof {
                    assert(list@ =~= border_list(size, k as int));
                }
                let mut j: usize = 0;
                while j < list.len()
                    invariant
                        j <= list.len(),
                        k < 4,
                        list@ == border_list(size, k as int),
                        size == puzzle.spec_size(),
                        crate::puzzle::valid_puzzle_size(size),
                        cp.spec_id() == 0,
                        cp.spec_id() < n,
                        n == size.spec_cell_len(),
                        side_map.wf(),
                        side_map.same_view(start),
                        start.num_cells() == n,
                        forall|i: int| 0 <= i < edge@.len() ==> (#[trigger] edge@[i]).spec_id() < n,
                        forall|c: CellId| #[trigger]
                            edge@.contains(c) <==> exists|kk: int, jj: int|
                                ((0 <= kk < k && 0 <= jj < border_list(size, kk).len()) || (kk == k && 0 <= jj < j))
                                    && #[trigger] size.spec_point_to_cellid(border_list(size, kk)[jj]) == c.spec_id()
                                    && start.edge_state(0, size.spec_point_to_cellid(border_list(size, kk)[jj]))
                                    == State::<Edge>::Unknown,
                    decreases list.len() - j,
                {
                    let q = list[j];
                    let cq = size.point_to_cellid(q);
                    let ghost before = *side_map;
                    let ghost old_edge = edge@;
                    let st = side_map.get_edge(cp, cq);
                    proof {
                        lemma_same_view_trans(start, before, *side_map);
                    }
                    if let State::Unknown = st {
                        edge.push(cq);
                    }
                    proof {
                        assert forall|c: CellId| #[trigger]
                            edge@.contains(c) <==> exists|kk: int, jj: int|
                                ((0 <= kk < k && 0 <= jj < border_list(size, kk).len()) || (kk == k && 0 <= jj < j + 1))
                                    && #[trigger] size.spec_point_to_cellid(border_list(size, kk)[jj]) == c.spec_id()
                                    && start.edge_state(0, size.spec_point_to_cellid(border_list(size, kk)[jj]))
                                    == State::<Edge>::Unknown by {
                            CellId::lemma_id_injective(c, cq);
                            if edge@.contains(c) {
                                if !old_edge.contains(c) {
                                    assert(c == cq);
                                    assert(size.spec_point_to_cellid(border_list(size, k as int)[j as int]) == c.spec_id());
                                }
                            }
                            if exists|kk: int, jj: int|
                                ((0 <= kk < k && 0 <= jj < border_list(size, kk).len()) || (kk == k && 0 <= jj < j + 1))
                                    && #[trigger] size.spec_point_to_cellid(border_list(size, kk)[jj]) == c.spec_id()
                                    && start.edge_state(0, size.spec_point_to_cellid(border_list(size, kk)[jj]))
                                    == State::<Edge>::Unknown {
                                let (kk, jj) = choose|kk: int, jj: int|
                                    ((0 <= kk < k && 0 <= jj < border_list(size, kk).len()) || (kk == k && 0 <= jj < j + 1))
                                        && #[trigger] size.spec_point_to_cellid(border_list(size, kk)[jj]) == c.spec_id()
                                        && start.edge_state(0, size.spec_point_to_cellid(border_list(size, kk)[jj]))
                                        == State::<Edge>::Unknown;
                                if kk == k && jj == j {
                                    assert(edge@.last() == cq);
                                    assert(edge@.contains(cq));
                                } else {
                                    assert(old_edge.contains(c));
                                    let x = choose|x: int| 0 <= x < old_edge.len() && old_edge[x] == c;
                                    assert(edge@[x] == c);
                                }
                            }
                        }
                    }
                    j = j + 1;
                }
                k = k + 1;
            }
            proof {
                assert forall|c: CellId| #[trigger]
                    edge@.contains(c) <==> exists|q: Point|
                        #![trigger across(size, p, q)]
                        across(size, p, q) && size.spec_point_to_cellid(q) == c.spec_id() && start.edge_state(
                            size.spec_point_to_cellid(p),
                            size.spec_point_to_cellid(q),
                        ) == State::<Edge>::Unknown by {
                    if edge@.contains(c) {
                        let (kk, jj) = choose|kk: int, jj: int|
                            0 <= kk < 4 && 0 <= jj < border_list(size, kk).len() && #[trigger] size.spec_point_to_cellid(
                                border_list(size, kk)[jj],
                            ) == c.spec_id() && start.edge_state(0, size.spec_point_to_cellid(border_list(size, kk)[jj]))
                                == State::<Edge>::Unknown;
                        assert(across(size, p, border_list(size, kk)[jj]));
                    }
                    if exists|q: Point|
                        #![trigger across(size, p, q)]
                        across(size, p, q) && size.spec_point_to_cellid(q) == c.spec_id() && start.edge_state(
                            size.spec_point_to_cellid(p),
                            size.spec_point_to_cellid(q),
                        ) == State::<Edge>::Unknown {
                        let q = choose|q: Point|
                            #![trigger across(size, p, q)]
                            across(size, p, q) && size.spec_point_to_cellid(q) == c.spec_id() && start.edge_state(
                                size.spec_point_to_cellid(p),
                                size.spec_point_to_cellid(q),
                            ) == State::<Edge>::Unknown;
                        if q.1 == 0 {
                            assert(border_list(size, 0)[q.0 as int] == q);
                        } else if q.1 == size.1 - 1 {
                            assert(border_list(size, 1)[q.0 as int] == q);
                        } else if q.0 == 0 {
                            assert(border_list(size, 2)[q.1 as int] == q);
                        } else {
                            assert(border_list(size, 3)[q.1 as int] == q);
                        }
                    }
                }
            }
        }
        let edges = sort_dedup(&edge);
        proof {
            assert forall|i: int| 0 <= i < edges@.len() implies (#[trigger] edges@[i]).spec_id() < n by {
                assert(edges@.contains(edges@[i]));
                assert(edge@.contains(edges@[i]));
            }
        }
        let ghost before = *side_map;
        let side = side_map.get_side(cp);
        proof {
            lemma_same_view_trans(start, before, *side_map);
        }
        Area { coord: cp, side: side, unknown_edge: edges, sum_of_hint: sum, size: 1 }
    }

    /// The area of two areas merged: the smaller name, the merged side, the unknown edges
    /// of both (those of `lval` first), and the sums and sizes added.
    pub fn union(lval: Area, rval: Area) -> (r: Area)
        ensures
            r.spec_coord() == if lval.spec_coord().spec_id() < rval.spec_coord().spec_id() {
                lval.spec_coord()
            } else {
                rval.spec_coord()
            },
            r.spec_side() == merged_side(lval.spec_side(), rval.spec_side()),
            r.edges() == lval.edges() + rval.edges(),
            r.spec_sum() == (lval.spec_sum() + rval.spec_sum()) % 0x1_0000_0000,
            r.spec_cells() == lval.spec_cells().wrapping_add(rval.spec_cells()),
            forall|n: nat| lval.fits(n) && rval.fits(n) ==> r.fits(n),
    {
        let coord = if lval.coord.id() < rval.coord.id() {
            lval.coord
        } else {
            rval.coord
        };
        let side = match (lval.side, rval.side) {
            (State::Conflict, _) => State::Conflict,
            (_, State::Conflict) => State::Conflict,
            (State::Unknown, x) => x,
            (x, State::Unknown) => x,
            (State::Fixed(l), State::Fixed(r)) => {
                let same = match (l, r) {
                    (Side::In, Side::In) => true,
                    (Side::Out, Side::Out) => true,
                    _ => false,
                };
                if same {
                    State::Fixed(l)
                } else {
                    State::Conflict
                }
            },
        };
        let ghost le = lval.unknown_edge@;
        let ghost re = rval.unknown_edge@;
        let mut l = lval;
        let mut r = rval;
        let unknown_edge = if l.unknown_edge.len() == 0 {
            assert(le + re =~= re);
            r.unknown_edge
        } else {
            l.unknown_edge.append(&mut r.unknown_edge);
            l.unknown_edge
        };
        let area = Area {
            coord: coord,
            side: side,
            unknown_edge: unknown_edge,
            sum_of_hint: l.sum_of_hint.wrapping_add(r.sum_of_hint),
            size: l.size.wrapping_add(r.size),
        };
        proof {
            assert forall|n: nat| lval.fits(n) && rval.fits(n) implies area.fits(n) by {
                assert(area.edges() == le + re);
                assert forall|i: int| 0 <= i < area.edges().len() implies (#[trigger] area.edges()[i]).spec_id() < n by {
                    if i < le.len() {
                        assert(area.edges()[i] == le[i]);
                        assert(lval.edges()[i] == le[i]);
                    } else {
                        assert(area.edges()[i] == re[i - le.len()]);
                        assert(rval.edges()[i - le.len()] == re[i - le.len()]);
                    }
                }
            }
        }
        area
    }

    /// An area with no cells, for a slot whose area has been moved out.
    fn empty() -> (r: Area)
        ensures
            r.fits(1),
            r.edges().len() == 0,
    {
        Area { coord: CellId::new(0), side: State::Unknown, unknown_edge: Vec::new(), sum_of_hint: 0, size: 0 }
    }
    /// A copy of the area.
    pub fn duplicate(&self) -> (r: Area)
        ensures
            r.spec_coord() == self.spec_coord(),
            r.spec_side() == self.spec_side(),
            r.edges() == self.edges(),
            r.spec_sum() == self.spec_sum(),
            r.spec_cells() == self.spec_cells(),
    {
        let mut edges: Vec<CellId> = Vec::new();
        let mut i: usize = 0;
        while i < self.unknown_edge.len()
            invariant
                i <= self.unknown_edge@.len(),
                edges@ == self.unknown_edge@.take(i as int),
            decreases self.unknown_edge@.len() - i,
        {
            edges.push(self.unknown_edge[i]);
            i = i + 1;
            assert(edges@ =~= self.unknown_edge@.take(i as int));
        }
        assert(edges@ =~= self.unknown_edge@);
        Area { coord: self.coord, side: self.side, unknown_edge: edges, sum_of_hint: self.sum_of_hint, size: self.size }
    }

}

/// The areas of a puzzle's cells, joined as their common side becomes known.
#[derive(Clone)]
pub struct ConnectMap {
    sum_of_hint: u32,
    uf: UnionFind<()>,
    areas: Vec<Area>,
    hints: Ghost<Seq<u32>>,
}

/// The sum of the hints of the first `k` cells whose representative is `r`.
pub open spec fn class_hint_sum(reps: Seq<nat>, hints: Seq<u32>, r: nat, k: int) -> int
    decreases k,
{
    if k <= 0 {
        0
    } else {
        class_hint_sum(reps, hints, r, k - 1) + if reps[k - 1] == r {
            hints[k - 1] as int
        } else {
            0
        }
    }
}

/// Summing in merged classes: the new class of `root` sums both old classes, and every
/// other class sums as before.
proof fn lemma_sum_merged(reps: Seq<nat>, new_reps: Seq<nat>, hints: Seq<u32>, child: nat, root: nat, r: nat, k: int)
    requires
        child != root,
        0 <= k <= reps.len(),
        new_reps.len() == reps.len(),
        forall|i: int| 0 <= i < reps.len() ==> #[trigger] new_reps[i] == if reps[i] == child {
            root
        } else {
            reps[i]
        },
    ensures
        r == root ==> class_hint_sum(new_reps, hints, r, k) == class_hint_sum(reps, hints, root, k) + class_hint_sum(
            reps,
            hints,
            child,
            k,
        ),
        r != root && r != child ==> class_hint_sum(new_reps, hints, r, k) == class_hint_sum(reps, hints, r, k),
    decreases k,
{
    if k > 0 {
        lemma_sum_merged(reps, new_reps, hints, child, root, r, k - 1);
        assert(new_reps[k - 1] == if reps[k - 1] == child { root } else { reps[k - 1] });
    }
}

/// In a forest of single cells, each class sums the hint of its one cell.
proof fn lemma_sum_fresh(n: nat, hints: Seq<u32>, r: nat, k: int)
    requires
        0 <= k <= n,
        hints.len() == n,
    ensures
        class_hint_sum(Seq::new(n, |i: int| i as nat), hints, r, k) == if r < k { hints[r as int] as int } else { 0 },
    decreases k,
{
    if k > 0 {
        lemma_sum_fresh(n, hints, r, k - 1);
    }
}

/// A sum of hints is never negative.
proof fn lemma_sum_nonneg(reps: Seq<nat>, hints: Seq<u32>, r: nat, k: int)
    ensures
        class_hint_sum(reps, hints, r, k) >= 0,
    decreases k,
{
    if k > 0 {
        lemma_sum_nonneg(reps, hints, r, k - 1);
    }
}

/// Adding two sums modulo `2^32` adds their remainders.
proof fn lemma_add_mod32(x: int, y: int)
    requires
        x >= 0,
        y >= 0,
    ensures
        ((x % 0x1_0000_0000) + (y % 0x1_0000_0000)) % 0x1_0000_0000 == (x + y) % 0x1_0000_0000,
{
    vstd::arithmetic::div_mod::lemma_add_mod_noop(x, y, 0x1_0000_0000);
}

/// The four neighbour directions.
pub open spec fn is_direction(m: Move) -> bool {
    ||| m == Move(-1i32, 0i32)
    ||| m == Move(0i32, 1i32)
    ||| m == Move(1i32, 0i32)
    ||| m == Move(0i32, -1i32)
}

/// The neighbour of `p` in direction `m`.
pub open spec fn neighbour(p: Point, m: Move) -> Point {
    Point((p.0 + m.0) as i32, (p.1 + m.1) as i32)
}

impl ConnectMap {
    /// The union-find and the areas agree in size, and every area names cells of the map.
    pub closed spec fn wf(&self) -> bool {
        &&& self.uf.wf()
        &&& self.areas@.len() == self.uf.spec_size()
        &&& self.uf.spec_size() >= 1
        &&& forall|i: int| 0 <= i < self.areas@.len() ==> (#[trigger] self.areas@[i]).fits(self.uf.spec_size())
        &&& forall|r: int|
            0 <= r < self.uf.spec_size() && self.uf.reps()[r] == r ==> self.uf.reps()[(
            #[trigger] self.areas@[r]).spec_coord().spec_id() as int] == r
        &&& self.hints@.len() == self.uf.spec_size()
        &&& forall|r: int|
            0 <= r < self.uf.spec_size() && self.uf.reps()[r] == r ==> (#[trigger] self.areas@[r]).spec_sum() as int
                == class_hint_sum(self.uf.reps(), self.hints@, r as nat, self.uf.spec_size() as int) % 0x1_0000_0000
        &&& forall|r: int|
            0 <= r < self.uf.spec_size() && self.uf.reps()[r] == r ==> (#[trigger] self.areas@[r]).spec_cells() == count_rep(
                self.uf.reps(),
                r as nat,
                self.uf.spec_size() as int,
            )
    }

    /// The hint of every cell, as the areas were built from them.
    pub closed spec fn hints(&self) -> Seq<u32> {
        self.hints@
    }

    /// The hint sum of every area is the sum of the hints of its cells, modulo `2^32`, and
    /// its size is the number of its cells.
    pub proof fn lemma_area_sums(&self)
        requires
            self.wf(),
        ensures
            self.hints().len() == self.cells(),
            forall|c: int|
                0 <= c < self.cells() ==> (#[trigger] self.area_of(c)).spec_sum() as int == class_hint_sum(
                    self.reps(),
                    self.hints(),
                    self.reps()[c],
                    self.cells() as int,
                ) % 0x1_0000_0000,
            forall|c: int|
                0 <= c < self.cells() ==> (#[trigger] self.area_of(c)).spec_cells() == count_rep(
                    self.reps(),
                    self.reps()[c],
                    self.cells() as int,
                ),
    {
        assert forall|c: int| 0 <= c < self.cells() implies (#[trigger] self.area_of(c)).spec_cells() == count_rep(
            self.reps(),
            self.reps()[c],
            self.cells() as int,
        ) by {
            self.uf.lemma_wf(c);
        }
        assert forall|c: int| 0 <= c < self.cells() implies (#[trigger] self.area_of(c)).spec_sum() as int == class_hint_sum(
            self.reps(),
            self.hints(),
            self.reps()[c],
            self.cells() as int,
        ) % 0x1_0000_0000 by {
            self.uf.lemma_wf(c);
        }
    }

    /// The number of cells.
    pub closed spec fn cells(&self) -> nat {
        self.uf.spec_size()
    }

    /// The representative of every cell.
    pub closed spec fn reps(&self) -> Seq<nat> {
        self.uf.reps()
    }

    /// The area kept at every representative.
    pub closed spec fn slots(&self) -> Seq<Area> {
        self.areas@
    }

    /// The sum of all hints.
    pub closed spec fn spec_sum(&self) -> u32 {
        self.sum_of_hint
    }

    /// The area of cell `i`.
    pub open spec fn area_of(&self, i: int) -> Area {
        self.slots()[self.reps()[i] as int]
    }

    /// The number of areas.
    pub open spec fn classes(&self) -> nat {
        count_roots(self.reps())
    }

    /// Whether cells `i` and `j` are in the same area.
    pub open spec fn joined(&self, i: int, j: int) -> bool {
        self.reps()[i] == self.reps()[j]
    }

    /// Whether cell `c` names its area.
    pub open spec fn named(&self, c: int) -> bool {
        self.area_of(c).spec_coord().spec_id() == c
    }

    /// Whether cell `c` names its area and no edge around the area is unknown.
    pub open spec fn closed(&self, c: int) -> bool {
        self.named(c) && self.area_of(c).edges().len() == 0
    }

    /// The number of cells below `k` that name their areas.
    pub open spec fn count_named(&self, k: int) -> nat
        decreases k,
    {
        if k <= 0 {
            0
        } else {
            self.count_named(k - 1) + if self.named(k - 1) {
                1nat
            } else {
                0nat
            }
        }
    }

    /// The number of cells below `k` that name closed areas.
    pub open spec fn count_closed(&self, k: int) -> nat
        decreases k,
    {
        if k <= 0 {
            0
        } else {
            self.count_closed(k - 1) + if self.closed(k - 1) {
                1nat
            } else {
                0nat
            }
        }
    }

    /// The same cells, areas and hint sum.
    pub open spec fn same_areas(&self, other: &ConnectMap) -> bool {
        &&& self.cells() == other.cells()
        &&& self.reps() == other.reps()
        &&& self.slots() == other.slots()
        &&& self.spec_sum() == other.spec_sum()
        &&& self.hints() == other.hints()
    }

    /// Cells of one area are on the same side in the side map.
    pub open spec fn sound(&self, sm: &SideMap) -> bool {
        &&& sm.num_cells() == self.cells()
        &&& forall|a: int, b: int|
            0 <= a < self.cells() && 0 <= b < self.cells() && #[trigger] self.joined(a, b) ==> sm.together(
                key0(a as nat),
                key0(b as nat),
            )
    }

    /// Every two neighbouring cells of the grid with a known cross between them are in one
    /// area.
    pub open spec fn joins_crosses(&self, sm: &SideMap, size: Size) -> bool {
        forall|p: Point, m: Move|
            size.spec_contains(p) && is_direction(m) && #[trigger] sm.edge_state(
                size.spec_point_to_cellid(p),
                size.spec_point_to_cellid(neighbour(p, m)),
            ) == State::Fixed(Edge::Cross) ==> self.joined(
                size.spec_point_to_cellid(p) as int,
                size.spec_point_to_cellid(neighbour(p, m)) as int,
            )
    }

    /// Facts of a consistent map: representatives are cells that represent themselves, and
    /// every area fits the map.
    pub proof fn lemma_wf(&self, i: int)
        requires
            self.wf(),
            0 <= i < self.cells(),
        ensures
            self.reps().len() == self.cells(),
            self.slots().len() == self.cells(),
            self.cells() >= 1,
            self.reps()[i] < self.cells(),
            self.reps()[self.reps()[i] as int] == self.reps()[i],
            self.area_of(i).fits(self.cells()),
    {
        self.uf.lemma_wf(i);
    }

    /// One area per cell of the puzzle, then the areas of neighbouring cells with a known
    /// cross between them joined.
    pub fn new(puzzle: &Puzzle, side_map: &mut SideMap) -> (r: ConnectMap)
        requires
            puzzle.wf(),
            old(side_map).wf(),
            old(side_map).num_cells() == puzzle.spec_size().spec_cell_len(),
        ensures
            final(side_map).wf(),
            final(side_map).same_view(*old(side_map)),
            r.wf(),
            r.cells() == puzzle.spec_size().spec_cell_len(),
            r.spec_sum() == puzzle.spec_sum_of_hint(),
            r.sound(&*final(side_map)),
            r.joins_crosses(&*final(side_map), puzzle.spec_size()),
            forall|i: int|
                0 <= i < r.cells() ==> #[trigger] r.hints()[i] == hint_value(
                    puzzle.hint_at(puzzle.spec_size().spec_cellid_to_point(i as nat)),
                ),
    {
        let ghost sm0 = *side_map;
        proof {
            lemma_same_view_refl(sm0);
            puzzle.lemma_lengths();
        }
        let size = puzzle.size();
        let n = size.cell_len();
        let mut areas: Vec<Area> = Vec::new();
        let mut i: usize = 0;
        while i < n
            invariant
                i <= n,
                n == size.spec_cell_len(),
                size == puzzle.spec_size(),
                puzzle.wf(),
                crate::puzzle::valid_puzzle_size(size),
                side_map.wf(),
                side_map.same_view(sm0),
                sm0 == *old(side_map),
                sm0.num_cells() == n,
                areas@.len() == i,
                forall|j: int| 0 <= j < i ==> (#[trigger] areas@[j]).fits(n as nat),
                forall|j: int| 0 <= j < i ==> (#[trigger] areas@[j]).spec_coord().spec_id() == j,
                forall|j: int| 0 <= j < i ==> (#[trigger] areas@[j]).spec_cells() == 1,
                forall|j: int|
                    0 <= j < i ==> (#[trigger] areas@[j]).spec_sum() == hint_value(puzzle.hint_at(size.spec_cellid_to_point(j as nat))),
            decreases n - i,
        {
            let c = CellId::new(i);
            let p = size.cellid_to_point(c);
            let ghost sm1 = *side_map;
            let a = Area::new(p, puzzle, side_map);
            proof {
                lemma_same_view_trans(sm0, sm1, *side_map);
                if i != 0 {
                    assert(size.spec_point_to_cellid(p) == i);
                } else {
                    assert(!size.spec_contains(p));
                }
            }
            areas.push(a);
            i = i + 1;
        }
        let uf = UnionFind::from_elem(n, ());
        let ghost hs = Seq::new(n as nat, |k: int| areas@[k].spec_sum());
        let mut conn_map = ConnectMap { sum_of_hint: puzzle.sum_of_hint(), uf: uf, areas: areas, hints: Ghost(hs) };
        proof {
            assert forall|r: int|
                0 <= r < n && conn_map.uf.reps()[r] == r implies (#[trigger] conn_map.areas@[r]).spec_sum() as int
                    == class_hint_sum(conn_map.uf.reps(), hs, r as nat, n as int) % 0x1_0000_0000 by {
                lemma_sum_fresh(n as nat, hs, r as nat, n as int);
            }
            assert forall|r: int|
                0 <= r < n && conn_map.uf.reps()[r] == r implies (#[trigger] conn_map.areas@[r]).spec_cells() == count_rep(
                conn_map.uf.reps(),
                r as nat,
                n as int,
            ) by {
                lemma_count_fresh(n as nat, r as nat, n as int);
            }
            assert(forall|k: int|
                0 <= k < n ==> #[trigger] hs[k] == hint_value(puzzle.hint_at(size.spec_cellid_to_point(k as nat))));
            assert forall|a: int, b: int|
                0 <= a < n && 0 <= b < n && #[trigger] conn_map.joined(a, b) implies side_map.together(
                key0(a as nat),
                key0(b as nat),
            ) by {
                side_map.lemma_together_equiv(key0(a as nat), key0(a as nat), key0(a as nat));
            }
        }
        let pts = size.points().to_vec();
        let dirs = Move::all_directions();
        let ghost rm = row_major(size);
        let mut j: usize = 0;
        while j < pts.len()
            invariant
                j <= pts.len(),
                pts@ == rm,
                rm == row_major(size),
                n == size.spec_cell_len(),
                size == puzzle.spec_size(),
                crate::puzzle::valid_puzzle_size(size),
                dirs@ == seq![Move(-1i32, 0i32), Move(0i32, 1i32), Move(1i32, 0i32), Move(0i32, -1i32)],
                side_map.wf(),
                side_map.same_view(sm0),
                sm0 == *old(side_map),
                sm0.num_cells() == n,
                conn_map.wf(),
                conn_map.cells() == n,
                conn_map.spec_sum() == puzzle.spec_sum_of_hint(),
                conn_map.hints() == hs,
                forall|k: int| 0 <= k < n ==> #[trigger] hs[k] == hint_value(puzzle.hint_at(size.spec_cellid_to_point(k as nat))),
                conn_map.sound(&*side_map),
                forall|jj: int, d: int|
                    0 <= jj < j && 0 <= d < 4 && #[trigger] side_map.edge_state(
                        size.spec_point_to_cellid(rm[jj]),
                        size.spec_point_to_cellid(neighbour(rm[jj], dirs@[d])),
                    ) == State::Fixed(Edge::Cross) ==> conn_map.joined(
                        size.spec_point_to_cellid(rm[jj]) as int,
                        size.spec_point_to_cellid(neighbour(rm[jj], dirs@[d])) as int,
                    ),
            decreases pts.len() - j,
        {
            let p = pts[j];
            proof {
                lemma_row_major_at(size, j as int);
                lemma_cellid_roundtrip(size, j as int);
            }
            let cp = size.point_to_cellid(p);
            let mut k: usize = 0;
            while k < 4
                invariant
                    k <= 4,
                    j < pts.len(),
                    pts@ == rm,
                    p == rm[j as int],
                    size.spec_contains(p),
                    cp.spec_id() == size.spec_point_to_cellid(p),
                    rm == row_major(size),
                    n == size.spec_cell_len(),
                    size == puzzle.spec_size(),
                    crate::puzzle::valid_puzzle_size(size),
                    dirs@ == seq![Move(-1i32, 0i32), Move(0i32, 1i32), Move(1i32, 0i32), Move(0i32, -1i32)],
                    side_map.wf(),
                    side_map.same_view(sm0),
                    sm0 == *old(side_map),
                    sm0.num_cells() == n,
                    conn_map.wf(),
                    conn_map.cells() == n,
                    conn_map.spec_sum() == puzzle.spec_sum_of_hint(),
                conn_map.hints() == hs,
                forall|k: int| 0 <= k < n ==> #[trigger] hs[k] == hint_value(puzzle.hint_at(size.spec_cellid_to_point(k as nat))),
                    conn_map.sound(&*side_map),
                    forall|jj: int, d: int|
                        (0 <= jj < j && 0 <= d < 4 || jj == j && 0 <= d < k) && #[trigger] side_map.edge_state(
                            size.spec_point_to_cellid(rm[jj]),
                            size.spec_point_to_cellid(neighbour(rm[jj], dirs@[d])),
                        ) == State::Fixed(Edge::Cross) ==> conn_map.joined(
                            size.spec_point_to_cellid(rm[jj]) as int,
                            size.spec_point_to_cellid(neighbour(rm[jj], dirs@[d])) as int,
                        ),
                decreases 4 - k,
            {
                let ghost cm_prev = conn_map;
                let ghost sm_prev = *side_map;
                let q = p.add(dirs[k]);
                let cq = size.point_to_cellid(q);
                proof {
                    crate::side_map::lemma_cell_bound(size, p);
                    crate::side_map::lemma_cell_bound(size, q);
                }
                let ghost sm1 = *side_map;
                let st = side_map.get_edge(cp, cq);
                proof {
                    lemma_same_view_trans(sm0, sm1, *side_map);
                    lemma_sound_same_reps(conn_map, conn_map, sm1, *side_map);
                }
                if let State::Fixed(Edge::Cross) = st {
                    let ghost before = conn_map;
                    conn_map.union(cp, cq);
                    proof {
                        lemma_sound_after_union(before, conn_map, *side_map, cp.spec_id() as int, cq.spec_id() as int);
                    }
                }
                proof {
                    assert(q == neighbour(p, dirs@[k as int]));
                    assert forall|jj: int, d: int|
                        (0 <= jj < j && 0 <= d < 4 || jj == j && 0 <= d < k + 1) && #[trigger] side_map.edge_state(
                            size.spec_point_to_cellid(rm[jj]),
                            size.spec_point_to_cellid(neighbour(rm[jj], dirs@[d])),
                        ) == State::Fixed(Edge::Cross) implies conn_map.joined(
                            size.spec_point_to_cellid(rm[jj]) as int,
                            size.spec_point_to_cellid(neighbour(rm[jj], dirs@[d])) as int,
                        ) by {
                        let x = size.spec_point_to_cellid(rm[jj]);
                        let y = size.spec_point_to_cellid(neighbour(rm[jj], dirs@[d]));
                        assert(side_map.edge_state(x, y) == sm_prev.edge_state(x, y));
                        crate::side_map::lemma_cell_bound(size, rm[jj]);
                        crate::side_map::lemma_cell_bound(size, neighbour(rm[jj], dirs@[d]));
                        if jj == j && d == k {
                        } else {
                            assert(cm_prev.joined(x as int, y as int));
                        }
                    }
                }
                k = k + 1;
            }
            j = j + 1;
        }
        proof {
            let c = size.1 as int;
            assert forall|p: Point, m: Move|
                size.spec_contains(p) && is_direction(m) && #[trigger] side_map.edge_state(
                    size.spec_point_to_cellid(p),
                    size.spec_point_to_cellid(neighbour(p, m)),
                ) == State::Fixed(Edge::Cross) implies conn_map.joined(
                size.spec_point_to_cellid(p) as int,
                size.spec_point_to_cellid(neighbour(p, m)) as int,
            ) by {
                let idx = p.0 * c + p.1;
                lemma_div_mod_point(c, p.0 as int, p.1 as int);
                assert(0 <= idx < size.0 * size.1) by (nonlinear_arith)
                    requires
                        idx == p.0 * c + p.1,
                        0 <= p.0 < size.0,
                        0 <= p.1 < c,
                        c == size.1,
                ;
                lemma_row_major_at(size, idx);
                assert(rm[idx] == p);
                let d: int = if m == Move(-1i32, 0i32) {
                    0
                } else if m == Move(0i32, 1i32) {
                    1
                } else if m == Move(1i32, 0i32) {
                    2
                } else {
                    3
                };
                assert(dirs@[d] == m);
            }
        }
        conn_map
    }

    /// Every area has one name: as many cells name their areas as there are areas.
    pub proof fn lemma_count_area(&self)
        requires
            self.wf(),
        ensures
            self.count_named(self.cells() as int) == self.classes(),
    {
        let n = self.cells() as int;
        self.uf.lemma_wf(0);
        let roots = root_set(self.reps(), n);
        let names = named_set(*self, n);
        let f = |r: int| self.slots()[r].spec_coord().spec_id() as int;
        lemma_count_roots_set(self.reps());
        lemma_count_named_set(*self, n);
        assert forall|r: int| #[trigger] roots.contains(r) implies names.contains(f(r)) by {
            assert(self.areas@[r].fits(self.uf.spec_size()));
            assert(self.uf.reps()[self.areas@[r].spec_coord().spec_id() as int] == r);
        }
        assert forall|c: int| #[trigger] names.contains(c) implies roots.map(f).contains(c) by {
            self.uf.lemma_wf(c);
            let r = self.reps()[c] as int;
            assert(roots.contains(r));
            assert(f(r) == c);
        }
        assert(roots.map(f) =~= names);
        assert forall|r1: int, r2: int| roots.contains(r1) && roots.contains(r2) && #[trigger] f(r1) == #[trigger] f(r2) implies r1 == r2 by {
            assert(self.uf.reps()[self.areas@[r1].spec_coord().spec_id() as int] == r1);
            assert(self.uf.reps()[self.areas@[r2].spec_coord().spec_id() as int] == r2);
        }
        vstd::set_lib::lemma_map_size(roots, names, f);
    }

    /// The number of cells.
    pub fn cell_len(&self) -> (r: usize)
        requires
            self.wf(),
        ensures
            r == self.cells(),
    {
        self.areas.len()
    }

    /// The sum of all hints.
    pub fn sum_of_hint(&self) -> (r: u32)
        ensures
            r == self.spec_sum(),
    {
        self.sum_of_hint
    }

    /// The area of cell `i`.
    pub fn get(&mut self, i: CellId) -> (r: &Area)
        requires
            old(self).wf(),
            i.spec_id() < old(self).cells(),
        ensures
            final(self).wf(),
            final(self).same_areas(&*old(self)),
            *r == old(self).area_of(i.spec_id() as int),
    {
        proof {
            self.uf.lemma_wf(i.spec_id() as int);
        }
        let k = self.uf.find_root_key(i.id());
        &self.areas[k]
    }

    /// Joins the areas of `i` and `j`; returns whether they were different.
    pub fn union(&mut self, i: CellId, j: CellId) -> (r: bool)
        requires
            old(self).wf(),
            i.spec_id() < old(self).cells(),
            j.spec_id() < old(self).cells(),
        ensures
            final(self).hints() == old(self).hints(),
            final(self).wf(),
            final(self).cells() == old(self).cells(),
            final(self).spec_sum() == old(self).spec_sum(),
            r == !old(self).joined(i.spec_id() as int, j.spec_id() as int),
            !r ==> final(self).same_areas(&*old(self)),
            r ==> final(self).classes() < old(self).classes(),
            forall|a: int, b: int|
                0 <= a < old(self).cells() && 0 <= b < old(self).cells() ==> (#[trigger] final(self).joined(a, b) <==> (
                old(self).joined(a, b) || (old(self).joined(a, i.spec_id() as int) && old(self).joined(b, j.spec_id() as int))
                    || (old(self).joined(a, j.spec_id() as int) && old(self).joined(b, i.spec_id() as int)))),
            forall|k: int|
                0 <= k < old(self).cells() && !old(self).joined(k, i.spec_id() as int) && !old(self).joined(k, j.spec_id() as int)
                    ==> #[trigger] final(self).area_of(k) == old(self).area_of(k),
    {
        let ghost before = *self;
        proof {
            self.uf.lemma_wf(i.spec_id() as int);
            self.uf.lemma_wf(j.spec_id() as int);
        }
        let ri = self.uf.find_root_key(i.id());
        let rj = self.uf.find_root_key(j.id());
        if ri == rj {
            return false;
        }
        let ghost n = self.uf.spec_size();
        let ghost old_areas = self.areas@;
        let ghost mid_reps = self.uf.reps();
        let mut a: Area = Area::empty();
        let mut b: Area = Area::empty();
        std::mem::swap(&mut a, &mut self.areas[ri]);
        std::mem::swap(&mut b, &mut self.areas[rj]);
        assert(a == old_areas[ri as int] && b == old_areas[rj as int]);
        let merged = Area::union(a, b);
        assert(merged.fits(n));
        self.uf.union(i.id(), j.id());
        proof {
            self.uf.lemma_wf(i.spec_id() as int);
        }
        let root = self.uf.find_root_key(i.id());
        let ghost mid_areas = self.areas@;
        self.areas.set(root, merged);
        proof {
            let or = before.uf.reps();
            let nr = self.uf.reps();
            let hs = self.hints@;
            let ri_ = or[i.spec_id() as int];
            let rj_ = or[j.spec_id() as int];
            let (ch, rt) = if crate::sized_union_find::count_class(or, ri_) >= crate::sized_union_find::count_class(or, rj_) {
                (rj_, ri_)
            } else {
                (ri_, rj_)
            };
            assert(forall|k: int| 0 <= k < or.len() ==> #[trigger] nr[k] == if or[k] == ch { rt } else { or[k] });
            assert(rt == root as nat) by {
                assert(nr[i.spec_id() as int] == rt);
            }
            assert(or[ri_ as int] == ri_ && or[rj_ as int] == rj_);
            assert(before.areas@[ri_ as int].spec_sum() as int == class_hint_sum(or, hs, ri_, n as int) % 0x1_0000_0000);
            assert(before.areas@[rj_ as int].spec_sum() as int == class_hint_sum(or, hs, rj_, n as int) % 0x1_0000_0000);
            assert forall|r: int|
                0 <= r < n && nr[r] == r implies (#[trigger] self.areas@[r]).spec_sum() as int == class_hint_sum(
                    nr,
                    hs,
                    r as nat,
                    n as int,
                ) % 0x1_0000_0000 by {
                lemma_sum_merged(or, nr, hs, ch, rt, r as nat, n as int);
                if r == rt as int {
                    lemma_sum_nonneg(or, hs, ri_, n as int);
                    lemma_sum_nonneg(or, hs, rj_, n as int);
                    lemma_add_mod32(class_hint_sum(or, hs, ri_, n as int), class_hint_sum(or, hs, rj_, n as int));
                } else {
                    assert(or[r] == r);
                    assert(self.areas@[r] == old_areas[r]);
                }
            }
            lemma_count_two(or, ri_, rj_, n as int);
            assert(before.areas@[ri_ as int].spec_cells() == count_rep(or, ri_, n as int));
            assert(before.areas@[rj_ as int].spec_cells() == count_rep(or, rj_, n as int));
            assert forall|r: int| 0 <= r < n && nr[r] == r implies (#[trigger] self.areas@[r]).spec_cells() == count_rep(
                nr,
                r as nat,
                n as int,
            ) by {
                lemma_count_merged(or, nr, ch, rt, r as nat, n as int);
                if r == rt as int {
                    assert(before.areas@[ri_ as int].spec_cells() + before.areas@[rj_ as int].spec_cells() <= n);
                    assert(n <= usize::MAX);
                } else {
                    assert(or[r] == r);
                    assert(self.areas@[r] == old_areas[r]);
                }
            }
            assert forall|k: int| 0 <= k < self.areas@.len() implies (#[trigger] self.areas@[k]).fits(n) by {
                if k == root as int {
                } else if k == ri as int || k == rj as int {
                    assert(self.areas@[k] == mid_areas[k]);
                    assert(self.areas@[k].edges().len() == 0);
                } else {
                    assert(self.areas@[k] == old_areas[k]);
                }
            }
            assert forall|k: int|
                0 <= k < before.cells() && !before.joined(k, i.spec_id() as int) && !before.joined(k, j.spec_id() as int)
                    implies #[trigger] self.area_of(k) == before.area_of(k) by {
                before.uf.lemma_wf(k);
                self.uf.lemma_wf(k);
                assert(self.reps()[k] == before.reps()[k] || self.reps()[k] == before.reps()[i.spec_id() as int]
                    || self.reps()[k] == before.reps()[j.spec_id() as int]);
                assert(self.reps()[k] == before.reps()[k]);
            }
        }
        true
    }

    /// Takes the unknown edges out of the area of `p` when `p` names it; `None` (and no
    /// change) otherwise.
    fn take_edges(&mut self, p: CellId) -> (r: Option<Vec<CellId>>)
        requires
            old(self).wf(),
            p.spec_id() < old(self).cells(),
        ensures
            final(self).hints() == old(self).hints(),
            final(self).wf(),
            final(self).cells() == old(self).cells(),
            final(self).reps() == old(self).reps(),
            final(self).spec_sum() == old(self).spec_sum(),
            r is None <==> !old(self).named(p.spec_id() as int),
            r is None ==> final(self).slots() == old(self).slots(),
            r matches Some(e) ==> e@ == old(self).area_of(p.spec_id() as int).edges(),
            r is Some ==> final(self).area_of(p.spec_id() as int).edges().len() == 0,
            forall|k: int| 0 <= k < old(self).cells() ==> (#[trigger] final(self).area_of(k)).spec_coord()
                == old(self).area_of(k).spec_coord(),
            forall|k: int| 0 <= k < old(self).cells() ==> (#[trigger] final(self).area_of(k)).spec_side()
                == old(self).area_of(k).spec_side(),
            forall|k: int|
                0 <= k < old(self).cells() && !old(self).joined(k, p.spec_id() as int) ==> #[trigger] final(self).area_of(k)
                    == old(self).area_of(k),
    {
        proof {
            self.uf.lemma_wf(p.spec_id() as int);
        }
        let k = self.uf.find_root_key(p.id());
        if self.areas[k].coord.id() != p.id() {
            return None;
        }
        let ghost n = self.uf.spec_size();
        let ghost old_areas = self.areas@;
        let mut a: Area = Area::empty();
        std::mem::swap(&mut a, &mut self.areas[k]);
        let edges = a.unknown_edge;
        a.unknown_edge = Vec::new();
        self.areas.set(k, a);
        proof {
            assert forall|i: int| 0 <= i < self.areas@.len() implies (#[trigger] self.areas@[i]).fits(n) by {
                if i != k as int {
                    assert(self.areas@[i] == old_areas[i]);
                }
            }
            assert forall|q: int| 0 <= q < n implies (#[trigger] self.area_of(q)).spec_coord()
                == old(self).area_of(q).spec_coord() by {
                self.uf.lemma_wf(q);
            }
            assert forall|q: int| 0 <= q < n implies (#[trigger] self.area_of(q)).spec_side()
                == old(self).area_of(q).spec_side() by {
                self.uf.lemma_wf(q);
            }
            assert forall|q: int| 0 <= q < n && !old(self).joined(q, p.spec_id() as int) implies #[trigger] self.area_of(q)
                == old(self).area_of(q) by {
                self.uf.lemma_wf(q);
                assert(self.areas@[self.reps()[q] as int] == old_areas[self.reps()[q] as int]);
            }
        }
        Some(edges)
    }

    /// Gives the area of `p` its unknown edges back: sets them when the area has none,
    /// appends them otherwise. In the second case returns the name of the area when it is
    /// not above `p`.
    fn append_edges(&mut self, p: CellId, edges: Vec<CellId>) -> (r: Option<CellId>)
        requires
            old(self).wf(),
            p.spec_id() < old(self).cells(),
            forall|i: int| 0 <= i < edges@.len() ==> (#[trigger] edges@[i]).spec_id() < old(self).cells(),
        ensures
            final(self).hints() == old(self).hints(),
            final(self).wf(),
            final(self).cells() == old(self).cells(),
            final(self).reps() == old(self).reps(),
            final(self).spec_sum() == old(self).spec_sum(),
            r is Some ==> old(self).area_of(p.spec_id() as int).edges().len() > 0,
            r matches Some(c) ==> c.spec_id() < old(self).cells(),
            r == (if old(self).area_of(p.spec_id() as int).edges().len() > 0 && old(self).area_of(
                p.spec_id() as int,
            ).spec_coord().spec_id() <= p.spec_id() {
                Some(old(self).area_of(p.spec_id() as int).spec_coord())
            } else {
                None
            }),
            final(self).area_of(p.spec_id() as int).edges() == (if old(self).area_of(p.spec_id() as int).edges().len() == 0 {
                edges@
            } else {
                old(self).area_of(p.spec_id() as int).edges() + edges@
            }),
            forall|k: int| 0 <= k < old(self).cells() ==> (#[trigger] final(self).area_of(k)).spec_coord()
                == old(self).area_of(k).spec_coord(),
            forall|k: int| 0 <= k < old(self).cells() ==> (#[trigger] final(self).area_of(k)).spec_side()
                == old(self).area_of(k).spec_side(),
            forall|k: int|
                0 <= k < old(self).cells() && !old(self).joined(k, p.spec_id() as int) ==> #[trigger] final(self).area_of(k)
                    == old(self).area_of(k),
    {
        proof {
            self.uf.lemma_wf(p.spec_id() as int);
        }
        let k = self.uf.find_root_key(p.id());
        let ghost n = self.uf.spec_size();
        let ghost old_areas = self.areas@;
        let mut a: Area = Area::empty();
        std::mem::swap(&mut a, &mut self.areas[k]);
        let mut edges = edges;
        let ghost ae = a.unknown_edge@;
        let ghost ee = edges@;
        let mut need: Option<CellId> = None;
        if a.unknown_edge.len() == 0 {
            a.unknown_edge = edges;
        } else {
            a.unknown_edge.append(&mut edges);
            if a.coord.id() <= p.id() {
                need = Some(a.coord);
            }
        }
        proof {
            assert forall|i: int| 0 <= i < a.unknown_edge@.len() implies (#[trigger] a.unknown_edge@[i]).spec_id() < n by {
                if ae.len() > 0 {
                    assert(a.unknown_edge@ == ae + ee);
                    if i < ae.len() {
                        assert(old_areas[k as int].edges()[i] == ae[i]);
                    } else {
                        assert(ee[i - ae.len()] == a.unknown_edge@[i]);
                    }
                }
            }
        }
        self.areas.set(k, a);
        proof {
            assert forall|i: int| 0 <= i < self.areas@.len() implies (#[trigger] self.areas@[i]).fits(n) by {
                if i != k as int {
                    assert(self.areas@[i] == old_areas[i]);
                }
            }
            assert forall|q: int| 0 <= q < n implies (#[trigger] self.area_of(q)).spec_coord()
                == old(self).area_of(q).spec_coord() by {
                self.uf.lemma_wf(q);
            }
            assert forall|q: int| 0 <= q < n implies (#[trigger] self.area_of(q)).spec_side()
                == old(self).area_of(q).spec_side() by {
                self.uf.lemma_wf(q);
            }
            assert forall|q: int| 0 <= q < n && !old(self).joined(q, p.spec_id() as int) implies #[trigger] self.area_of(q)
                == old(self).area_of(q) by {
                self.uf.lemma_wf(q);
                assert(self.areas@[self.reps()[q] as int] == old_areas[self.reps()[q] as int]);
            }
        }
        need
    }

    /// Sets the side and the unknown edges of the area of `p`.
    fn set_area(&mut self, p: CellId, side: State<Side>, edges: Vec<CellId>)
        requires
            old(self).wf(),
            p.spec_id() < old(self).cells(),
            forall|i: int| 0 <= i < edges@.len() ==> (#[trigger] edges@[i]).spec_id() < old(self).cells(),
        ensures
            final(self).hints() == old(self).hints(),
            final(self).wf(),
            final(self).cells() == old(self).cells(),
            final(self).reps() == old(self).reps(),
            final(self).spec_sum() == old(self).spec_sum(),
            final(self).area_of(p.spec_id() as int).spec_side() == side,
            final(self).area_of(p.spec_id() as int).edges() == edges@,
            forall|k: int| 0 <= k < old(self).cells() ==> (#[trigger] final(self).area_of(k)).spec_coord()
                == old(self).area_of(k).spec_coord(),
            forall|k: int|
                0 <= k < old(self).cells() && !old(self).joined(k, p.spec_id() as int) ==> #[trigger] final(self).area_of(k)
                    == old(self).area_of(k),
    {
        proof {
            self.uf.lemma_wf(p.spec_id() as int);
        }
        let k = self.uf.find_root_key(p.id());
        let ghost n = self.uf.spec_size();
        let ghost old_areas = self.areas@;
        let mut a: Area = Area::empty();
        std::mem::swap(&mut a, &mut self.areas[k]);
        a.side = side;
        a.unknown_edge = edges;
        self.areas.set(k, a);
        proof {
            assert forall|i: int| 0 <= i < self.areas@.len() implies (#[trigger] self.areas@[i]).fits(n) by {
                if i != k as int {
                    assert(self.areas@[i] == old_areas[i]);
                }
            }
            assert forall|q: int| 0 <= q < n implies (#[trigger] self.area_of(q)).spec_coord()
                == old(self).area_of(q).spec_coord() by {
                self.uf.lemma_wf(q);
            }
            assert forall|q: int| 0 <= q < n && !old(self).joined(q, p.spec_id() as int) implies #[trigger] self.area_of(q)
                == old(self).area_of(q) by {
                self.uf.lemma_wf(q);
                assert(self.areas@[self.reps()[q] as int] == old_areas[self.reps()[q] as int]);
            }
        }
    }

    /// Joins the areas across known crosses, then brings every area up to date: its side,
    /// and the names of the areas across its unknown edges. Fails when an edge is in
    /// conflict, or when more than two areas are closed.
    pub fn sync(&mut self, side_map: &mut SideMap) -> (r: SolverResult<()>)
        requires
            old(self).wf(),
            old(side_map).wf(),
            old(self).sound(&*old(side_map)),
        ensures
            final(self).hints() == old(self).hints(),
            final(self).wf(),
            final(self).cells() == old(self).cells(),
            final(self).spec_sum() == old(self).spec_sum(),
            final(self).classes() <= old(self).classes(),
            final(side_map).wf(),
            final(side_map).same_view(*old(side_map)),
            final(self).sound(&*final(side_map)),
            r is Ok ==> final(self).count_closed(final(self).cells() as int) <= 2,
            r is Ok ==> forall|c: int|
                0 <= c < final(self).cells() && #[trigger] final(self).named(c) ==> final(self).area_of(c).spec_side()
                    == final(side_map).side_state(c as nat),
            r is Err ==> r->Err_0 == Error::spec_invalid_board(),
    {
        let ghost sm0 = *side_map;
        let ghost c_start = self.classes();
        proof {
            lemma_same_view_refl(sm0);
            self.uf.lemma_wf(0);
        }
        let n = self.areas.len();
        let mut i: usize = 0;
        while i < n
            invariant
                i <= n,
                n == self.cells(),
                self.wf(),
                self.spec_sum() == old(self).spec_sum(),
                self.hints() == old(self).hints(),
                self.classes() <= c_start,
                c_start == old(self).classes(),
                side_map.wf(),
                side_map.same_view(sm0),
                sm0 == *old(side_map),
                self.sound(&*side_map),
            decreases n - i,
        {
            let ghost sm1 = *side_map;
            update_conn(side_map, self, CellId::new(i));
            proof {
                lemma_same_view_trans(sm0, sm1, *side_map);
            }
            i = i + 1;
        }
        let ghost reps0 = self.reps();
        let ghost cm0 = *self;
        let mut closed_cnt: usize = 0;
        let mut i: usize = 0;
        while i < n
            invariant
                i <= n,
                n == self.cells(),
                self.wf(),
                self.spec_sum() == old(self).spec_sum(),
                self.hints() == old(self).hints(),
                self.reps() == reps0,
                reps0 == cm0.reps(),
                cm0.cells() == n,
                cm0.classes() <= old(self).classes(),
                n == old(self).cells(),
                forall|k: int| 0 <= k < n ==> (#[trigger] self.area_of(k)).spec_coord() == cm0.area_of(k).spec_coord(),
                side_map.wf(),
                side_map.same_view(sm0),
                sm0 == *old(side_map),
                self.sound(&*side_map),
                closed_cnt == self.count_closed(i as int),
                closed_cnt <= i,
                forall|c: int| 0 <= c < i && #[trigger] self.named(c) ==> self.area_of(c).spec_side() == side_map.side_state(
                    c as nat,
                ),
            decreases n - i,
        {
            let ghost sm1 = *side_map;
            let ghost before = *self;
            let res = update_area(side_map, self, CellId::new(i));
            proof {
                lemma_same_view_trans(sm0, sm1, *side_map);
                lemma_sound_same_reps(before, *self, sm1, *side_map);
            }
            let closed = match res {
                Ok(b) => b,
                Err(e) => {
                    return Err(e);
                },
            };
            proof {
                assert forall|c: int| 0 <= c < i implies #[trigger] self.closed(c) == before.closed(c) by {
                    if !before.joined(c, i as int) {
                        assert(self.area_of(c) == before.area_of(c));
                    } else if before.named(i as int) {
                        assert(before.area_of(c) == before.area_of(i as int));
                        assert(self.area_of(c).spec_coord() == before.area_of(c).spec_coord());
                    } else {
                        assert(self.slots() == before.slots());
                        assert(self.area_of(c) == before.area_of(c));
                    }
                }
                lemma_count_closed_same(*self, before, i as int);
                assert forall|c: int| 0 <= c < i + 1 && #[trigger] self.named(c) implies self.area_of(c).spec_side()
                    == side_map.side_state(c as nat) by {
                    if c < i {
                        assert(self.area_of(c).spec_coord() == before.area_of(c).spec_coord());
                        assert(before.named(c));
                        if before.joined(c, i as int) {
                            assert(before.area_of(c) == before.area_of(i as int));
                            assert(!before.named(i as int));
                            assert(self.slots() == before.slots());
                        }
                        assert(self.area_of(c) == before.area_of(c));
                    }
                }
            }
            if closed {
                closed_cnt = closed_cnt + 1;
            }
            i = i + 1;
        }
        if closed_cnt > 2 {
            return Err(Error::invalid_board());
        }
        Ok(())
    }

    /// The number of areas: the cells that name their areas.
    pub fn count_area(&mut self) -> (r: usize)
        requires
            old(self).wf(),
        ensures
            final(self).wf(),
            final(self).same_areas(&*old(self)),
            r == old(self).count_named(old(self).cells() as int),
            r == old(self).classes(),
    {
        proof {
            self.uf.lemma_wf(0);
            self.lemma_count_area();
        }
        let n = self.areas.len();
        let mut cnt: usize = 0;
        let mut i: usize = 0;
        while i < n
            invariant
                i <= n,
                n == old(self).cells(),
                self.wf(),
                self.same_areas(&*old(self)),
                cnt == old(self).count_named(i as int),
                cnt <= i,
            decreases n - i,
        {
            let c = CellId::new(i);
            let a = self.get(c);
            if a.coord().id() == i {
                cnt = cnt + 1;
            }
            i = i + 1;
        }
        cnt
    }
    /// A copy of the map.
    pub fn duplicate(&self) -> (r: ConnectMap)
        ensures
            r.wf() == self.wf(),
            r.cells() == self.cells(),
            r.reps() == self.reps(),
            r.spec_sum() == self.spec_sum(),
            r.hints() == self.hints(),
            r.slots().len() == self.slots().len(),
            forall|k: int| 0 <= k < self.slots().len() ==> (#[trigger] r.slots()[k]).spec_coord() == self.slots()[k].spec_coord()
                && r.slots()[k].spec_side() == self.slots()[k].spec_side() && r.slots()[k].edges() == self.slots()[k].edges()
                && r.slots()[k].spec_sum() == self.slots()[k].spec_sum(),
    {
        let mut areas: Vec<Area> = Vec::new();
        let mut i: usize = 0;
        while i < self.areas.len()
            invariant
                i <= self.areas@.len(),
                areas@.len() == i,
                forall|k: int| 0 <= k < i ==> (#[trigger] areas@[k]).spec_coord() == self.areas@[k].spec_coord()
                    && areas@[k].spec_side() == self.areas@[k].spec_side() && areas@[k].edges() == self.areas@[k].edges()
                    && areas@[k].spec_sum() == self.areas@[k].spec_sum() && areas@[k].spec_cells() == self.areas@[k].spec_cells(),
            decreases self.areas@.len() - i,
        {
            areas.push(self.areas[i].duplicate());
            i = i + 1;
        }
        let r = ConnectMap { sum_of_hint: self.sum_of_hint, uf: self.uf.duplicate(), areas: areas, hints: Ghost(self.hints@) };
        proof {
            if self.wf() {
                assert forall|k: int| 0 <= k < r.areas@.len() implies (#[trigger] r.areas@[k]).fits(r.uf.spec_size()) by {
                    assert(self.areas@[k].fits(self.uf.spec_size()));
                }
                assert forall|k: int| 0 <= k < r.uf.spec_size() && r.uf.reps()[k] == k implies r.uf.reps()[(
                    #[trigger] r.areas@[k]).spec_coord().spec_id() as int] == k by {
                    assert(self.areas@[k].spec_coord() == r.areas@[k].spec_coord());
                }
                assert forall|k: int| 0 <= k < r.uf.spec_size() && r.uf.reps()[k] == k implies (#[trigger] r.areas@[k]).spec_sum() as int
                    == class_hint_sum(r.uf.reps(), r.hints@, k as nat, r.uf.spec_size() as int) % 0x1_0000_0000 by {
                    assert(self.areas@[k].spec_sum() == r.areas@[k].spec_sum());
                }
                assert forall|k: int| 0 <= k < r.uf.spec_size() && r.uf.reps()[k] == k implies (#[trigger] r.areas@[k]).spec_cells()
                    == count_rep(r.uf.reps(), k as nat, r.uf.spec_size() as int) by {
                    assert(self.areas@[k].spec_cells() == r.areas@[k].spec_cells());
                }
            }
            if r.wf() {
                assert forall|k: int| 0 <= k < self.uf.spec_size() && self.uf.reps()[k] == k implies (#[trigger] self.areas@[k]).spec_cells()
                    == count_rep(self.uf.reps(), k as nat, self.uf.spec_size() as int) by {
                    assert(self.areas@[k].spec_cells() == r.areas@[k].spec_cells());
                }
                assert forall|k: int| 0 <= k < self.uf.spec_size() && self.uf.reps()[k] == k implies (#[trigger] self.areas@[k]).spec_sum() as int
                    == class_hint_sum(self.uf.reps(), self.hints@, k as nat, self.uf.spec_size() as int) % 0x1_0000_0000 by {
                    assert(self.areas@[k].spec_sum() == r.areas@[k].spec_sum());
                }
                assert forall|k: int| 0 <= k < self.areas@.len() implies (#[trigger] self.areas@[k]).fits(self.uf.spec_size()) by {
                    assert(r.areas@[k].fits(r.uf.spec_size()));
                }
                assert forall|k: int| 0 <= k < self.uf.spec_size() && self.uf.reps()[k] == k implies self.uf.reps()[(
                    #[trigger] self.areas@[k]).spec_coord().spec_id() as int] == k by {
                    assert(self.areas@[k].spec_coord() == r.areas@[k].spec_coord());
                }
            }
        }
        r
    }

}


/// The cells below `k` that name their areas.
pub open spec fn named_set(cm: ConnectMap, k: int) -> Set<int> {
    Set::new(|c: int| 0 <= c < k && cm.named(c))
}

/// The indices below `k` that represent themselves.
pub open spec fn root_set(reps: Seq<nat>, k: int) -> Set<int> {
    Set::new(|r: int| 0 <= r < k && reps[r] == r)
}

/// Counting the named cells counts the set of them.
proof fn lemma_count_named_set(cm: ConnectMap, k: int)
    requires
        k >= 0,
    ensures
        named_set(cm, k).finite(),
        cm.count_named(k) == named_set(cm, k).len(),
    decreases k,
{
    if k == 0 {
        assert(named_set(cm, 0) =~= Set::empty());
    } else {
        lemma_count_named_set(cm, k - 1);
        if cm.named(k - 1) {
            assert(named_set(cm, k) =~= named_set(cm, k - 1).insert(k - 1));
        } else {
            assert(named_set(cm, k) =~= named_set(cm, k - 1));
        }
    }
}

/// Counting the representatives counts the set of them.
proof fn lemma_count_roots_set(reps: Seq<nat>)
    ensures
        root_set(reps, reps.len() as int).finite(),
        count_roots(reps) == root_set(reps, reps.len() as int).len(),
    decreases reps.len(),
{
    let n = reps.len() as int;
    if n == 0 {
        assert(root_set(reps, 0) =~= Set::empty());
    } else {
        let rest = reps.drop_last();
        lemma_count_roots_set(rest);
        assert(root_set(rest, n - 1) =~= Set::new(|r: int| 0 <= r < n - 1 && reps[r] == r));
        if reps[n - 1] == (n - 1) as nat {
            assert(root_set(reps, n) =~= root_set(rest, n - 1).insert(n - 1));
        } else {
            assert(root_set(reps, n) =~= root_set(rest, n - 1));
        }
    }
}

/// Maps with the same areas count the same named and closed areas.
pub proof fn lemma_same_areas_counts(a: ConnectMap, b: ConnectMap, k: int)
    requires
        a.same_areas(&b),
    ensures
        a.count_named(k) == b.count_named(k),
        a.count_closed(k) == b.count_closed(k),
    decreases k,
{
    if k > 0 {
        lemma_same_areas_counts(a, b, k - 1);
        assert(a.area_of(k - 1) == b.area_of(k - 1));
    }
}

/// Areas that agree on which cells close them agree on the count below `k`.
pub proof fn lemma_count_closed_same(a: ConnectMap, b: ConnectMap, k: int)
    requires
        forall|c: int| 0 <= c < k ==> #[trigger] a.closed(c) == b.closed(c),
    ensures
        a.count_closed(k) == b.count_closed(k),
    decreases k,
{
    if k > 0 {
        lemma_count_closed_same(a, b, k - 1);
        assert(a.closed(k - 1) == b.closed(k - 1));
    }
}

/// Areas with the same classes are sound with a side map that knows more.
pub proof fn lemma_sound_same_reps(a: ConnectMap, b: ConnectMap, sm1: SideMap, sm2: SideMap)
    requires
        a.sound(&sm1),
        b.cells() == a.cells(),
        b.reps() == a.reps(),
        sm2.num_cells() == sm1.num_cells(),
        forall|i: nat, j: nat|
            i < 2 * sm1.num_cells() && j < 2 * sm1.num_cells() && #[trigger] sm1.together(i, j) ==> sm2.together(i, j),
    ensures
        b.sound(&sm2),
{
    assert forall|x: int, y: int| 0 <= x < b.cells() && 0 <= y < b.cells() && #[trigger] b.joined(x, y) implies sm2.together(
        key0(x as nat),
        key0(y as nat),
    ) by {
        assert(a.joined(x, y));
        assert(sm1.together(key0(x as nat), key0(y as nat)));
    }
}

/// Joining two cells on the same side keeps the areas sound.
proof fn lemma_sound_after_union(before: ConnectMap, after: ConnectMap, sm: SideMap, i: int, j: int)
    requires
        before.sound(&sm),
        after.cells() == before.cells(),
        0 <= i < before.cells(),
        0 <= j < before.cells(),
        sm.together(key0(i as nat), key0(j as nat)),
        forall|a: int, b: int|
            0 <= a < before.cells() && 0 <= b < before.cells() ==> (#[trigger] after.joined(a, b) <==> (before.joined(a, b)
                || (before.joined(a, i) && before.joined(b, j)) || (before.joined(a, j) && before.joined(b, i)))),
    ensures
        after.sound(&sm),
{
    let n = before.cells();
    assert forall|a: int, b: int| 0 <= a < n && 0 <= b < n && #[trigger] after.joined(a, b) implies sm.together(
        key0(a as nat),
        key0(b as nat),
    ) by {
        let ka = key0(a as nat);
        let kb = key0(b as nat);
        let ki = key0(i as nat);
        let kj = key0(j as nat);
        if before.joined(a, b) {
            assert(sm.together(ka, kb));
        } else if before.joined(a, i) && before.joined(b, j) {
            assert(sm.together(ka, ki));
            assert(sm.together(kb, kj));
            sm.lemma_together_equiv(ka, ki, kj);
            sm.lemma_together_equiv(kb, kj, ka);
            sm.lemma_together_equiv(ka, kj, kb);
        } else {
            assert(before.joined(a, j) && before.joined(b, i));
            assert(sm.together(ka, kj));
            assert(sm.together(kb, ki));
            sm.lemma_together_equiv(ki, kj, kb);
            sm.lemma_together_equiv(ka, kj, ki);
            sm.lemma_together_equiv(kb, ki, ka);
            sm.lemma_together_equiv(ka, ki, kb);
        }
    }
}

/// Joins the area named `p` with the areas across its unknown edges that became crosses,
/// then does the same for the merged area when its name is not above `p`.
fn update_conn(side_map: &mut SideMap, conn_map: &mut ConnectMap, p: CellId)
    requires
        old(side_map).wf(),
        old(conn_map).wf(),
        old(conn_map).sound(&*old(side_map)),
        p.spec_id() < old(conn_map).cells(),
    ensures
        final(conn_map).hints() == old(conn_map).hints(),
        final(side_map).wf(),
        final(side_map).same_view(*old(side_map)),
        final(conn_map).wf(),
        final(conn_map).cells() == old(conn_map).cells(),
        final(conn_map).spec_sum() == old(conn_map).spec_sum(),
        final(conn_map).classes() <= old(conn_map).classes(),
        final(conn_map).sound(&*final(side_map)),
        forall|a: int, b: int|
            0 <= a < old(conn_map).cells() && 0 <= b < old(conn_map).cells() && old(conn_map).joined(a, b)
                ==> #[trigger] final(conn_map).joined(a, b),
        old(conn_map).named(p.spec_id() as int) ==> forall|i: int|
            0 <= i < old(conn_map).area_of(p.spec_id() as int).edges().len() && old(side_map).edge_state(
                p.spec_id(),
                (#[trigger] old(conn_map).area_of(p.spec_id() as int).edges()[i]).spec_id(),
            ) == State::Fixed(Edge::Cross) ==> final(conn_map).joined(
                p.spec_id() as int,
                old(conn_map).area_of(p.spec_id() as int).edges()[i].spec_id() as int,
            ),
    decreases old(conn_map).classes(),
{
    let ghost sm0 = *side_map;
    proof {
        lemma_same_view_refl(sm0);
    }
    let taken = conn_map.take_edges(p);
    proof {
        lemma_sound_same_reps(*old(conn_map), *conn_map, sm0, sm0);
    }
    let edges = match taken {
        Some(e) => e,
        None => {
            return ;
        },
    };
    let ghost c0 = conn_map.classes();
    let ghost n = conn_map.cells();
    proof {
        conn_map.lemma_wf(p.spec_id() as int);
        old(conn_map).lemma_wf(p.spec_id() as int);
    }
    let mut k: usize = 0;
    while k < edges.len()
        invariant
            k <= edges.len(),
            n == conn_map.cells(),
            n == old(conn_map).cells(),
            p.spec_id() < n,
            forall|i: int| 0 <= i < edges@.len() ==> (#[trigger] edges@[i]).spec_id() < n,
            side_map.wf(),
            side_map.same_view(sm0),
            sm0 == *old(side_map),
            conn_map.wf(),
            conn_map.spec_sum() == old(conn_map).spec_sum(),
            conn_map.hints() == old(conn_map).hints(),
            conn_map.sound(&*side_map),
            conn_map.classes() <= c0,
            c0 == old(conn_map).classes(),
            conn_map.classes() == c0 ==> conn_map.area_of(p.spec_id() as int).edges().len() == 0,
            edges@ == old(conn_map).area_of(p.spec_id() as int).edges(),
            forall|a: int, b: int|
                0 <= a < n && 0 <= b < n && old(conn_map).joined(a, b) ==> #[trigger] conn_map.joined(a, b),
            forall|i: int|
                0 <= i < k && sm0.edge_state(p.spec_id(), (#[trigger] edges@[i]).spec_id()) == State::Fixed(Edge::Cross)
                    ==> conn_map.joined(p.spec_id() as int, edges@[i].spec_id() as int),
        decreases edges.len() - k,
    {
        let q = edges[k];
        let ghost sm1 = *side_map;
        let st = side_map.get_edge(p, q);
        proof {
            lemma_same_view_trans(sm0, sm1, *side_map);
            lemma_sound_same_reps(*conn_map, *conn_map, sm1, *side_map);
        }
        let ghost before = *conn_map;
        if let State::Fixed(Edge::Cross) = st {
            conn_map.union(p, q);
            proof {
                lemma_sound_after_union(before, *conn_map, *side_map, p.spec_id() as int, q.spec_id() as int);
            }
        }
        proof {
            assert(st == sm0.edge_state(p.spec_id(), q.spec_id()));
            assert forall|i: int|
                0 <= i < k + 1 && sm0.edge_state(p.spec_id(), (#[trigger] edges@[i]).spec_id()) == State::Fixed(Edge::Cross)
                    implies conn_map.joined(p.spec_id() as int, edges@[i].spec_id() as int) by {
                if i < k {
                    assert(before.joined(p.spec_id() as int, edges@[i].spec_id() as int));
                }
            }
        }
        k = k + 1;
    }
    let ghost cm2 = *conn_map;
    let need = conn_map.append_edges(p, edges);
    proof {
        lemma_sound_same_reps(cm2, *conn_map, *side_map, *side_map);
    }
    let ghost cm3 = *conn_map;
    if let Some(c) = need {
        update_conn(side_map, conn_map, c);
    }
    proof {
        assert forall|a: int, b: int|
            0 <= a < n && 0 <= b < n && old(conn_map).joined(a, b) implies #[trigger] conn_map.joined(a, b) by {
            assert(cm2.joined(a, b));
            assert(cm3.joined(a, b));
        }
        assert forall|i: int|
            0 <= i < edges@.len() && sm0.edge_state(p.spec_id(), (#[trigger] edges@[i]).spec_id()) == State::Fixed(Edge::Cross)
                implies conn_map.joined(p.spec_id() as int, edges@[i].spec_id() as int) by {
            assert(cm2.joined(p.spec_id() as int, edges@[i].spec_id() as int));
            assert(cm3.joined(p.spec_id() as int, edges@[i].spec_id() as int));
        }
    }
}

/// Brings the area named `p` up to date: drops its known edges, names the areas across
/// the unknown ones (sorted, each once) and reads its side. Returns whether no edge is
/// left unknown; fails on an edge in conflict.
fn update_area(side_map: &mut SideMap, conn_map: &mut ConnectMap, p: CellId) -> (r: SolverResult<bool>)
    requires
        old(side_map).wf(),
        old(conn_map).wf(),
        old(conn_map).sound(&*old(side_map)),
        p.spec_id() < old(conn_map).cells(),
    ensures
        final(conn_map).hints() == old(conn_map).hints(),
        final(side_map).wf(),
        final(side_map).same_view(*old(side_map)),
        final(conn_map).wf(),
        final(conn_map).cells() == old(conn_map).cells(),
        final(conn_map).spec_sum() == old(conn_map).spec_sum(),
        final(conn_map).reps() == old(conn_map).reps(),
        forall|k: int| 0 <= k < old(conn_map).cells() ==> (#[trigger] final(conn_map).area_of(k)).spec_coord()
            == old(conn_map).area_of(k).spec_coord(),
        forall|k: int|
            0 <= k < old(conn_map).cells() && !old(conn_map).joined(k, p.spec_id() as int) ==> #[trigger] final(conn_map).area_of(k)
                == old(conn_map).area_of(k),
        !old(conn_map).named(p.spec_id() as int) ==> final(conn_map).slots() == old(conn_map).slots(),
        r matches Ok(b) ==> b == final(conn_map).closed(p.spec_id() as int),
        r is Ok && old(conn_map).named(p.spec_id() as int) ==> final(conn_map).area_of(p.spec_id() as int).spec_side()
            == old(side_map).side_state(p.spec_id()),
        r is Err ==> r->Err_0 == Error::spec_invalid_board(),
{
    let ghost sm0 = *side_map;
    let ghost cm0 = *conn_map;
    proof {
        lemma_same_view_refl(sm0);
        conn_map.lemma_wf(p.spec_id() as int);
    }
    let taken = conn_map.take_edges(p);
    let edges = match taken {
        Some(e) => e,
        None => {
            return Ok(false);
        },
    };
    let ghost n = conn_map.cells();
    let ghost cm1 = *conn_map;
    let mut out: Vec<CellId> = Vec::new();
    let mut k: usize = 0;
    while k < edges.len()
        invariant
            k <= edges.len(),
            n == conn_map.cells(),
            p.spec_id() < n,
            forall|i: int| 0 <= i < edges@.len() ==> (#[trigger] edges@[i]).spec_id() < n,
            forall|i: int| 0 <= i < out@.len() ==> (#[trigger] out@[i]).spec_id() < n,
            side_map.wf(),
            side_map.same_view(sm0),
            sm0 == *old(side_map),
            side_map.num_cells() == n,
            conn_map.wf(),
            conn_map.same_areas(&cm1),
            cm1.hints() == old(conn_map).hints(),
            cm1.cells() == cm0.cells(),
            cm1.reps() == cm0.reps(),
            cm1.spec_sum() == cm0.spec_sum(),
            cm0 == *old(conn_map),
            cm0.named(p.spec_id() as int),
            forall|k: int| 0 <= k < cm0.cells() ==> (#[trigger] cm1.area_of(k)).spec_coord() == cm0.area_of(k).spec_coord(),
            forall|k: int|
                0 <= k < cm0.cells() && !cm0.joined(k, p.spec_id() as int) ==> #[trigger] cm1.area_of(k) == cm0.area_of(k),
        decreases edges.len() - k,
    {
        let q = edges[k];
        let ghost sm1 = *side_map;
        let st = side_map.get_edge(p, q);
        proof {
            lemma_same_view_trans(sm0, sm1, *side_map);
        }
        match st {
            State::Fixed(_) => {},
            State::Unknown => {
                proof {
                    conn_map.lemma_wf(q.spec_id() as int);
                }
                let c = conn_map.get(q).coord();
                out.push(c);
            },
            State::Conflict => {
                proof {
                    assert forall|k: int| 0 <= k < cm0.cells() implies (#[trigger] conn_map.area_of(k)).spec_coord()
                        == cm0.area_of(k).spec_coord() by {
                        assert(conn_map.area_of(k) == cm1.area_of(k));
                    }
                    assert forall|k: int| 0 <= k < cm0.cells() && !cm0.joined(k, p.spec_id() as int) implies #[trigger] conn_map.area_of(k)
                        == cm0.area_of(k) by {
                        assert(conn_map.area_of(k) == cm1.area_of(k));
                    }
                }
                return Err(Error::invalid_board());
            },
        }
        k = k + 1;
    }
    let out = sort_dedup(&out);
    proof {
        assert forall|i: int| 0 <= i < out@.len() implies (#[trigger] out@[i]).spec_id() < n by {
            assert(out@.contains(out@[i]));
        }
    }
    let is_closed = out.len() == 0;
    let ghost sm1 = *side_map;
    let side = side_map.get_side(p);
    proof {
        lemma_same_view_trans(sm0, sm1, *side_map);
    }
    let ghost cm2 = *conn_map;
    conn_map.set_area(p, side, out);
    proof {
        assert forall|k: int| 0 <= k < cm0.cells() implies (#[trigger] conn_map.area_of(k)).spec_coord()
            == cm0.area_of(k).spec_coord() by {
            assert(conn_map.area_of(k).spec_coord() == cm2.area_of(k).spec_coord());
            assert(cm2.area_of(k) == cm1.area_of(k));
        }
        assert forall|k: int| 0 <= k < cm0.cells() && !cm0.joined(k, p.spec_id() as int) implies #[trigger] conn_map.area_of(k)
            == cm0.area_of(k) by {
            assert(conn_map.area_of(k) == cm2.area_of(k));
            assert(cm2.area_of(k) == cm1.area_of(k));
        }
    }
    Ok(is_closed)
}
} // verus!
