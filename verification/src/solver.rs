//! The solving state of one puzzle: what is known of its cells, the theorems still waiting
//! for edges, and the areas of cells known to be on one side.
use vstd::prelude::*;

use crate::connect_analysis;
use crate::connect_analysis::{arts_decided, conn_graph, cuts_decided, synced};
use crate::connect_map::{lemma_sound_same_reps, ConnectMap};
use crate::geom::{CellId, Point};
use crate::model::{Error, ErrorKind, SolverResult, State};
use crate::puzzle::{Puzzle, Side};
use crate::side_map::{agrees, SideMap};
use crate::sorted::{insert_sorted, strictly_sorted, Ordered};
use crate::theorem::{all_valid, lemma_same_view_refl, PartialTheorem, Theorem};
use crate::theorem_pool::{all_true, lemma_same_view_keeps, narrows_one, pool_fits, theorem_fits, TheoremPool};

verus! {

/// The side map knows everything the puzzle states: sides, inner edges and border edges.
pub open spec fn knows_puzzle(sm: SideMap, puzzle: Puzzle) -> bool {
    &&& forall|p: Point| puzzle.spec_size().spec_contains(p) ==> #[trigger] sm.knows_point(puzzle, p)
    &&& forall|row: int| 0 <= row < puzzle.spec_size().0 ==> #[trigger] sm.knows_right_border(puzzle, row)
    &&& forall|col: int| 0 <= col < puzzle.spec_size().1 ==> #[trigger] sm.knows_bottom_border(puzzle, col)
}

/// A side map that keeps what another knows still knows the puzzle.
pub proof fn lemma_knows_puzzle_keeps(a: SideMap, b: SideMap, puzzle: Puzzle)
    requires
        knows_puzzle(a, puzzle),
        a.keeps(&b),
        puzzle.wf(),
        a.num_cells() == puzzle.spec_size().spec_cell_len(),
    ensures
        knows_puzzle(b, puzzle),
{
    a.lemma_keeps_knowledge(&b, puzzle);
    assert forall|p: Point| puzzle.spec_size().spec_contains(p) implies #[trigger] b.knows_point(puzzle, p) by {
        assert(a.knows_point(puzzle, p));
    }
    assert forall|row: int| 0 <= row < puzzle.spec_size().0 implies #[trigger] b.knows_right_border(puzzle, row) by {
        assert(a.knows_right_border(puzzle, row));
    }
    assert forall|col: int| 0 <= col < puzzle.spec_size().1 implies #[trigger] b.knows_bottom_border(puzzle, col) by {
        assert(a.knows_bottom_border(puzzle, col));
    }
}

/// `out` is `input` solved: the same size and hints, and every side and edge that `input`
/// states is in `out` too.
pub open spec fn respects(input: Puzzle, out: Puzzle) -> bool {
    let s = input.spec_size();
    &&& out.spec_size() == s
    &&& forall|q: Point| #[trigger] out.hint_at(q) == input.hint_at(q)
    &&& forall|p: Point|
        s.spec_contains(p) && input.side_at(p) is Some ==> #[trigger] out.side_at(p) == input.side_at(p)
    &&& forall|p: Point|
        s.spec_contains(p) && input.edge_h_at(p) is Some ==> #[trigger] out.edge_h_at(p) == input.edge_h_at(p)
    &&& forall|p: Point|
        s.spec_contains(p) && input.edge_v_at(p) is Some ==> #[trigger] out.edge_v_at(p) == input.edge_v_at(p)
    &&& forall|row: int|
        0 <= row < s.0 && input.edge_v_at(Point(row as i32, s.1)) is Some ==> #[trigger] out.edge_v_at(
            Point(row as i32, s.1),
        ) == input.edge_v_at(Point(row as i32, s.1))
    &&& forall|col: int|
        0 <= col < s.1 && input.edge_h_at(Point(s.0, col as i32)) is Some ==> #[trigger] out.edge_h_at(
            Point(s.0, col as i32),
        ) == input.edge_h_at(Point(s.0, col as i32))
}

/// A cell waiting for a side, ordered by the number of unknown edges around its area and
/// then by the cell.
#[derive(Clone, Copy, Debug)]
struct Candidate {
    count: usize,
    cell: CellId,
}

impl Ordered for Candidate {
    closed spec fn spec_lt(self, other: Candidate) -> bool {
        self.count < other.count || (self.count == other.count && self.cell.spec_id() < other.cell.spec_id())
    }

    proof fn lemma_order(a: Candidate, b: Candidate, c: Candidate) {
        CellId::lemma_id_injective(a.cell, b.cell);
    }

    fn lt(&self, other: &Candidate) -> (r: bool) {
        self.count < other.count || (self.count == other.count && self.cell.id() < other.cell.id())
    }

    fn equal(&self, other: &Candidate) -> (r: bool) {
        proof {
            CellId::lemma_id_injective(self.cell, other.cell);
        }
        self.count == other.count && self.cell.id() == other.cell.id()
    }
}

/// `r` lists the cells that name areas of unknown side, ordered by the number of unknown
/// edges around their areas, then by cell.
pub open spec fn unknown_points_of(cm: ConnectMap, r: Seq<CellId>) -> bool {
    &&& forall|c: CellId| #[trigger] r.contains(c) <==> (c.spec_id() < cm.cells() && cm.named(c.spec_id() as int)
        && cm.area_of(c.spec_id() as int).spec_side() == State::<Side>::Unknown)
    &&& forall|i: int, j: int|
        0 <= i < j < r.len() ==> {
            let a = cm.area_of((#[trigger] r[i]).spec_id() as int).edges().len();
            let b = cm.area_of((#[trigger] r[j]).spec_id() as int).edges().len();
            a < b || (a == b && r[i].spec_id() < r[j].spec_id())
        }
}

/// The solving state of a puzzle.
pub struct Solver<'a> {
    puzzle: &'a Puzzle,
    sum_of_hint: u32,
    theorem_pool: TheoremPool,
    side_map: SideMap,
    connect_map: Option<ConnectMap>,
    last_rev: Option<u32>,
}

impl<'a> Solver<'a> {
    /// The puzzle being solved.
    pub closed spec fn spec_puzzle(&self) -> Puzzle {
        *self.puzzle
    }

    /// What is known of the cells.
    pub closed spec fn map(&self) -> SideMap {
        self.side_map
    }

    /// The theorems still waiting to conclude.
    pub closed spec fn pool(&self) -> Seq<PartialTheorem> {
        self.theorem_pool.theorems()
    }

    /// The revision of the side map at which the connection analysis last ran.
    pub closed spec fn analysed_at(&self) -> Option<u32> {
        self.last_rev
    }

    /// The areas, once they have been built.
    pub closed spec fn conn(&self) -> Option<ConnectMap> {
        self.connect_map
    }

    /// The parts agree: one side map for the puzzle's cells that knows what the puzzle
    /// states, theorems over those cells, and areas sound with the side map.
    pub closed spec fn wf(&self) -> bool {
        &&& self.puzzle.wf()
        &&& self.side_map.wf()
        &&& self.side_map.num_cells() == self.puzzle.spec_size().spec_cell_len()
        &&& pool_fits(self.theorem_pool.theorems(), self.side_map.num_cells())
        &&& knows_puzzle(self.side_map, *self.puzzle)
        &&& match self.connect_map {
            Some(cm) => cm.wf() && cm.sound(&self.side_map),
            None => true,
        }
    }

    /// Facts of a consistent solver: its side map and puzzle are consistent and agree.
    pub proof fn lemma_wf(&self)
        requires
            self.wf(),
        ensures
            self.map().wf(),
            self.spec_puzzle().wf(),
            self.map().num_cells() == self.spec_puzzle().spec_size().spec_cell_len(),
            pool_fits(self.pool(), self.map().num_cells()),
    {
    }

    /// A solver for `puzzle` that knows what the puzzle states and what the theorems
    /// conclude from its hints alone; fails when that contradicts itself. Cell sides that
    /// agree with the puzzle and of which every image of every theorem is true everywhere
    /// are admitted and satisfy the waiting theorems; when it fails there are none.
    pub fn new(puzzle: &'a Puzzle, theorem: Vec<Theorem>) -> (r: SolverResult<Solver<'a>>)
        requires
            puzzle.wf(),
            forall|i: int| 0 <= i < theorem@.len() ==> theorem_fits(#[trigger] theorem@[i], *puzzle),
        ensures
            r matches Ok(s) ==> s.wf() && s.spec_puzzle() == *puzzle && s.conn() is None,
            r is Err ==> r->Err_0 == Error::spec_invalid_board(),
            forall|a: Seq<bool>|
                agrees(a, *puzzle) && #[trigger] all_true(theorem@, *puzzle, puzzle.spec_sum_of_hint() as u32, a) ==> (r matches Ok(
                    s,
                ) && s.map().admits(a) && all_valid(s.pool(), a)),
    {
        let sum_of_hint = puzzle.sum_of_hint();
        let mut side_map = SideMap::from_puzzle(puzzle);
        let ghost sm0 = side_map;
        let ghost defs = theorem@;
        let pool = match TheoremPool::new(theorem, puzzle, sum_of_hint, &mut side_map) {
            Ok(p) => p,
            Err(e) => {
                proof {
                    Error::lemma_invalid_board_kind();
                    assert forall|a: Seq<bool>| agrees(a, *puzzle) && #[trigger] all_true(defs, *puzzle, puzzle.spec_sum_of_hint() as u32, a)
                        implies false by {
                        assert(sm0.admits(a));
                        assert(side_map.admits(a));
                    }
                }
                return Err(Error::invalid_board());
            },
        };
        proof {
            lemma_knows_puzzle_keeps(sm0, side_map, *puzzle);
            assert forall|a: Seq<bool>| agrees(a, *puzzle) && #[trigger] all_true(defs, *puzzle, puzzle.spec_sum_of_hint() as u32, a)
                implies side_map.admits(a) && all_valid(pool.theorems(), a) by {
                assert(sm0.admits(a));
            }
        }
        Ok(
            Solver {
                puzzle: puzzle,
                sum_of_hint: sum_of_hint,
                theorem_pool: pool,
                side_map: side_map,
                connect_map: None,
                last_rev: None,
            },
        )
    }

    /// A copy of the solver.
    pub fn duplicate(&self) -> (r: Solver<'a>)
        requires
            self.wf(),
        ensures
            r.wf(),
            r.spec_puzzle() == self.spec_puzzle(),
            r.map().same_view(self.map()),
            r.conn() is Some == self.conn() is Some,
    {
        let side_map = self.side_map.duplicate();
        let connect_map = match &self.connect_map {
            Some(cm) => Some(cm.duplicate()),
            None => None,
        };
        let r = Solver {
            puzzle: self.puzzle,
            sum_of_hint: self.sum_of_hint,
            theorem_pool: self.theorem_pool.duplicate(),
            side_map: side_map,
            connect_map: connect_map,
            last_rev: self.last_rev,
        };
        proof {
            lemma_same_view_keeps(self.side_map, r.side_map);
            lemma_knows_puzzle_keeps(self.side_map, r.side_map, *self.puzzle);
            assert forall|i: int| 0 <= i < r.theorem_pool.theorems().len() implies crate::theorem::all_fit(
                (#[trigger] r.theorem_pool.theorems()[i]).matchers(),
                r.side_map.num_cells(),
            ) && crate::theorem::all_fit(r.theorem_pool.theorems()[i].results(), r.side_map.num_cells()) by {
                assert(self.theorem_pool.theorems()[i].matchers() == r.theorem_pool.theorems()[i].matchers());
            }
            if self.connect_map is Some {
                lemma_sound_same_reps(self.connect_map->0, r.connect_map->0, self.side_map, r.side_map);
            }
        }
        r
    }

    /// The number of changes made to the side map.
    pub fn revision(&self) -> (r: u32)
        ensures
            r == self.map().spec_revision(),
    {
        self.side_map.revision()
    }

    /// Whether every cell is known.
    pub fn all_filled(&self) -> (r: bool)
        ensures
            r == (self.map().spec_revision() == self.map().spec_max_revision()),
    {
        self.side_map.all_filled()
    }

    /// What is known of the side of cell `p`.
    pub fn get_side(&mut self, p: CellId) -> (r: State<Side>)
        requires
            old(self).wf(),
            p.spec_id() < old(self).map().num_cells(),
        ensures
            final(self).wf(),
            final(self).spec_puzzle() == old(self).spec_puzzle(),
            final(self).map().same_view(old(self).map()),
            final(self).conn() is Some == old(self).conn() is Some,
            r == old(self).map().side_state(p.spec_id()),
    {
        let ghost sm0 = self.side_map;
        let r = self.side_map.get_side(p);
        proof {
            self.lemma_map_grows(sm0);
        }
        r
    }

    /// Records that cell `p` is inside; returns whether anything changed.
    pub fn set_inside(&mut self, p: CellId) -> (r: bool)
        requires
            old(self).wf(),
            p.spec_id() < old(self).map().num_cells(),
        ensures
            final(self).wf(),
            final(self).spec_puzzle() == old(self).spec_puzzle(),
            old(self).map().set_result(final(self).map(), p.spec_id(), 0, false, r),
            final(self).conn() is Some == old(self).conn() is Some,
    {
        let ghost sm0 = self.side_map;
        let r = self.side_map.set_inside(p);
        proof {
            self.lemma_map_grows(sm0);
        }
        r
    }

    /// Records that cell `p` is outside; returns whether anything changed.
    pub fn set_outside(&mut self, p: CellId) -> (r: bool)
        requires
            old(self).wf(),
            p.spec_id() < old(self).map().num_cells(),
        ensures
            final(self).wf(),
            final(self).spec_puzzle() == old(self).spec_puzzle(),
            old(self).map().set_result(final(self).map(), p.spec_id(), 0, true, r),
            final(self).conn() is Some == old(self).conn() is Some,
    {
        let ghost sm0 = self.side_map;
        let r = self.side_map.set_outside(p);
        proof {
            self.lemma_map_grows(sm0);
        }
        r
    }

    /// After the side map grew from `before`, the solver is still consistent.
    proof fn lemma_map_grows(&self, before: SideMap)
        requires
            self.puzzle.wf(),
            self.side_map.wf(),
            before.keeps(&self.side_map) || self.side_map.same_view(before),
            before.num_cells() == self.puzzle.spec_size().spec_cell_len(),
            pool_fits(self.theorem_pool.theorems(), before.num_cells()),
            knows_puzzle(before, *self.puzzle),
            match self.connect_map {
                Some(cm) => cm.wf() && cm.sound(&before),
                None => true,
            },
        ensures
            self.wf(),
            before.keeps(&self.side_map),
    {
        if self.side_map.same_view(before) {
            lemma_same_view_keeps(before, self.side_map);
        }
        lemma_knows_puzzle_keeps(before, self.side_map, *self.puzzle);
        if self.connect_map is Some {
            lemma_sound_same_reps(self.connect_map->0, self.connect_map->0, before, self.side_map);
        }
    }

    /// Applies every waiting theorem once.
    pub fn apply_all_theorem(&mut self) -> (r: SolverResult<()>)
        requires
            old(self).wf(),
        ensures
            final(self).wf(),
            final(self).spec_puzzle() == old(self).spec_puzzle(),
            old(self).map().keeps(&final(self).map()),
            final(self).conn() is Some == old(self).conn() is Some,
            r is Err ==> r->Err_0 == Error::spec_invalid_board(),
            r is Err ==> forall|a: Seq<bool>| !#[trigger] final(self).map().admits(a),
            forall|i: int|
                0 <= i < final(self).pool().len() ==> #[trigger] narrows_one(old(self).map(), old(self).pool(), final(self).pool()[i]),
            forall|a: Seq<bool>|
                old(self).map().admits(a) && all_valid(old(self).pool(), a) ==> #[trigger] final(self).map().admits(a)
                    && all_valid(final(self).pool(), a),
    {
        let ghost sm0 = self.side_map;
        let r = self.theorem_pool.apply_all(&mut self.side_map);
        proof {
            self.lemma_map_grows(sm0);
        }
        match r {
            Ok(()) => Ok(()),
            Err(_) => Err(Error::invalid_board()),
        }
    }

    /// Builds the areas when they are not built yet.
    fn create_connect_map(&mut self)
        requires
            old(self).wf(),
        ensures
            final(self).wf(),
            final(self).spec_puzzle() == old(self).spec_puzzle(),
            final(self).map().same_view(old(self).map()),
            final(self).conn() is Some,
            old(self).conn() is Some ==> final(self).conn() == old(self).conn(),
            final(self).pool() == old(self).pool(),
            final(self).analysed_at() == old(self).analysed_at(),
    {
        if self.connect_map.is_none() {
            let ghost sm0 = self.side_map;
            let cm = ConnectMap::new(self.puzzle, &mut self.side_map);
            self.connect_map = Some(cm);
            proof {
                self.lemma_map_grows(sm0);
            }
        } else {
            proof {
                lemma_same_view_refl(self.side_map);
            }
        }
    }

    /// Decides sides from how the areas connect.
    pub fn connect_analysis(&mut self) -> (r: SolverResult<()>)
        requires
            old(self).wf(),
        ensures
            final(self).wf(),
            final(self).spec_puzzle() == old(self).spec_puzzle(),
            old(self).map().keeps(&final(self).map()),
            final(self).pool() == old(self).pool(),
            final(self).conn() is Some,
            r is Err ==> r->Err_0 == Error::spec_invalid_board(),
            r is Ok ==> synced(final(self).conn()->0, old(self).map()),
            r is Ok && old(self).analysed_at() != Some(old(self).map().spec_revision() as u32) ==> (exists|
                pts: Seq<CellId>,
                g: Seq<Vec<usize>>,
            |
                #[trigger] conn_graph(final(self).conn()->0, Side::Out, pts, g) && cuts_decided(
                    final(self).conn()->0,
                    final(self).map(),
                    Side::Out,
                    pts,
                    g,
                ) && arts_decided(final(self).conn()->0, final(self).map(), Side::In, pts, g)),
            r is Ok && old(self).analysed_at() != Some(old(self).map().spec_revision() as u32) ==> (exists|
                pts: Seq<CellId>,
                g: Seq<Vec<usize>>,
            |
                #[trigger] conn_graph(final(self).conn()->0, Side::In, pts, g) && cuts_decided(
                    final(self).conn()->0,
                    final(self).map(),
                    Side::In,
                    pts,
                    g,
                ) && arts_decided(final(self).conn()->0, final(self).map(), Side::Out, pts, g)),
    {
        self.create_connect_map();
        let ghost sm0 = self.side_map;
        let ghost lr0 = self.last_rev;
        let mut cm = self.connect_map.take().unwrap();
        let r = connect_analysis::run(&mut self.side_map, &mut cm, &mut self.last_rev);
        proof {
            lemma_same_view_keeps(old(self).side_map, sm0);
            old(self).side_map.lemma_keeps_transitive(&sm0, &self.side_map);
            lemma_knows_puzzle_keeps(old(self).side_map, self.side_map, *self.puzzle);
            if r.is_ok() {
                assert forall|c: int| 0 <= c < cm.cells() && #[trigger] cm.named(c) implies cm.area_of(c).spec_side()
                    == old(self).side_map.side_state(c as nat) by {
                    assert(cm.area_of(c).spec_side() == sm0.side_state(c as nat));
                }
            }
        }
        self.connect_map = Some(cm);
        r
    }

    /// Brings the areas up to date with the side map.
    fn sync_connection(&mut self) -> (r: SolverResult<()>)
        requires
            old(self).wf(),
        ensures
            final(self).wf(),
            final(self).spec_puzzle() == old(self).spec_puzzle(),
            final(self).map().same_view(old(self).map()),
            final(self).conn() is Some,
            r is Ok ==> ({
                let cm = final(self).conn()->0;
                &&& cm.count_closed(cm.cells() as int) <= 2
                &&& forall|c: int|
                    0 <= c < cm.cells() && #[trigger] cm.named(c) ==> cm.area_of(c).spec_side()
                        == final(self).map().side_state(c as nat)
            }),
            r is Err ==> r->Err_0 == Error::spec_invalid_board(),
    {
        self.create_connect_map();
        let ghost sm0 = self.side_map;
        let mut cm = self.connect_map.take().unwrap();
        let r = cm.sync(&mut self.side_map);
        proof {
            crate::theorem::lemma_same_view_trans(old(self).side_map, sm0, self.side_map);
            lemma_same_view_keeps(old(self).side_map, self.side_map);
            lemma_knows_puzzle_keeps(old(self).side_map, self.side_map, *self.puzzle);
        }
        self.connect_map = Some(cm);
        r
    }

    /// Checks a filled board: the areas are up to date and there are exactly two of them,
    /// the inside and the outside.
    pub fn validate_result(&mut self) -> (r: SolverResult<()>)
        requires
            old(self).wf(),
        ensures
            final(self).wf(),
            final(self).spec_puzzle() == old(self).spec_puzzle(),
            final(self).map().same_view(old(self).map()),
            r is Ok ==> ({
                let cm = final(self).conn()->0;
                &&& final(self).conn() is Some
                &&& cm.count_named(cm.cells() as int) == 2
                &&& cm.classes() == 2
                &&& cm.count_closed(cm.cells() as int) <= 2
                &&& forall|c: int|
                    0 <= c < cm.cells() && #[trigger] cm.named(c) ==> cm.area_of(c).spec_side()
                        == final(self).map().side_state(c as nat)
            }),
            r is Err ==> r->Err_0 == Error::spec_invalid_board(),
    {
        match self.sync_connection() {
            Ok(()) => {},
            Err(e) => {
                return Err(e);
            },
        }
        let mut cm = self.connect_map.take().unwrap();
        let ghost cm0 = cm;
        let n = cm.count_area();
        proof {
            lemma_sound_same_reps(cm0, cm, self.side_map, self.side_map);
            crate::connect_map::lemma_same_areas_counts(cm, cm0, cm0.cells() as int);
            cm.lemma_count_area();
            assert forall|c: int| 0 <= c < cm.cells() && #[trigger] cm.named(c) implies cm.area_of(c).spec_side()
                == self.side_map.side_state(c as nat) by {
                assert(cm.area_of(c) == cm0.area_of(c));
                assert(cm0.named(c));
            }
        }
        self.connect_map = Some(cm);
        if n != 2 {
            return Err(Error::invalid_board());
        }
        Ok(())
    }

    /// The cells that name areas whose side is unknown, the areas with fewer unknown edges
    /// first.
    pub fn get_unknown_points(&mut self) -> (r: Vec<CellId>)
        requires
            old(self).wf(),
        ensures
            final(self).wf(),
            final(self).spec_puzzle() == old(self).spec_puzzle(),
            final(self).map().same_view(old(self).map()),
            final(self).conn() is Some,
            unknown_points_of(final(self).conn()->0, r@),
            forall|i: int| 0 <= i < r@.len() ==> (#[trigger] r@[i]).spec_id() < final(self).map().num_cells(),
    {
        self.create_connect_map();
        let mut cm = self.connect_map.take().unwrap();
        let ghost cm0 = cm;
        let n = cm.cell_len();
        let mut cands: Vec<Candidate> = Vec::new();
        let mut i: usize = 0;
        while i < n
            invariant
                i <= n,
                n == cm0.cells(),
                cm.wf(),
                cm.same_areas(&cm0),
                strictly_sorted(cands@),
                forall|c: Candidate| #[trigger] cands@.contains(c) <==> (c.cell.spec_id() < i && cm0.named(
                    c.cell.spec_id() as int,
                ) && cm0.area_of(c.cell.spec_id() as int).spec_side() == State::<Side>::Unknown && c.count
                    == cm0.area_of(c.cell.spec_id() as int).edges().len()),
                forall|c: CellId|
                    c.spec_id() < i && cm0.named(c.spec_id() as int) && cm0.area_of(c.spec_id() as int).spec_side()
                        == State::<Side>::Unknown ==> exists|x: Candidate| #[trigger] cands@.contains(x) && x.cell == c,
            decreases n - i,
        {
            let p = CellId::new(i);
            let a = cm.get(p);
            let is_unknown = match a.side() {
                State::Unknown => true,
                _ => false,
            };
            if a.coord().id() == i && is_unknown {
                let len = a.unknown_edge().len();
                let ghost before = cands@;
                insert_sorted(&mut cands, Candidate { count: len, cell: p });
                proof {
                    assert forall|c: Candidate| #[trigger] cands@.contains(c) <==> (c.cell.spec_id() < i + 1 && cm0.named(
                        c.cell.spec_id() as int,
                    ) && cm0.area_of(c.cell.spec_id() as int).spec_side() == State::<Side>::Unknown && c.count
                        == cm0.area_of(c.cell.spec_id() as int).edges().len()) by {
                        if c.cell.spec_id() == i {
                            CellId::lemma_id_injective(c.cell, p);
                        }
                    }
                    assert forall|c: CellId|
                        c.spec_id() < i + 1 && cm0.named(c.spec_id() as int) && cm0.area_of(c.spec_id() as int).spec_side()
                            == State::<Side>::Unknown implies exists|x: Candidate| #[trigger] cands@.contains(x) && x.cell == c by {
                        if c.spec_id() == i {
                            CellId::lemma_id_injective(c, p);
                            assert(cands@.contains(Candidate { count: len, cell: p }));
                        } else {
                            let x = choose|x: Candidate| #[trigger] before.contains(x) && x.cell == c;
                            assert(cands@.contains(x));
                        }
                    }
                }
            } else {
                proof {
                    assert forall|c: Candidate| #[trigger] cands@.contains(c) <==> (c.cell.spec_id() < i + 1 && cm0.named(
                        c.cell.spec_id() as int,
                    ) && cm0.area_of(c.cell.spec_id() as int).spec_side() == State::<Side>::Unknown && c.count
                        == cm0.area_of(c.cell.spec_id() as int).edges().len()) by {
                        if c.cell.spec_id() == i {
                            CellId::lemma_id_injective(c.cell, p);
                        }
                    }
                    assert forall|c: CellId|
                        c.spec_id() < i + 1 && cm0.named(c.spec_id() as int) && cm0.area_of(c.spec_id() as int).spec_side()
                            == State::<Side>::Unknown implies exists|x: Candidate| #[trigger] cands@.contains(x) && x.cell == c by {
                        if c.spec_id() == i {
                            CellId::lemma_id_injective(c, p);
                        }
                    }
                }
            }
            i = i + 1;
        }
        let mut r: Vec<CellId> = Vec::new();
        let mut k: usize = 0;
        while k < cands.len()
            invariant
                k <= cands@.len(),
                r@.len() == k,
                forall|j: int| 0 <= j < k ==> (#[trigger] r@[j]) == cands@[j].cell,
            decreases cands@.len() - k,
        {
            r.push(cands[k].cell);
            k = k + 1;
        }
        proof {
            assert forall|c: CellId| #[trigger] r@.contains(c) <==> (c.spec_id() < cm0.cells() && cm0.named(c.spec_id() as int)
                && cm0.area_of(c.spec_id() as int).spec_side() == State::<Side>::Unknown) by {
                if r@.contains(c) {
                    let j = choose|j: int| 0 <= j < r@.len() && r@[j] == c;
                    assert(cands@.contains(cands@[j]));
                }
                if c.spec_id() < cm0.cells() && cm0.named(c.spec_id() as int) && cm0.area_of(c.spec_id() as int).spec_side()
                    == State::<Side>::Unknown {
                    let cand = choose|x: Candidate| #[trigger] cands@.contains(x) && x.cell == c;
                    let j = choose|j: int| 0 <= j < cands@.len() && cands@[j] == cand;
                    assert(r@[j] == c);
                }
            }
            assert forall|i: int, j: int| 0 <= i < j < r@.len() implies {
                let a = cm0.area_of((#[trigger] r@[i]).spec_id() as int).edges().len();
                let b = cm0.area_of((#[trigger] r@[j]).spec_id() as int).edges().len();
                a < b || (a == b && r@[i].spec_id() < r@[j].spec_id())
            } by {
                assert(cands@[i].spec_lt(cands@[j]));
                assert(cands@.contains(cands@[i]));
                assert(cands@.contains(cands@[j]));
            }
            assert forall|i: int| 0 <= i < r@.len() implies (#[trigger] r@[i]).spec_id() < self.side_map.num_cells() by {
                assert(cands@.contains(cands@[i]));
            }
            lemma_same_view_refl(self.side_map);
            lemma_sound_same_reps(cm0, cm, self.side_map, self.side_map);
        }
        self.connect_map = Some(cm);
        r
    }

    /// The puzzle with what is known written in: every side and every edge. Fails when
    /// something known contradicts itself.
    pub fn into_puzzle(self) -> (r: SolverResult<Puzzle>)
        requires
            self.wf(),
        ensures
            r is Ok <==> self.map().consistent(self.spec_puzzle().spec_size()),
            r matches Ok(p) ==> {
                &&& p.wf()
                &&& respects(self.spec_puzzle(), p)
                &&& forall|q: Point|
                    self.spec_puzzle().spec_size().spec_contains(q) ==> #[trigger] self.map().shown_point(
                        p,
                        self.spec_puzzle().spec_size(),
                        q,
                    )
            },
            r is Err ==> r->Err_0 == Error::spec_invalid_board(),
    {
        let mut solver = self;
        let input = solver.puzzle;
        let mut puzzle = input.duplicate();
        let ghost sm = solver.side_map;
        match solver.side_map.complete_puzzle(&mut puzzle) {
            Ok(()) => {
                proof {
                    let s = input.spec_size();
                    assert forall|p: Point| s.spec_contains(p) && input.side_at(p) is Some implies #[trigger] puzzle.side_at(p)
                        == input.side_at(p) by {
                        assert(sm.knows_point(*input, p));
                        assert(sm.consistent_point(s, p));
                        assert(sm.shown_point(puzzle, s, p));
                    }
                    assert forall|p: Point| s.spec_contains(p) && input.edge_h_at(p) is Some implies #[trigger] puzzle.edge_h_at(p)
                        == input.edge_h_at(p) by {
                        assert(sm.knows_point(*input, p));
                        assert(sm.consistent_point(s, p));
                        assert(sm.shown_point(puzzle, s, p));
                    }
                    assert forall|p: Point| s.spec_contains(p) && input.edge_v_at(p) is Some implies #[trigger] puzzle.edge_v_at(p)
                        == input.edge_v_at(p) by {
                        assert(sm.knows_point(*input, p));
                        assert(sm.consistent_point(s, p));
                        assert(sm.shown_point(puzzle, s, p));
                    }
                    assert forall|row: int| 0 <= row < s.0 && input.edge_v_at(Point(row as i32, s.1)) is Some implies #[trigger] puzzle.edge_v_at(
                        Point(row as i32, s.1),
                    ) == input.edge_v_at(Point(row as i32, s.1)) by {
                        assert(sm.knows_right_border(*input, row));
                        assert(sm.right_border_state(s, row) != State::<crate::puzzle::Edge>::Conflict);
                    }
                    assert forall|col: int| 0 <= col < s.1 && input.edge_h_at(Point(s.0, col as i32)) is Some implies #[trigger] puzzle.edge_h_at(
                        Point(s.0, col as i32),
                    ) == input.edge_h_at(Point(s.0, col as i32)) by {
                        assert(sm.knows_bottom_border(*input, col));
                        assert(sm.bottom_border_state(s, col) != State::<crate::puzzle::Edge>::Conflict);
                    }
                }
                Ok(puzzle)
            },
            Err(_) => Err(Error::invalid_board()),
        }
    }
}

} // verus!
