//! Deductions from the hints alone: the number of lines around a cell, and the patterns
//! that neighbouring hints force. Each deduction records that two cells are on the same
//! side (a cross between them) or on different sides (a line).
use vstd::prelude::*;

use crate::geom::{valid_size, Move, Point, Rotation, Size};
use crate::model::{Error, SolverResult, State};
use crate::puzzle::{Edge, Puzzle};
use crate::side_map::SideMap;

verus! {

/// The grid leaves room for points a few steps outside it.
pub open spec fn roomy(s: Size) -> bool {
    &&& valid_size(s)
    &&& 0 < s.0 && 0 < s.1
    &&& s.0 + 8 < i32::MAX
    &&& s.1 + 8 < i32::MAX
}

/// `p` lies at most `k` steps outside the grid.
pub open spec fn near(s: Size, p: Point, k: int) -> bool {
    -k <= p.0 <= s.0 - 1 + k && -k <= p.1 <= s.1 - 1 + k
}

/// The cell of `p`.
pub open spec fn cell(s: Size, p: Point) -> nat {
    s.spec_point_to_cellid(p)
}

/// The side map works on the cells of a roomy grid, and keeps what `start` knew.
pub open spec fn ready(sm: SideMap, s: Size, start: SideMap) -> bool {
    &&& roomy(s)
    &&& sm.wf()
    &&& sm.num_cells() == s.spec_cell_len()
    &&& start.keeps(&sm)
}

/// The point `(dr, dc)` away from `p`, turned by `rot`; `p` lies at most `k` steps
/// outside the grid `s`.
fn at(p: Point, rot: Rotation, dr: i32, dc: i32, Ghost(s): Ghost<Size>, Ghost(k): Ghost<int>) -> (r: Point)
    requires
        -2 <= dr <= 2,
        -2 <= dc <= 2,
        roomy(s),
        0 <= k <= 3,
        near(s, p, k),
    ensures
        near(s, r, k + 2),
        -1 <= dr <= 1 && -1 <= dc <= 1 ==> near(s, r, k + 1),
        r == turned(p, rot, dr as int, dc as int),
{
    let (a, b, c, d) = rot.coefficients();
    let m = rot.mul(Move(dr, dc));
    assert(-2 <= m.0 <= 2 && -2 <= m.1 <= 2 && (-1 <= dr <= 1 && -1 <= dc <= 1 ==> -1 <= m.0 <= 1 && -1 <= m.1 <= 1)) by (nonlinear_arith)
        requires
            crate::geom::is_symmetry(a as int, b as int, c as int, d as int),
            m.0 == a * dr + b * dc,
            m.1 == c * dr + d * dc,
            -2 <= dr <= 2,
            -2 <= dc <= 2,
    ;
    p.add(m)
}

/// What is known of the edge between the cells at `p` and `q`.
fn rel(sm: &mut SideMap, s: Size, p: Point, q: Point, Ghost(start): Ghost<SideMap>) -> (r: State<Edge>)
    requires
        ready(*old(sm), s, start),
    ensures
        ready(*final(sm), s, start),
        final(sm).same_view(*old(sm)),
        r == old(sm).edge_state(s.spec_point_to_cellid(p), s.spec_point_to_cellid(q)),
{
    let ghost before = *sm;
    let r = sm.get_edge(s.point_to_cellid(p), s.point_to_cellid(q));
    proof {
        crate::theorem_pool::lemma_same_view_keeps(before, *sm);
        start.lemma_keeps_transitive(&before, &*sm);
    }
    r
}

/// Records a cross between `p` and `q`.
fn same(sm: &mut SideMap, s: Size, p: Point, q: Point, Ghost(start): Ghost<SideMap>)
    requires
        ready(*old(sm), s, start),
    ensures
        ready(*final(sm), s, start),
        old(sm).keeps(&*final(sm)),
        final(sm).knows_edge(cell(s, p), cell(s, q), Edge::Cross),
        forall|a: Seq<bool>|
            old(sm).admits(a) && a[cell(s, p) as int] == a[cell(s, q) as int] ==> #[trigger] final(sm).admits(a),
{
    let ghost before = *sm;
    let cp = s.point_to_cellid(p);
    let cq = s.point_to_cellid(q);
    let changed = sm.set_same(cp, cq);
    proof {
        start.lemma_keeps_transitive(&before, &*sm);
        assert forall|x: SideMap| #[trigger] x.keeps(&before) implies x.keeps(&*sm) by {
            x.lemma_keeps_transitive(&before, &*sm);
        }
        assert forall|a: Seq<bool>| before.admits(a) && a[cell(s, p) as int] == a[cell(s, q) as int] implies #[trigger] sm.admits(a) by {
            before.lemma_set_result_admits(*sm, cp.spec_id(), cq.spec_id(), true, changed, a);
        }
    }
}

/// Records a line between `p` and `q`.
fn different(sm: &mut SideMap, s: Size, p: Point, q: Point, Ghost(start): Ghost<SideMap>)
    requires
        ready(*old(sm), s, start),
    ensures
        ready(*final(sm), s, start),
        old(sm).keeps(&*final(sm)),
        final(sm).knows_edge(cell(s, p), cell(s, q), Edge::Line),
        forall|a: Seq<bool>|
            old(sm).admits(a) && a[cell(s, p) as int] != a[cell(s, q) as int] ==> #[trigger] final(sm).admits(a),
{
    let ghost before = *sm;
    let cp = s.point_to_cellid(p);
    let cq = s.point_to_cellid(q);
    let changed = sm.set_different(cp, cq);
    proof {
        start.lemma_keeps_transitive(&before, &*sm);
        assert forall|x: SideMap| #[trigger] x.keeps(&before) implies x.keeps(&*sm) by {
            x.lemma_keeps_transitive(&before, &*sm);
        }
        assert forall|a: Seq<bool>| before.admits(a) && a[cell(s, p) as int] != a[cell(s, q) as int] implies #[trigger] sm.admits(a) by {
            before.lemma_set_result_admits(*sm, cp.spec_id(), cq.spec_id(), false, changed, a);
        }
    }
}

/// The diagonal step `(1, 1)` turned by `rot`.
fn diagonal(rot: Rotation) -> (r: Move)
    ensures
        r.0 == 1 || r.0 == -1,
        r.1 == 1 || r.1 == -1,
        r == diag_of(rot),
{
    let (a, b, c, d) = rot.coefficients();
    let m = rot.mul(Move(1, 1));
    assert((m.0 == 1 || m.0 == -1) && (m.1 == 1 || m.1 == -1)) by (nonlinear_arith)
        requires
            crate::geom::is_symmetry(a as int, b as int, c as int, d as int),
            m.0 == a * 1 + b * 1,
            m.1 == c * 1 + d * 1,
    ;
    m
}

/// Whether the hint at `p` is `n`.
fn hint_is(puzzle: &Puzzle, p: Point, n: u8) -> (r: bool)
    requires
        puzzle.wf(),
    ensures
        r == (puzzle.hint_at(p) == Some(n)),
{
    match puzzle.hint(p) {
        Some(h) => h == n,
        None => false,
    }
}

/// The four quarter turns.
fn quarter_turns() -> (r: [Rotation; 4])
    ensures
        r@[0].entries() == (1int, 0int, 0int, 1int),
        r@[1].entries() == (0int, -1int, 1int, 0int),
        r@[2].entries() == (-1int, 0int, 0int, -1int),
        r@[3].entries() == (0int, 1int, -1int, 0int),
{
    [Rotation::ucw0(), Rotation::ucw90(), Rotation::ucw180(), Rotation::ucw270()]
}

/// The direction of the neighbour to the right of a cell after `t` quarter turns.
pub open spec fn turn_dir(t: int) -> int {
    if t == 0 {
        1
    } else if t == 1 {
        0
    } else if t == 2 {
        3
    } else {
        2
    }
}

/// The point `k` diagonal steps `m` away from `p`.
pub open spec fn diag_step(p: Point, m: Move, k: int) -> Point {
    Point((p.0 + k * m.0) as i32, (p.1 + k * m.1) as i32)
}

/// The diagonal step of `rot`: the step down and right, turned.
pub open spec fn diag_of(rot: Rotation) -> Move {
    Move((rot.entries().0 + rot.entries().1) as i32, (rot.entries().2 + rot.entries().3) as i32)
}

/// From the three at `p`, the cells `1 .. k` steps along the diagonal of `rot` are twos of
/// the grid and the cell `k` steps along is a three.
pub open spec fn diag_run(puzzle: Puzzle, p: Point, rot: Rotation, k: int) -> bool {
    &&& 1 <= k
    &&& puzzle.hint_at(p) == Some(3u8)
    &&& puzzle.hint_at(diag_step(p, diag_of(rot), k)) == Some(3u8)
    &&& forall|j: int|
        1 <= j < k ==> puzzle.spec_size().spec_contains(#[trigger] diag_step(p, diag_of(rot), j)) && puzzle.hint_at(
            diag_step(p, diag_of(rot), j),
        ) == Some(2u8)
}

/// What the pattern of threes at the ends of a diagonal run of twos decides: lines on the
/// outer sides of both threes.
pub open spec fn diag_done(sm: SideMap, puzzle: Puzzle, p: Point, rot: Rotation) -> bool {
    let s = puzzle.spec_size();
    forall|k: int|
        #[trigger] diag_run(puzzle, p, rot, k) ==> {
            let q = diag_step(p, diag_of(rot), k);
            &&& knows_between(sm, s, p, turned(p, rot, -1, 0), Edge::Line)
            &&& knows_between(sm, s, p, turned(p, rot, -1, -1), Edge::Line)
            &&& knows_between(sm, s, p, turned(p, rot, 0, -1), Edge::Line)
            &&& knows_between(sm, s, q, turned(q, rot, 0, 1), Edge::Line)
            &&& knows_between(sm, s, q, turned(q, rot, 1, 1), Edge::Line)
            &&& knows_between(sm, s, q, turned(q, rot, 1, 0), Edge::Line)
        }
}

/// The diagonal pattern reads a rotation by its entries only.
proof fn lemma_diag_done_entries(sm: SideMap, puzzle: Puzzle, p: Point, r1: Rotation, r2: Rotation)
    requires
        r1.entries() == r2.entries(),
        diag_done(sm, puzzle, p, r1),
    ensures
        diag_done(sm, puzzle, p, r2),
{
    let s = puzzle.spec_size();
    assert forall|k: int| #[trigger] diag_run(puzzle, p, r2, k) implies {
        let q = diag_step(p, diag_of(r2), k);
        &&& knows_between(sm, s, p, turned(p, r2, -1, 0), Edge::Line)
        &&& knows_between(sm, s, p, turned(p, r2, -1, -1), Edge::Line)
        &&& knows_between(sm, s, p, turned(p, r2, 0, -1), Edge::Line)
        &&& knows_between(sm, s, q, turned(q, r2, 0, 1), Edge::Line)
        &&& knows_between(sm, s, q, turned(q, r2, 1, 1), Edge::Line)
        &&& knows_between(sm, s, q, turned(q, r2, 1, 0), Edge::Line)
    } by {
        assert(diag_run(puzzle, p, r1, k));
    }
}

/// What the diagonal pattern decided stays known in a map that keeps the first.
proof fn lemma_diag_done_keeps(a: SideMap, b: SideMap, puzzle: Puzzle, p: Point, rot: Rotation)
    requires
        valid_size(puzzle.spec_size()),
        a.num_cells() == puzzle.spec_size().spec_cell_len(),
        a.keeps(&b),
        diag_done(a, puzzle, p, rot),
    ensures
        diag_done(b, puzzle, p, rot),
{
    let s = puzzle.spec_size();
    assert forall|k: int| #[trigger] diag_run(puzzle, p, rot, k) implies {
        let q = diag_step(p, diag_of(rot), k);
        &&& knows_between(b, s, p, turned(p, rot, -1, 0), Edge::Line)
        &&& knows_between(b, s, p, turned(p, rot, -1, -1), Edge::Line)
        &&& knows_between(b, s, p, turned(p, rot, 0, -1), Edge::Line)
        &&& knows_between(b, s, q, turned(q, rot, 0, 1), Edge::Line)
        &&& knows_between(b, s, q, turned(q, rot, 1, 1), Edge::Line)
        &&& knows_between(b, s, q, turned(q, rot, 1, 0), Edge::Line)
    } by {
        let q = diag_step(p, diag_of(rot), k);
        crate::side_map::lemma_cell_bound(s, p);
        crate::side_map::lemma_cell_bound(s, q);
        crate::side_map::lemma_cell_bound(s, turned(p, rot, -1, 0));
        crate::side_map::lemma_cell_bound(s, turned(p, rot, -1, -1));
        crate::side_map::lemma_cell_bound(s, turned(p, rot, 0, -1));
        crate::side_map::lemma_cell_bound(s, turned(q, rot, 0, 1));
        crate::side_map::lemma_cell_bound(s, turned(q, rot, 1, 1));
        crate::side_map::lemma_cell_bound(s, turned(q, rot, 1, 0));
        lemma_keeps_knows(a, b, cell(s, p), cell(s, turned(p, rot, -1, 0)), Edge::Line);
        lemma_keeps_knows(a, b, cell(s, p), cell(s, turned(p, rot, -1, -1)), Edge::Line);
        lemma_keeps_knows(a, b, cell(s, p), cell(s, turned(p, rot, 0, -1)), Edge::Line);
        lemma_keeps_knows(a, b, cell(s, q), cell(s, turned(q, rot, 0, 1)), Edge::Line);
        lemma_keeps_knows(a, b, cell(s, q), cell(s, turned(q, rot, 1, 1)), Edge::Line);
        lemma_keeps_knows(a, b, cell(s, q), cell(s, turned(q, rot, 1, 0)), Edge::Line);
    }
}

/// From `p`, a run of twos along the diagonal `m` ends in a three.
pub open spec fn diag_three(puzzle: Puzzle, p: Point, m: Move) -> bool {
    exists|k: int|
        1 <= k && #[trigger] puzzle.hint_at(diag_step(p, m, k)) == Some(3u8) && forall|j: int|
            1 <= j < k ==> puzzle.hint_at(#[trigger] diag_step(p, m, j)) == Some(2u8)
}

/// The cell `p` holds a three that the patterns of threes link to another three: one to
/// its right or above it, or one at the end of a diagonal run of twos.
pub open spec fn three_at(puzzle: Puzzle, p: Point) -> bool {
    &&& puzzle.hint_at(p) == Some(3u8)
    &&& {
        ||| exists|rot: Rotation| half_turn_set(rot) && #[trigger] puzzle.hint_at(turned(p, rot, 0, 1)) == Some(3u8)
        ||| exists|m: Move| (m.0 == 1 || m.0 == -1) && (m.1 == 1 || m.1 == -1) && #[trigger] diag_three(puzzle, p, m)
    }
}

/// Some cell of the grid holds a three linked to another three.
pub open spec fn three_linked(puzzle: Puzzle) -> bool {
    exists|p: Point| puzzle.spec_size().spec_contains(p) && #[trigger] three_at(puzzle, p)
}

/// What locally consistent cell sides have around a zero at `p`, turned by `rot`: the
/// zero's cell is with its right neighbour `rp`; a three at `rp` is apart from the cells
/// above, above right, right, below right and below it; a three at the diagonal `dr` is
/// apart from the cells above and to the left of it.
pub open spec fn zero_facts(puzzle: Puzzle, a: Seq<bool>, p: Point, rot: Rotation) -> bool {
    let s = puzzle.spec_size();
    let rp = turned(p, rot, 0, 1);
    let dr = turned(p, rot, 1, 1);
    &&& a[cell(s, p) as int] == a[cell(s, rp) as int]
    &&& puzzle.hint_at(rp) == Some(3u8) ==> {
        &&& a[cell(s, rp) as int] != a[cell(s, turned(rp, rot, -1, 0)) as int]
        &&& a[cell(s, rp) as int] != a[cell(s, turned(rp, rot, -1, 1)) as int]
        &&& a[cell(s, rp) as int] != a[cell(s, turned(rp, rot, 0, 1)) as int]
        &&& a[cell(s, rp) as int] != a[cell(s, turned(rp, rot, 1, 1)) as int]
        &&& a[cell(s, rp) as int] != a[cell(s, turned(rp, rot, 1, 0)) as int]
    }
    &&& puzzle.hint_at(dr) == Some(3u8) ==> a[cell(s, dr) as int] != a[cell(s, turned(dr, rot, -1, 0)) as int] && a[cell(s, dr) as int] != a[cell(s, turned(dr, rot, 0, -1)) as int]
}

/// Locally consistent cell sides around a zero have the zero facts.
proof fn lemma_zero_facts(puzzle: Puzzle, a: Seq<bool>, p: Point, rot: Rotation)
    requires
        puzzle.wf(),
        roomy(puzzle.spec_size()),
        near(puzzle.spec_size(), p, 0),
        quarter(rot),
        locally_consistent(puzzle, a),
        puzzle.hint_at(p) == Some(0u8),
    ensures
        zero_facts(puzzle, a, p, rot),
{
    let s = puzzle.spec_size();
    let rp = turned(p, rot, 0, 1);
    let dr = turned(p, rot, 1, 1);
    let e = rot.entries();
    assert(turned(rp, rot, 0, -1) == p);
    assert(turned(dr, rot, -1, 0) == rp);
    assert(turned(dr, rot, 0, -1) == turned(p, rot, 1, 0));
    assert(near(s, rp, 1));
    assert(near(s, dr, 1));
    lemma_turned_hint(puzzle, a, p, rot);
    lemma_turned_hint(puzzle, a, rp, rot);
    lemma_turned_hint(puzzle, a, dr, rot);
    lemma_turned_vertex(a, s, rp, rot, -1, 1);
    lemma_turned_vertex(a, s, rp, rot, 1, 1);
}

/// A zero and its neighbour to the right, turned by `rot`: no line between them, and a
/// three there has lines all around but on the zero's side.
fn zero_turn(puzzle: &Puzzle, side_map: &mut SideMap, p: Point, rot: Rotation, Ghost(start): Ghost<SideMap>)
    requires
        puzzle.wf(),
        ready(*old(side_map), puzzle.spec_size(), start),
        near(puzzle.spec_size(), p, 0),
        quarter(rot),
    ensures
        ready(*final(side_map), puzzle.spec_size(), start),
        old(side_map).keeps(&*final(side_map)),
        final(side_map).knows_edge(
            cell(puzzle.spec_size(), p),
            cell(
                puzzle.spec_size(),
                Point((p.0 + rot.entries().1) as i32, (p.1 + rot.entries().3) as i32),
            ),
            Edge::Cross,
        ),
        forall|a: Seq<bool>|
            old(side_map).admits(a) && zero_facts(*puzzle, a, p, rot) ==> #[trigger] final(side_map).admits(a),
{
    let s = puzzle.size();
    let g = Ghost(start);
    let gs = Ghost(s);
    let ghost m0 = *side_map;
    let rp = at(p, rot, 0, 1, gs, Ghost(0));
    let dr = at(p, rot, 1, 1, gs, Ghost(0));
    same(side_map, s, p, rp, g);
    let ghost m1 = *side_map;
    if hint_is(puzzle, rp, 3) {
        different(side_map, s, rp, at(rp, rot, -1, 0, gs, Ghost(1)), g);
        let ghost n1 = *side_map;
        different(side_map, s, rp, at(rp, rot, -1, 1, gs, Ghost(1)), g);
        let ghost n2 = *side_map;
        different(side_map, s, rp, at(rp, rot, 0, 1, gs, Ghost(1)), g);
        let ghost n3 = *side_map;
        different(side_map, s, rp, at(rp, rot, 1, 1, gs, Ghost(1)), g);
        let ghost n4 = *side_map;
        different(side_map, s, rp, at(rp, rot, 1, 0, gs, Ghost(1)), g);
        proof {
            assert forall|a: Seq<bool>| m1.admits(a) && zero_facts(*puzzle, a, p, rot) implies #[trigger] side_map.admits(a) by {
                assert(n1.admits(a));
                assert(n2.admits(a));
                assert(n3.admits(a));
                assert(n4.admits(a));
            }
        }
    }
    let ghost m2 = *side_map;
    if hint_is(puzzle, dr, 3) {
        different(side_map, s, dr, at(dr, rot, -1, 0, gs, Ghost(1)), g);
        let ghost n5 = *side_map;
        different(side_map, s, dr, at(dr, rot, 0, -1, gs, Ghost(1)), g);
        proof {
            assert forall|a: Seq<bool>| m2.admits(a) && zero_facts(*puzzle, a, p, rot) implies #[trigger] side_map.admits(a) by {
                assert(n5.admits(a));
            }
        }
    }
    proof {
        crate::side_map::lemma_cell_bound(s, p);
        crate::side_map::lemma_cell_bound(s, rp);
        m0.lemma_keeps_transitive(&m1, &*side_map);
        lemma_keeps_knows(m1, *side_map, cell(s, p), cell(s, rp), Edge::Cross);
        assert forall|a: Seq<bool>| m0.admits(a) && zero_facts(*puzzle, a, p, rot) implies #[trigger] side_map.admits(a) by {
            assert(m1.admits(a));
            assert(m2.admits(a));
        }
    }
}

/// No line around the cell `q`: crosses to its four neighbours are known.
pub open spec fn zero_done(sm: SideMap, s: Size, q: Point) -> bool {
    forall|d: int| 0 <= d < 4 ==> #[trigger] sm.knows_edge(cell(s, q), cell(s, nbr(q, d)), Edge::Cross)
}

/// What a map knows around a zero stays known in a map that keeps it.
proof fn lemma_zero_done_keeps(a: SideMap, b: SideMap, s: Size, q: Point)
    requires
        a.keeps(&b),
        zero_done(a, s, q),
        valid_size(s),
        a.num_cells() == s.spec_cell_len(),
    ensures
        zero_done(b, s, q),
{
    assert forall|d: int| 0 <= d < 4 implies #[trigger] b.knows_edge(cell(s, q), cell(s, nbr(q, d)), Edge::Cross) by {
        crate::side_map::lemma_cell_bound(s, q);
        crate::side_map::lemma_cell_bound(s, nbr(q, d));
        lemma_keeps_knows(a, b, cell(s, q), cell(s, nbr(q, d)), Edge::Cross);
    }
}

/// The hint patterns around the cell `p`: a zero and the threes next to it, and threes
/// next to each other or in a diagonal line of twos.
fn num_place_cell(puzzle: &Puzzle, side_map: &mut SideMap, p: Point, Ghost(start): Ghost<SideMap>)
    requires
        puzzle.wf(),
        ready(*old(side_map), puzzle.spec_size(), start),
        near(puzzle.spec_size(), p, 0),
    ensures
        ready(*final(side_map), puzzle.spec_size(), start),
        old(side_map).keeps(&*final(side_map)),
        puzzle.hint_at(p) == Some(0u8) ==> zero_done(*final(side_map), puzzle.spec_size(), p),
        forall|rot: Rotation|
            puzzle.hint_at(p) == Some(3u8) && half_turn_set(rot) && puzzle.hint_at(turned(p, rot, 0, 1)) == Some(3u8)
                ==> #[trigger] three_pair_done(*final(side_map), *puzzle, p, rot),
        forall|a: Seq<bool>|
            old(side_map).admits(a) && locally_consistent(*puzzle, a) && !three_at(*puzzle, p)
                ==> #[trigger] final(side_map).admits(a),
        forall|rot: Rotation| half_turn_set(rot) ==> #[trigger] diag_done(*final(side_map), *puzzle, p, rot),
{
    let s = puzzle.size();
    let ghost m0 = *side_map;
    proof {
        crate::theorem::lemma_same_view_refl(m0);
    }
    let g = Ghost(m0);
    let gs = Ghost(s);
    let turns = quarter_turns();
    match puzzle.hint(p) {
        Some(0) => {
            let mut t: usize = 0;
            while t < 4
                invariant
                    gs@ == s,
                    g@ == m0,
                    t <= 4,
                    near(s, p, 0),
                    s == puzzle.spec_size(),
                    puzzle.wf(),
                    ready(*side_map, s, m0),
                    turns@[0].entries() == (1int, 0int, 0int, 1int),
                    turns@[1].entries() == (0int, -1int, 1int, 0int),
                    turns@[2].entries() == (-1int, 0int, 0int, -1int),
                    turns@[3].entries() == (0int, 1int, -1int, 0int),
                    forall|tt: int| 0 <= tt < t ==> #[trigger] side_map.knows_edge(
                        cell(s, p),
                        cell(s, nbr(p, turn_dir(tt))),
                        Edge::Cross,
                    ),
                    puzzle.hint_at(p) == Some(0u8),
                    forall|a: Seq<bool>| m0.admits(a) && locally_consistent(*puzzle, a) ==> #[trigger] side_map.admits(a),
                decreases 4 - t,
            {
                let ghost before = *side_map;
                zero_turn(puzzle, side_map, p, turns[t], g);
                proof {
                    assert forall|a: Seq<bool>| m0.admits(a) && locally_consistent(*puzzle, a) implies #[trigger] side_map.admits(a) by {
                        lemma_zero_facts(*puzzle, a, p, turns@[t as int]);
                        assert(before.admits(a));
                    }
                    assert forall|tt: int| 0 <= tt < t + 1 implies #[trigger] side_map.knows_edge(
                        cell(s, p),
                        cell(s, nbr(p, turn_dir(tt))),
                        Edge::Cross,
                    ) by {
                        crate::side_map::lemma_cell_bound(s, p);
                        crate::side_map::lemma_cell_bound(s, nbr(p, turn_dir(tt)));
                        if tt < t {
                            lemma_keeps_knows(before, *side_map, cell(s, p), cell(s, nbr(p, turn_dir(tt))), Edge::Cross);
                        }
                    }
                }
                t = t + 1;
            }
        },
        Some(3) => {
            let mut t: usize = 0;
            while t < 2
                invariant
                    gs@ == s,
                    g@ == m0,
                    t <= 2,
                    near(s, p, 0),
                    s == puzzle.spec_size(),
                    puzzle.wf(),
                    ready(*side_map, s, m0),
                    turns@[0].entries() == (1int, 0int, 0int, 1int),
                    turns@[1].entries() == (0int, -1int, 1int, 0int),
                    forall|i: int|
                        0 <= i < t && puzzle.hint_at(turned(p, #[trigger] turns@[i], 0, 1)) == Some(3u8) ==> three_pair_done(
                            *side_map,
                            *puzzle,
                            p,
                            turns@[i],
                        ),
                    puzzle.hint_at(p) == Some(3u8),
                    !three_at(*puzzle, p) ==> *side_map == m0,
                decreases 2 - t,
            {
                let ghost before = *side_map;
                let rot = turns[t];
                let rp = at(p, rot, 0, 1, gs, Ghost(0));
                proof {
                    assert(before.keeps(&before));
                    crate::side_map::lemma_cell_bound(s, p);
                    crate::side_map::lemma_cell_bound(s, rp);
                    crate::side_map::lemma_cell_bound(s, turned(p, rot, 0, -1));
                    crate::side_map::lemma_cell_bound(s, turned(rp, rot, 0, 1));
                    crate::side_map::lemma_cell_bound(s, turned(p, rot, -1, 0));
                    crate::side_map::lemma_cell_bound(s, turned(rp, rot, -1, 0));
                    crate::side_map::lemma_cell_bound(s, turned(p, rot, 1, 0));
                    crate::side_map::lemma_cell_bound(s, turned(rp, rot, 1, 0));
                }
                proof {
                    if puzzle.hint_at(rp) == Some(3u8) {
                        assert(half_turn_set(turns@[t as int]));
                        assert(puzzle.hint_at(turned(p, turns@[t as int], 0, 1)) == Some(3u8));
                        assert(three_at(*puzzle, p));
                    }
                }
                if hint_is(puzzle, rp, 3) {
                    different(side_map, s, p, at(p, rot, 0, -1, gs, Ghost(0)), g);
                    different(side_map, s, p, rp, g);
                    different(side_map, s, rp, at(rp, rot, 0, 1, gs, Ghost(1)), g);
                    same(side_map, s, at(p, rot, -1, 0, gs, Ghost(0)), at(rp, rot, -1, 0, gs, Ghost(1)), g);
                    same(side_map, s, at(p, rot, 1, 0, gs, Ghost(0)), at(rp, rot, 1, 0, gs, Ghost(1)), g);
                    different(side_map, s, at(p, rot, -1, 0, gs, Ghost(0)), at(rp, rot, 1, 0, gs, Ghost(1)), g);
                    proof {
                        assert(three_pair_done(*side_map, *puzzle, p, rot));
                    }
                }
                proof {
                    assert(before.keeps(&*side_map));
                    assert forall|i: int|
                        0 <= i < t + 1 && puzzle.hint_at(turned(p, #[trigger] turns@[i], 0, 1)) == Some(3u8) implies three_pair_done(
                        *side_map,
                        *puzzle,
                        p,
                        turns@[i],
                    ) by {
                        if i < t {
                            lemma_three_pair_keeps(before, *side_map, *puzzle, p, turns@[i]);
                        }
                    }
                }
                t = t + 1;
            }
            let ghost mid = *side_map;
            proof {
                assert(mid.keeps(&mid));
            }
            let mut t: usize = 0;
            while t < 2
                invariant
                    gs@ == s,
                    g@ == m0,
                    t <= 2,
                    near(s, p, 0),
                    s == puzzle.spec_size(),
                    puzzle.wf(),
                    ready(*side_map, s, m0),
                    mid.keeps(&*side_map),
                    puzzle.hint_at(p) == Some(3u8),
                    !three_at(*puzzle, p) ==> *side_map == m0,
                    turns@[0].entries() == (1int, 0int, 0int, 1int),
                    turns@[1].entries() == (0int, -1int, 1int, 0int),
                    forall|i: int| 0 <= i < t ==> diag_done(*side_map, *puzzle, p, #[trigger] turns@[i]),
                decreases 2 - t,
            {
                let ghost before_t = *side_map;
                let rot = turns[t];
                let m = diagonal(rot);
                let mut dr = p.add(m);
                let mut cnt: i32 = 1;
                while s.contains(dr) && hint_is(puzzle, dr, 2)
                    invariant
                        gs@ == s,
                        g@ == m0,
                        near(s, p, 0),
                        m.0 == 1 || m.0 == -1,
                        m.1 == 1 || m.1 == -1,
                        1 <= cnt <= s.0,
                        dr.0 == p.0 + cnt * m.0,
                        dr.1 == p.1 + cnt * m.1,
                        0 <= dr.0 - m.0 < s.0,
                        0 <= dr.1 - m.1 < s.1,
                        s == puzzle.spec_size(),
                        puzzle.wf(),
                        roomy(s),
                        dr == diag_step(p, m, cnt as int),
                        forall|j: int| 1 <= j < cnt ==> puzzle.hint_at(#[trigger] diag_step(p, m, j)) == Some(2u8),
                        forall|j: int| 1 <= j < cnt ==> s.spec_contains(#[trigger] diag_step(p, m, j)),
                    decreases s.0 - cnt,
                {
                    proof {
                        assert(cnt + 1 <= s.0) by (nonlinear_arith)
                            requires
                                dr.0 == p.0 + cnt * m.0,
                                m.0 == 1 || m.0 == -1,
                                0 <= dr.0 < s.0,
                                0 <= p.0 < s.0,
                                cnt >= 1,
                        ;
                        assert((cnt + 1) * m.0 == cnt * m.0 + m.0 && (cnt + 1) * m.1 == cnt * m.1 + m.1) by (nonlinear_arith);
                    }
                    dr = dr.add(m);
                    cnt = cnt + 1;
                }
                proof {
                    assert(near(s, dr, 1)) by (nonlinear_arith)
                        requires
                            dr.0 == p.0 + cnt * m.0,
                            dr.1 == p.1 + cnt * m.1,
                            m.0 == 1 || m.0 == -1,
                            m.1 == 1 || m.1 == -1,
                            1 <= cnt <= s.0,
                            near(s, p, 0),
                            0 <= dr.0 - m.0 < s.0,
                            0 <= dr.1 - m.1 < s.1,
                    ;
                }
                proof {
                    if puzzle.hint_at(dr) == Some(3u8) {
                        assert(puzzle.hint_at(diag_step(p, m, cnt as int)) == Some(3u8));
                        assert(diag_three(*puzzle, p, m));
                        assert(three_at(*puzzle, p));
                    }
                }
                if hint_is(puzzle, dr, 3) {
                    different(side_map, s, p, at(p, rot, -1, 0, gs, Ghost(0)), g);
                    let ghost d1 = *side_map;
                    different(side_map, s, p, at(p, rot, -1, -1, gs, Ghost(0)), g);
                    let ghost d2 = *side_map;
                    different(side_map, s, p, at(p, rot, 0, -1, gs, Ghost(0)), g);
                    let ghost d3 = *side_map;
                    different(side_map, s, dr, at(dr, rot, 0, 1, gs, Ghost(1)), g);
                    let ghost d4 = *side_map;
                    different(side_map, s, dr, at(dr, rot, 1, 1, gs, Ghost(1)), g);
                    let ghost d5 = *side_map;
                    different(side_map, s, dr, at(dr, rot, 1, 0, gs, Ghost(1)), g);
                    let ghost m6 = *side_map;
                    proof {
                        assert(m6.keeps(&m6));
                        crate::side_map::lemma_cell_bound(s, p);
                        crate::side_map::lemma_cell_bound(s, dr);
                        crate::side_map::lemma_cell_bound(s, turned(p, rot, -1, 0));
                        crate::side_map::lemma_cell_bound(s, turned(p, rot, -1, -1));
                        crate::side_map::lemma_cell_bound(s, turned(p, rot, 0, -1));
                        crate::side_map::lemma_cell_bound(s, turned(dr, rot, 0, 1));
                        crate::side_map::lemma_cell_bound(s, turned(dr, rot, 1, 1));
                        d1.lemma_keeps_transitive(&d2, &d3);
                        d1.lemma_keeps_transitive(&d3, &d4);
                        d1.lemma_keeps_transitive(&d4, &d5);
                        d1.lemma_keeps_transitive(&d5, &m6);
                        d2.lemma_keeps_transitive(&d3, &d4);
                        d2.lemma_keeps_transitive(&d4, &d5);
                        d2.lemma_keeps_transitive(&d5, &m6);
                        d3.lemma_keeps_transitive(&d4, &d5);
                        d3.lemma_keeps_transitive(&d5, &m6);
                        d4.lemma_keeps_transitive(&d5, &m6);
                        lemma_keeps_knows(d1, m6, cell(s, p), cell(s, turned(p, rot, -1, 0)), Edge::Line);
                        lemma_keeps_knows(d2, m6, cell(s, p), cell(s, turned(p, rot, -1, -1)), Edge::Line);
                        lemma_keeps_knows(d3, m6, cell(s, p), cell(s, turned(p, rot, 0, -1)), Edge::Line);
                        lemma_keeps_knows(d4, m6, cell(s, dr), cell(s, turned(dr, rot, 0, 1)), Edge::Line);
                        lemma_keeps_knows(d5, m6, cell(s, dr), cell(s, turned(dr, rot, 1, 1)), Edge::Line);
                        assert(diag_done(m6, *puzzle, p, rot)) by {
                            assert forall|k: int| #[trigger] diag_run(*puzzle, p, rot, k) implies k == cnt by {
                                if k < cnt {
                                    assert(puzzle.hint_at(diag_step(p, m, k)) == Some(2u8));
                                } else if k > cnt {
                                    assert(s.spec_contains(diag_step(p, m, cnt as int)));
                                    assert(puzzle.hint_at(diag_step(p, m, cnt as int)) == Some(2u8));
                                }
                            }
                        }
                    }
                    let mut tp = p;
                    let mut i: i32 = 0;
                    while i < cnt
                        invariant
                            gs@ == s,
                            g@ == m0,
                            0 <= i <= cnt,
                            1 <= cnt <= s.0,
                            m.0 == 1 || m.0 == -1,
                            m.1 == 1 || m.1 == -1,
                            tp.0 == p.0 + i * m.0,
                            tp.1 == p.1 + i * m.1,
                            dr.0 == p.0 + cnt * m.0,
                            dr.1 == p.1 + cnt * m.1,
                            near(s, p, 0),
                            near(s, dr, 1),
                            s == puzzle.spec_size(),
                            ready(*side_map, s, m0),
                    mid.keeps(&*side_map),
                            m6.keeps(&*side_map),
                        decreases cnt - i,
                    {
                        proof {
                            assert(near(s, tp, 1)) by (nonlinear_arith)
                                requires
                                    tp.0 == p.0 + i * m.0,
                                    tp.1 == p.1 + i * m.1,
                                    dr.0 == p.0 + cnt * m.0,
                                    dr.1 == p.1 + cnt * m.1,
                                    m.0 == 1 || m.0 == -1,
                                    m.1 == 1 || m.1 == -1,
                                    0 <= i <= cnt,
                                    near(s, p, 0),
                                    near(s, dr, 1),
                            ;
                            assert((i + 1) * m.0 == i * m.0 + m.0 && (i + 1) * m.1 == i * m.1 + m.1) by (nonlinear_arith);
                        }
                        let ghost bi = *side_map;
                        different(side_map, s, at(tp, rot, 0, 1, gs, Ghost(1)), at(tp, rot, 1, 0, gs, Ghost(1)), g);
                        proof {
                            m6.lemma_keeps_transitive(&bi, &*side_map);
                        }
                        tp = tp.add(m);
                        i = i + 1;
                    }
                    let ghost m7 = *side_map;
                    if hint_is(puzzle, at(p, rot, 0, 2, gs, Ghost(0)), 3) {
                        same(side_map, s, at(p, rot, 0, 1, gs, Ghost(0)), at(p, rot, -1, 1, gs, Ghost(0)), g);
                    }
                    proof {
                        if *side_map != m7 {
                            m6.lemma_keeps_transitive(&m7, &*side_map);
                        }
                    }
                    let ghost m8 = *side_map;
                    if hint_is(puzzle, at(p, rot, 2, 0, gs, Ghost(0)), 3) {
                        same(side_map, s, at(p, rot, 1, 0, gs, Ghost(0)), at(p, rot, 1, -1, gs, Ghost(0)), g);
                    }
                    proof {
                        if *side_map != m8 {
                            m6.lemma_keeps_transitive(&m8, &*side_map);
                        }
                        lemma_diag_done_keeps(m6, *side_map, *puzzle, p, rot);
                    }
                } else {
                    proof {
                        assert forall|k: int| #[trigger] diag_run(*puzzle, p, rot, k) implies false by {
                            if k < cnt {
                                assert(puzzle.hint_at(diag_step(p, m, k)) == Some(2u8));
                            } else if k > cnt {
                                assert(s.spec_contains(diag_step(p, m, cnt as int)));
                                assert(puzzle.hint_at(diag_step(p, m, cnt as int)) == Some(2u8));
                            }
                        }
                    }
                }
                proof {
                    assert(before_t.keeps(&*side_map)) by {
                        mid.lemma_keeps_transitive(&before_t, &*side_map);
                    }
                    assert forall|i: int| 0 <= i < t + 1 implies diag_done(*side_map, *puzzle, p, #[trigger] turns@[i]) by {
                        if i < t {
                            lemma_diag_done_keeps(before_t, *side_map, *puzzle, p, turns@[i]);
                        }
                    }
                }
                t = t + 1;
            }
            proof {
                assert forall|rot: Rotation| half_turn_set(rot) implies #[trigger] diag_done(*side_map, *puzzle, p, rot) by {
                    if rot.entries() == turns@[0].entries() {
                        lemma_diag_done_entries(*side_map, *puzzle, p, turns@[0], rot);
                    } else {
                        lemma_diag_done_entries(*side_map, *puzzle, p, turns@[1], rot);
                    }
                }
                assert forall|rot: Rotation|
                    half_turn_set(rot) && puzzle.hint_at(turned(p, rot, 0, 1)) == Some(3u8) implies #[trigger] three_pair_done(
                    *side_map,
                    *puzzle,
                    p,
                    rot,
                ) by {
                    if rot.entries() == turns@[0].entries() {
                        assert(three_pair_done(mid, *puzzle, p, turns@[0]));
                    } else {
                        assert(three_pair_done(mid, *puzzle, p, turns@[1]));
                    }
                    lemma_three_pair_keeps(mid, *side_map, *puzzle, p, rot);
                }
            }
        },
        _ => {},
    }
    proof {
        start.lemma_keeps_transitive(&m0, &*side_map);
        if puzzle.hint_at(p) == Some(0u8) {
            assert forall|d: int| 0 <= d < 4 implies #[trigger] side_map.knows_edge(cell(s, p), cell(s, nbr(p, d)), Edge::Cross) by {
                let t = if d == 1 { 0int } else if d == 0 { 1int } else if d == 3 { 2int } else { 3int };
                assert(turn_dir(t) == d);
            }
        }
    }
}

/// Patterns forced by the hints alone: hints in the corners of the grid, zeros and their
/// neighbouring threes, and adjacent or diagonal threes.
pub fn fill_by_num_place(puzzle: &Puzzle, side_map: &mut SideMap)
    requires
        puzzle.wf(),
        roomy(puzzle.spec_size()),
        old(side_map).wf(),
        old(side_map).num_cells() == puzzle.spec_size().spec_cell_len(),
    ensures
        final(side_map).wf(),
        old(side_map).keeps(&*final(side_map)),
        forall|q: Point|
            puzzle.spec_size().spec_contains(q) && puzzle.hint_at(q) == Some(0u8) ==> #[trigger] zero_done(
                *final(side_map),
                puzzle.spec_size(),
                q,
            ),
        forall|q: Point, rot: Rotation|
            puzzle.spec_size().spec_contains(q) && puzzle.hint_at(q) == Some(3u8) && half_turn_set(rot) && puzzle.hint_at(
                turned(q, rot, 0, 1),
            ) == Some(3u8) ==> #[trigger] three_pair_done(*final(side_map), *puzzle, q, rot),
        forall|a: Seq<bool>|
            old(side_map).admits(a) && locally_consistent(*puzzle, a) && !three_linked(*puzzle) ==> #[trigger] final(side_map).admits(a),
        forall|q: Point, rot: Rotation|
            puzzle.spec_size().spec_contains(q) && half_turn_set(rot) ==> #[trigger] diag_done(*final(side_map), *puzzle, q, rot),
        forall|k: int, rot: Rotation|
            0 <= k < 4 && rot.entries() == grid_corner(puzzle.spec_size(), k).1 ==> #[trigger] corner_done(
                *final(side_map),
                *puzzle,
                grid_corner(puzzle.spec_size(), k).0,
                rot,
            ),
{
    let ghost start = *side_map;
    proof {
        crate::theorem::lemma_same_view_refl(start);
    }
    let s = puzzle.size();
    let g = Ghost(start);
    let gs = Ghost(s);
    let corners = [
        (Point(0, 0), Rotation::ucw0()),
        (Point(s.0 - 1, 0), Rotation::ucw90()),
        (Point(s.0 - 1, s.1 - 1), Rotation::ucw180()),
        (Point(0, s.1 - 1), Rotation::ucw270()),
    ];
    let mut k: usize = 0;
    while k < 4
        invariant
            gs@ == s,
            g@ == start,
            k <= 4,
            s == puzzle.spec_size(),
            puzzle.wf(),
            ready(*side_map, s, start),
            start == *old(side_map),
            corners@.len() == 4,
            forall|i: int| 0 <= i < 4 ==> near(s, (#[trigger] corners@[i]).0, 0),
            forall|i: int| 0 <= i < 4 ==> (#[trigger] corners@[i]).0 == grid_corner(s, i).0 && corners@[i].1.entries() == grid_corner(s, i).1,
            forall|i: int| 0 <= i < k ==> corner_done(*side_map, *puzzle, (#[trigger] corners@[i]).0, corners@[i].1),
            forall|a: Seq<bool>| start.admits(a) && locally_consistent(*puzzle, a) ==> #[trigger] side_map.admits(a),
        decreases 4 - k,
    {
        let ghost before = *side_map;
        let (p, rot) = corners[k];
        match puzzle.hint(p) {
            Some(1) => {
                same(side_map, s, p, at(p, rot, -1, 0, gs, Ghost(0)), g);
                let ghost mm = *side_map;
                same(side_map, s, p, at(p, rot, 0, -1, gs, Ghost(0)), g);
                proof {
                    assert forall|a: Seq<bool>| start.admits(a) && locally_consistent(*puzzle, a) implies #[trigger] side_map.admits(a) by {
                        lemma_corner_facts(*puzzle, a, k as int, rot);
                        assert(mm.admits(a));
                    }
                }
            },
            Some(2) => {
                different(side_map, s, at(p, rot, 0, 1, gs, Ghost(0)), at(p, rot, -1, 1, gs, Ghost(0)), g);
                let ghost mm = *side_map;
                different(side_map, s, at(p, rot, 1, 0, gs, Ghost(0)), at(p, rot, 1, -1, gs, Ghost(0)), g);
                proof {
                    assert forall|a: Seq<bool>| start.admits(a) && locally_consistent(*puzzle, a) implies #[trigger] side_map.admits(a) by {
                        lemma_corner_facts(*puzzle, a, k as int, rot);
                        assert(mm.admits(a));
                    }
                }
            },
            Some(3) => {
                different(side_map, s, p, at(p, rot, -1, 0, gs, Ghost(0)), g);
                let ghost mm = *side_map;
                different(side_map, s, p, at(p, rot, 0, -1, gs, Ghost(0)), g);
                proof {
                    assert forall|a: Seq<bool>| start.admits(a) && locally_consistent(*puzzle, a) implies #[trigger] side_map.admits(a) by {
                        lemma_corner_facts(*puzzle, a, k as int, rot);
                        assert(mm.admits(a));
                    }
                }
            },
            _ => {},
        }
        proof {
            crate::side_map::lemma_cell_bound(s, p);
            crate::side_map::lemma_cell_bound(s, turned(p, rot, -1, 0));
            crate::side_map::lemma_cell_bound(s, turned(p, rot, 0, -1));
            crate::side_map::lemma_cell_bound(s, turned(p, rot, 0, 1));
            crate::side_map::lemma_cell_bound(s, turned(p, rot, -1, 1));
            crate::side_map::lemma_cell_bound(s, turned(p, rot, 1, 0));
            crate::side_map::lemma_cell_bound(s, turned(p, rot, 1, -1));
            assert(corner_done(*side_map, *puzzle, p, rot));
            assert forall|i: int| 0 <= i < k + 1 implies corner_done(*side_map, *puzzle, (#[trigger] corners@[i]).0, corners@[i].1) by {
                if i < k {
                    lemma_corner_done_keeps(before, *side_map, *puzzle, corners@[i].0, corners@[i].1);
                }
            }
        }
        k = k + 1;
    }
    let mut r: i32 = 0;
    while r < s.0
        invariant
            gs@ == s,
            g@ == start,
            0 <= r <= s.0,
            s == puzzle.spec_size(),
            puzzle.wf(),
            ready(*side_map, s, start),
            start == *old(side_map),
            forall|q: Point|
                s.spec_contains(q) && q.0 < r && puzzle.hint_at(q) == Some(0u8) ==> #[trigger] zero_done(*side_map, s, q),
            forall|i: int| 0 <= i < 4 ==> corner_done(*side_map, *puzzle, (#[trigger] corners@[i]).0, corners@[i].1),
            forall|i: int| 0 <= i < 4 ==> (#[trigger] corners@[i]).0 == grid_corner(s, i).0 && corners@[i].1.entries() == grid_corner(s, i).1,
            forall|q: Point, rot: Rotation|
                s.spec_contains(q) && q.0 < r && puzzle.hint_at(q) == Some(3u8) && half_turn_set(rot) && puzzle.hint_at(
                    turned(q, rot, 0, 1),
                ) == Some(3u8) ==> #[trigger] three_pair_done(*side_map, *puzzle, q, rot),
            forall|a: Seq<bool>|
                start.admits(a) && locally_consistent(*puzzle, a) && !three_linked(*puzzle) ==> #[trigger] side_map.admits(a),
            forall|q: Point, rot: Rotation|
                s.spec_contains(q) && q.0 < r && half_turn_set(rot) ==> #[trigger] diag_done(*side_map, *puzzle, q, rot),
        decreases s.0 - r,
    {
        let mut c: i32 = 0;
        while c < s.1
            invariant
                gs@ == s,
                g@ == start,
                0 <= r < s.0,
                0 <= c <= s.1,
                s == puzzle.spec_size(),
                puzzle.wf(),
                ready(*side_map, s, start),
                start == *old(side_map),
                forall|q: Point|
                    s.spec_contains(q) && (q.0 < r || (q.0 == r && q.1 < c)) && puzzle.hint_at(q) == Some(0u8)
                        ==> #[trigger] zero_done(*side_map, s, q),
                forall|i: int| 0 <= i < 4 ==> corner_done(*side_map, *puzzle, (#[trigger] corners@[i]).0, corners@[i].1),
                forall|q: Point, rot: Rotation|
                    s.spec_contains(q) && (q.0 < r || (q.0 == r && q.1 < c)) && puzzle.hint_at(q) == Some(3u8) && half_turn_set(rot)
                        && puzzle.hint_at(turned(q, rot, 0, 1)) == Some(3u8) ==> #[trigger] three_pair_done(*side_map, *puzzle, q, rot),
                forall|a: Seq<bool>|
                    start.admits(a) && locally_consistent(*puzzle, a) && !three_linked(*puzzle) ==> #[trigger] side_map.admits(a),
                forall|q: Point, rot: Rotation|
                    s.spec_contains(q) && (q.0 < r || (q.0 == r && q.1 < c)) && half_turn_set(rot) ==> #[trigger] diag_done(
                        *side_map,
                        *puzzle,
                        q,
                        rot,
                    ),
            decreases s.1 - c,
        {
            let ghost before = *side_map;
            num_place_cell(puzzle, side_map, Point(r, c), g);
            proof {
                assert forall|q: Point|
                    s.spec_contains(q) && (q.0 < r || (q.0 == r && q.1 < c + 1)) && puzzle.hint_at(q) == Some(0u8)
                        implies #[trigger] zero_done(*side_map, s, q) by {
                    if q.0 < r || q.1 < c {
                        lemma_zero_done_keeps(before, *side_map, s, q);
                    }
                }
                assert forall|q: Point, rot: Rotation|
                    s.spec_contains(q) && (q.0 < r || (q.0 == r && q.1 < c + 1)) && half_turn_set(rot) implies #[trigger] diag_done(
                        *side_map,
                        *puzzle,
                        q,
                        rot,
                    ) by {
                    if q.0 < r || q.1 < c {
                        lemma_diag_done_keeps(before, *side_map, *puzzle, q, rot);
                    }
                }
                assert forall|a: Seq<bool>|
                    start.admits(a) && locally_consistent(*puzzle, a) && !three_linked(*puzzle) implies #[trigger] side_map.admits(a) by {
                    assert(s.spec_contains(Point(r, c)));
                    assert(!three_at(*puzzle, Point(r, c)));
                    assert(before.admits(a));
                }
                assert forall|i: int| 0 <= i < 4 implies corner_done(*side_map, *puzzle, (#[trigger] corners@[i]).0, corners@[i].1) by {
                    lemma_corner_done_keeps(before, *side_map, *puzzle, corners@[i].0, corners@[i].1);
                }
                assert forall|q: Point, rot: Rotation|
                    s.spec_contains(q) && (q.0 < r || (q.0 == r && q.1 < c + 1)) && puzzle.hint_at(q) == Some(3u8) && half_turn_set(rot)
                        && puzzle.hint_at(turned(q, rot, 0, 1)) == Some(3u8) implies #[trigger] three_pair_done(*side_map, *puzzle, q, rot) by {
                    if q.0 < r || q.1 < c {
                        lemma_three_pair_keeps(before, *side_map, *puzzle, q, rot);
                    }
                }
            }
            c = c + 1;
        }
        r = r + 1;
    }
}


/// What the corner patterns decide at the corner cell `p`, turned by `rot` so that the
/// border lies above and to the left: a one has crosses to the border above and to the
/// left; a two has lines beyond its neighbours along both borders; a three has lines to
/// the border above and to the left.
pub open spec fn corner_done(sm: SideMap, puzzle: Puzzle, p: Point, rot: Rotation) -> bool {
    let s = puzzle.spec_size();
    let h = puzzle.hint_at(p);
    &&& h == Some(1u8) ==> knows_between(sm, s, p, turned(p, rot, -1, 0), Edge::Cross) && knows_between(
        sm,
        s,
        p,
        turned(p, rot, 0, -1),
        Edge::Cross,
    )
    &&& h == Some(2u8) ==> knows_between(sm, s, turned(p, rot, 0, 1), turned(p, rot, -1, 1), Edge::Line) && knows_between(
        sm,
        s,
        turned(p, rot, 1, 0),
        turned(p, rot, 1, -1),
        Edge::Line,
    )
    &&& h == Some(3u8) ==> knows_between(sm, s, p, turned(p, rot, -1, 0), Edge::Line) && knows_between(
        sm,
        s,
        p,
        turned(p, rot, 0, -1),
        Edge::Line,
    )
}

/// What the corner patterns decided stays known in a map that keeps the first.
proof fn lemma_corner_done_keeps(a: SideMap, b: SideMap, puzzle: Puzzle, p: Point, rot: Rotation)
    requires
        valid_size(puzzle.spec_size()),
        a.num_cells() == puzzle.spec_size().spec_cell_len(),
        a.keeps(&b),
        corner_done(a, puzzle, p, rot),
    ensures
        corner_done(b, puzzle, p, rot),
{
    let s = puzzle.spec_size();
    crate::side_map::lemma_cell_bound(s, p);
    crate::side_map::lemma_cell_bound(s, turned(p, rot, -1, 0));
    crate::side_map::lemma_cell_bound(s, turned(p, rot, 0, -1));
    crate::side_map::lemma_cell_bound(s, turned(p, rot, 0, 1));
    crate::side_map::lemma_cell_bound(s, turned(p, rot, -1, 1));
    crate::side_map::lemma_cell_bound(s, turned(p, rot, 1, 0));
    crate::side_map::lemma_cell_bound(s, turned(p, rot, 1, -1));
    let h = puzzle.hint_at(p);
    if h == Some(1u8) {
        lemma_keeps_knows(a, b, cell(s, p), cell(s, turned(p, rot, -1, 0)), Edge::Cross);
        lemma_keeps_knows(a, b, cell(s, p), cell(s, turned(p, rot, 0, -1)), Edge::Cross);
    } else if h == Some(2u8) {
        lemma_keeps_knows(a, b, cell(s, turned(p, rot, 0, 1)), cell(s, turned(p, rot, -1, 1)), Edge::Line);
        lemma_keeps_knows(a, b, cell(s, turned(p, rot, 1, 0)), cell(s, turned(p, rot, 1, -1)), Edge::Line);
    } else if h == Some(3u8) {
        lemma_keeps_knows(a, b, cell(s, p), cell(s, turned(p, rot, -1, 0)), Edge::Line);
        lemma_keeps_knows(a, b, cell(s, p), cell(s, turned(p, rot, 0, -1)), Edge::Line);
    }
}

/// What the pattern of two threes side by side decides, `p` on the left and its right
/// neighbour `rp` after turning by `rot`: lines left of `p`, between them and right of
/// `rp`; crosses along the row above and along the row below; a line from above to
/// below across them.
pub open spec fn three_pair_done(sm: SideMap, puzzle: Puzzle, p: Point, rot: Rotation) -> bool {
    let s = puzzle.spec_size();
    let rp = turned(p, rot, 0, 1);
    &&& knows_between(sm, s, p, turned(p, rot, 0, -1), Edge::Line)
    &&& knows_between(sm, s, p, rp, Edge::Line)
    &&& knows_between(sm, s, rp, turned(rp, rot, 0, 1), Edge::Line)
    &&& knows_between(sm, s, turned(p, rot, -1, 0), turned(rp, rot, -1, 0), Edge::Cross)
    &&& knows_between(sm, s, turned(p, rot, 1, 0), turned(rp, rot, 1, 0), Edge::Cross)
    &&& knows_between(sm, s, turned(p, rot, -1, 0), turned(rp, rot, 1, 0), Edge::Line)
}

/// What the pattern of two threes decided stays known in a map that keeps the first.
proof fn lemma_three_pair_keeps(a: SideMap, b: SideMap, puzzle: Puzzle, p: Point, rot: Rotation)
    requires
        valid_size(puzzle.spec_size()),
        a.num_cells() == puzzle.spec_size().spec_cell_len(),
        a.keeps(&b),
        three_pair_done(a, puzzle, p, rot),
    ensures
        three_pair_done(b, puzzle, p, rot),
{
    let s = puzzle.spec_size();
    let rp = turned(p, rot, 0, 1);
    crate::side_map::lemma_cell_bound(s, p);
    crate::side_map::lemma_cell_bound(s, rp);
    crate::side_map::lemma_cell_bound(s, turned(p, rot, 0, -1));
    crate::side_map::lemma_cell_bound(s, turned(rp, rot, 0, 1));
    crate::side_map::lemma_cell_bound(s, turned(p, rot, -1, 0));
    crate::side_map::lemma_cell_bound(s, turned(rp, rot, -1, 0));
    crate::side_map::lemma_cell_bound(s, turned(p, rot, 1, 0));
    crate::side_map::lemma_cell_bound(s, turned(rp, rot, 1, 0));
    lemma_keeps_knows(a, b, cell(s, p), cell(s, turned(p, rot, 0, -1)), Edge::Line);
    lemma_keeps_knows(a, b, cell(s, p), cell(s, rp), Edge::Line);
    lemma_keeps_knows(a, b, cell(s, rp), cell(s, turned(rp, rot, 0, 1)), Edge::Line);
    lemma_keeps_knows(a, b, cell(s, turned(p, rot, -1, 0)), cell(s, turned(rp, rot, -1, 0)), Edge::Cross);
    lemma_keeps_knows(a, b, cell(s, turned(p, rot, 1, 0)), cell(s, turned(rp, rot, 1, 0)), Edge::Cross);
    lemma_keeps_knows(a, b, cell(s, turned(p, rot, -1, 0)), cell(s, turned(rp, rot, 1, 0)), Edge::Line);
}

/// The four corners of the grid with the turn that puts their borders above and to the
/// left: top left, bottom left, bottom right, top right.
pub open spec fn grid_corner(s: Size, k: int) -> (Point, (int, int, int, int)) {
    if k == 0 {
        (Point(0, 0), (1int, 0int, 0int, 1int))
    } else if k == 1 {
        (Point((s.0 - 1) as i32, 0), (0int, -1int, 1int, 0int))
    } else if k == 2 {
        (Point((s.0 - 1) as i32, (s.1 - 1) as i32), (-1int, 0int, 0int, -1int))
    } else {
        (Point(0, (s.1 - 1) as i32), (0int, 1int, -1int, 0int))
    }
}

/// What locally consistent cell sides have at the corner cell `p` of the grid, turned
/// by `rot` so that the border lies above and to the left: with a one, the cell is with
/// the outside above and to the left; with a two, its neighbours along both borders are
/// apart from the outside; with a three, the cell is apart from the outside.
pub open spec fn corner_facts(puzzle: Puzzle, a: Seq<bool>, p: Point, rot: Rotation) -> bool {
    let s = puzzle.spec_size();
    let h = puzzle.hint_at(p);
    &&& h == Some(1u8) ==> a[cell(s, p) as int] == a[cell(s, turned(p, rot, -1, 0)) as int] && a[cell(s, p) as int]
        == a[cell(s, turned(p, rot, 0, -1)) as int]
    &&& h == Some(2u8) ==> a[cell(s, turned(p, rot, 0, 1)) as int] != a[cell(s, turned(p, rot, -1, 1)) as int]
        && a[cell(s, turned(p, rot, 1, 0)) as int] != a[cell(s, turned(p, rot, 1, -1)) as int]
    &&& h == Some(3u8) ==> a[cell(s, p) as int] != a[cell(s, turned(p, rot, -1, 0)) as int] && a[cell(s, p) as int]
        != a[cell(s, turned(p, rot, 0, -1)) as int]
}

/// Locally consistent cell sides have the corner facts at each corner of the grid.
proof fn lemma_corner_facts(puzzle: Puzzle, a: Seq<bool>, k: int, rot: Rotation)
    requires
        puzzle.wf(),
        roomy(puzzle.spec_size()),
        0 <= k < 4,
        rot.entries() == grid_corner(puzzle.spec_size(), k).1,
        locally_consistent(puzzle, a),
    ensures
        corner_facts(puzzle, a, grid_corner(puzzle.spec_size(), k).0, rot),
{
    let s = puzzle.spec_size();
    let p = grid_corner(s, k).0;
    assert(!s.spec_contains(turned(p, rot, -1, 0)));
    assert(!s.spec_contains(turned(p, rot, 0, -1)));
    assert(!s.spec_contains(turned(p, rot, -1, 1)));
    assert(!s.spec_contains(turned(p, rot, 1, -1)));
    lemma_turned_hint(puzzle, a, p, rot);
}

/// The neighbour of `p` in direction `d`: up, right, down, left.
pub open spec fn nbr(p: Point, d: int) -> Point {
    if d == 0 {
        Point((p.0 - 1) as i32, p.1)
    } else if d == 1 {
        Point(p.0, (p.1 + 1) as i32)
    } else if d == 2 {
        Point((p.0 + 1) as i32, p.1)
    } else {
        Point(p.0, (p.1 - 1) as i32)
    }
}

/// One for true, zero for false.
pub open spec fn ind(b: bool) -> int {
    if b {
        1
    } else {
        0
    }
}

/// What the side map knows of the edge between `p` and its neighbour in direction `d`.
pub open spec fn rel_at(sm: SideMap, s: Size, p: Point, d: int) -> State<Edge> {
    sm.edge_state(cell(s, p), cell(s, nbr(p, d)))
}

/// The number of neighbours of `p` whose edge is in state `e`.
pub open spec fn count_rel(sm: SideMap, s: Size, p: Point, e: State<Edge>) -> int {
    ind(rel_at(sm, s, p, 0) == e) + ind(rel_at(sm, s, p, 1) == e) + ind(rel_at(sm, s, p, 2) == e) + ind(
        rel_at(sm, s, p, 3) == e,
    )
}

/// What the line count around `p` decides for its unknown edges: a cross when three
/// lines are known and one edge is unknown, or when the known lines reach the hint; a
/// line when the known crosses leave room for exactly the hint.
pub open spec fn line_nums_choice(puzzle: Puzzle, sm: SideMap, p: Point) -> Option<Edge> {
    let s = puzzle.spec_size();
    let nd = count_rel(sm, s, p, State::Fixed(Edge::Line));
    let ns = count_rel(sm, s, p, State::Fixed(Edge::Cross));
    let nu = count_rel(sm, s, p, State::Unknown);
    if nd == 3 && nu == 1 {
        Some(Edge::Cross)
    } else {
        match puzzle.hint_at(p) {
            Some(x) => if nd == x {
                Some(Edge::Cross)
            } else if ns + x == 4 {
                Some(Edge::Line)
            } else {
                None
            },
            None => None,
        }
    }
}

/// The number of neighbours of `p` on the other side under the cell sides `a`.
pub open spec fn differing(a: Seq<bool>, s: Size, p: Point) -> int {
    ind(a[cell(s, p) as int] != a[cell(s, nbr(p, 0)) as int]) + ind(a[cell(s, p) as int] != a[cell(s, nbr(p, 1)) as int])
        + ind(a[cell(s, p) as int] != a[cell(s, nbr(p, 2)) as int]) + ind(
        a[cell(s, p) as int] != a[cell(s, nbr(p, 3)) as int],
    )
}

/// Under the cell sides `a`, the hint of `p` counts its lines.
pub open spec fn hint_met(puzzle: Puzzle, a: Seq<bool>, p: Point) -> bool {
    puzzle.hint_at(p) matches Some(x) ==> differing(a, puzzle.spec_size(), p) == x
}

/// The line count rule never rules out cell sides that meet the hint of `p` and do not
/// put `p` alone inside its four lines: the edges it decides are those of such sides.
proof fn lemma_line_nums_sound(puzzle: Puzzle, sm: SideMap, p: Point, a: Seq<bool>, e: Edge)
    requires
        puzzle.wf(),
        roomy(puzzle.spec_size()),
        sm.num_cells() == puzzle.spec_size().spec_cell_len(),
        near(puzzle.spec_size(), p, 0),
        sm.admits(a),
        hint_met(puzzle, a, p),
        differing(a, puzzle.spec_size(), p) < 4,
        line_nums_choice(puzzle, sm, p) == Some(e),
        count_rel(sm, puzzle.spec_size(), p, State::Conflict) == 0,
    ensures
        forall|d: int|
            0 <= d < 4 && #[trigger] rel_at(sm, puzzle.spec_size(), p, d) == State::<Edge>::Unknown ==> (a[cell(
                puzzle.spec_size(),
                p,
            ) as int] == a[cell(puzzle.spec_size(), nbr(p, d)) as int]) == (e == Edge::Cross),
{
    let s = puzzle.spec_size();
    let c = cell(s, p);
    crate::side_map::lemma_cell_bound(s, p);
    crate::side_map::lemma_cell_bound(s, nbr(p, 0));
    crate::side_map::lemma_cell_bound(s, nbr(p, 1));
    crate::side_map::lemma_cell_bound(s, nbr(p, 2));
    crate::side_map::lemma_cell_bound(s, nbr(p, 3));
    crate::side_map::lemma_edge_admitted(sm, a, c, cell(s, nbr(p, 0)));
    crate::side_map::lemma_edge_admitted(sm, a, c, cell(s, nbr(p, 1)));
    crate::side_map::lemma_edge_admitted(sm, a, c, cell(s, nbr(p, 2)));
    crate::side_map::lemma_edge_admitted(sm, a, c, cell(s, nbr(p, 3)));
}

/// Records `e` between `p` and `q` when their edge is still unknown.
fn settle(sm: &mut SideMap, s: Size, p: Point, q: Point, st: State<Edge>, e: Edge, Ghost(start): Ghost<SideMap>)
    requires
        ready(*old(sm), s, start),
    ensures
        ready(*final(sm), s, start),
        old(sm).keeps(&*final(sm)),
        st == State::<Edge>::Unknown ==> final(sm).knows_edge(cell(s, p), cell(s, q), e),
        st != State::<Edge>::Unknown ==> *final(sm) == *old(sm),
        forall|a: Seq<bool>|
            old(sm).admits(a) && (st != State::<Edge>::Unknown || (a[cell(s, p) as int] == a[cell(s, q) as int]) == (e
                == Edge::Cross)) ==> #[trigger] final(sm).admits(a),
{
    proof {
        crate::theorem::lemma_same_view_refl(*sm);
    }
    if let State::Unknown = st {
        match e {
            Edge::Cross => same(sm, s, p, q, Ghost(start)),
            Edge::Line => different(sm, s, p, q, Ghost(start)),
        }
    }
}

/// What a map that keeps another knows of an edge.
proof fn lemma_keeps_knows(a: SideMap, b: SideMap, c0: nat, c1: nat, e: Edge)
    requires
        a.keeps(&b),
        a.knows_edge(c0, c1, e),
        c0 < a.num_cells(),
        c1 < a.num_cells(),
    ensures
        b.knows_edge(c0, c1, e),
{
}

/// Decides the unknown edges around `p` from the number of lines around it (see
/// `line_nums_choice`); fails when an edge around `p` is in conflict.
#[verifier::rlimit(40)]
pub fn fill_cell_by_line_nums(puzzle: &Puzzle, side_map: &mut SideMap, p: Point, Ghost(start): Ghost<SideMap>) -> (r: SolverResult<()>)
    requires
        puzzle.wf(),
        ready(*old(side_map), puzzle.spec_size(), start),
        near(puzzle.spec_size(), p, 0),
    ensures
        ready(*final(side_map), puzzle.spec_size(), start),
        old(side_map).keeps(&*final(side_map)),
        r is Err <==> count_rel(*old(side_map), puzzle.spec_size(), p, State::Conflict) > 0,
        r is Err ==> count_rel(*final(side_map), puzzle.spec_size(), p, State::Conflict) > 0,
        r is Err ==> r->Err_0 == Error::spec_invalid_board(),
        r is Ok ==> match line_nums_choice(*puzzle, *old(side_map), p) {
            Some(e) => forall|d: int|
                0 <= d < 4 && rel_at(*old(side_map), puzzle.spec_size(), p, d) == State::<Edge>::Unknown
                    ==> #[trigger] final(side_map).knows_edge(
                    cell(puzzle.spec_size(), p),
                    cell(puzzle.spec_size(), nbr(p, d)),
                    e,
                ),
            None => final(side_map).same_view(*old(side_map)),
        },
        forall|a: Seq<bool>|
            old(side_map).admits(a) && hint_met(*puzzle, a, p) && differing(a, puzzle.spec_size(), p) < 4
                ==> #[trigger] final(side_map).admits(a),
{
    let s = puzzle.size();
    let g = Ghost(start);
    let ghost m0 = *side_map;
    proof {
        crate::theorem::lemma_same_view_refl(m0);
    }
    let q0 = Point(p.0 - 1, p.1);
    let q1 = Point(p.0, p.1 + 1);
    let q2 = Point(p.0 + 1, p.1);
    let q3 = Point(p.0, p.1 - 1);
    let r0 = rel(side_map, s, p, q0, g);
    let r1 = rel(side_map, s, p, q1, g);
    let r2 = rel(side_map, s, p, q2, g);
    let r3 = rel(side_map, s, p, q3, g);
    let ghost m1 = *side_map;
    proof {
        crate::theorem::lemma_same_view_trans(m0, m1, m1);
        assert(rel_at(m0, s, p, 0) == r0 && rel_at(m0, s, p, 1) == r1 && rel_at(m0, s, p, 2) == r2 && rel_at(m0, s, p, 3) == r3);
        crate::theorem_pool::lemma_same_view_keeps(m0, m1);
        assert forall|a: Seq<bool>| m0.admits(a) implies #[trigger] m1.admits(a) by {
            assert forall|i: nat, j: nat|
                i < 2 * m1.num_cells() && j < 2 * m1.num_cells() && #[trigger] m1.together(i, j) implies crate::side_map::key_value(a, i)
                    == crate::side_map::key_value(a, j) by {
                assert(m0.together(i, j));
            }
        }
    }
    let conflict = is_conflict(r0) || is_conflict(r1) || is_conflict(r2) || is_conflict(r3);
    if conflict {
        return Err(Error::invalid_board());
    }
    let nd = ind_exec(is_line(r0)) + ind_exec(is_line(r1)) + ind_exec(is_line(r2)) + ind_exec(is_line(r3));
    let ns = ind_exec(is_cross(r0)) + ind_exec(is_cross(r1)) + ind_exec(is_cross(r2)) + ind_exec(is_cross(r3));
    let nu = ind_exec(is_unknown(r0)) + ind_exec(is_unknown(r1)) + ind_exec(is_unknown(r2)) + ind_exec(is_unknown(r3));
    let choice: Option<Edge> = if nd == 3 && nu == 1 {
        Some(Edge::Cross)
    } else {
        match puzzle.hint(p) {
            Some(x) => if nd == x as u32 {
                Some(Edge::Cross)
            } else if ns + x as u32 == 4 {
                Some(Edge::Line)
            } else {
                None
            },
            None => None,
        }
    };
    assert(choice == line_nums_choice(*puzzle, m0, p));
    if let Some(e) = choice {
        let ghost c = cell(s, p);
        settle(side_map, s, p, q0, r0, e, g);
        let ghost m2 = *side_map;
        settle(side_map, s, p, q1, r1, e, g);
        let ghost m3 = *side_map;
        settle(side_map, s, p, q2, r2, e, g);
        let ghost m4 = *side_map;
        settle(side_map, s, p, q3, r3, e, g);
        proof {
            assert(nbr(p, 0) == q0 && nbr(p, 1) == q1 && nbr(p, 2) == q2 && nbr(p, 3) == q3);
            m0.lemma_keeps_transitive(&m1, &m2);
            m0.lemma_keeps_transitive(&m2, &m3);
            m0.lemma_keeps_transitive(&m3, &m4);
            m0.lemma_keeps_transitive(&m4, &*side_map);
            crate::side_map::lemma_cell_bound(s, p);
            crate::side_map::lemma_cell_bound(s, q0);
            crate::side_map::lemma_cell_bound(s, q1);
            crate::side_map::lemma_cell_bound(s, q2);
            crate::side_map::lemma_cell_bound(s, q3);
            if r0 == State::<Edge>::Unknown {
                lemma_keeps_knows(m2, *side_map, c, cell(s, q0), e);
            }
            if r1 == State::<Edge>::Unknown {
                lemma_keeps_knows(m3, *side_map, c, cell(s, q1), e);
            }
            if r2 == State::<Edge>::Unknown {
                lemma_keeps_knows(m4, *side_map, c, cell(s, q2), e);
            }
            assert forall|a: Seq<bool>|
                m0.admits(a) && hint_met(*puzzle, a, p) && differing(a, s, p) < 4 implies #[trigger] side_map.admits(a) by {
                lemma_line_nums_sound(*puzzle, m0, p, a, e);
                assert(m1.admits(a));
                assert(m2.admits(a));
                assert(m3.admits(a));
                assert(m4.admits(a));
            }
        }
    } else {
        proof {
            crate::theorem_pool::lemma_same_view_keeps(m0, *side_map);
        }
    }
    Ok(())
}

fn is_conflict(st: State<Edge>) -> (r: bool)
    ensures
        r == (st == State::<Edge>::Conflict),
{
    match st {
        State::Conflict => true,
        _ => false,
    }
}

fn is_line(st: State<Edge>) -> (r: bool)
    ensures
        r == (st == State::Fixed(Edge::Line)),
{
    match st {
        State::Fixed(Edge::Line) => true,
        _ => false,
    }
}

fn is_cross(st: State<Edge>) -> (r: bool)
    ensures
        r == (st == State::Fixed(Edge::Cross)),
{
    match st {
        State::Fixed(Edge::Cross) => true,
        _ => false,
    }
}

fn is_unknown(st: State<Edge>) -> (r: bool)
    ensures
        r == (st == State::<Edge>::Unknown),
{
    match st {
        State::Unknown => true,
        _ => false,
    }
}

fn ind_exec(b: bool) -> (r: u32)
    ensures
        r == ind(b),
{
    if b {
        1
    } else {
        0
    }
}

/// What the line count decides around a cell, by its counts: with three lines and one
/// unknown edge, a cross; with as many lines as its hint and an unknown edge, a cross;
/// with as many crosses as four less its hint and an unknown edge, but neither of the
/// former, a line. A cell with four edges known decides nothing new either way.
pub proof fn law_line_count(puzzle: Puzzle, sm: SideMap, p: Point)
    ensures
        count_rel(sm, puzzle.spec_size(), p, State::Fixed(Edge::Line)) == 3 && count_rel(
            sm,
            puzzle.spec_size(),
            p,
            State::<Edge>::Unknown,
        ) == 1 ==> line_nums_choice(puzzle, sm, p) == Some(Edge::Cross),
        puzzle.hint_at(p) matches Some(x) && count_rel(sm, puzzle.spec_size(), p, State::Fixed(Edge::Line)) == x
            ==> line_nums_choice(puzzle, sm, p) == Some(Edge::Cross),
        puzzle.hint_at(p) matches Some(x) && count_rel(sm, puzzle.spec_size(), p, State::Fixed(Edge::Cross)) + x == 4
            && count_rel(sm, puzzle.spec_size(), p, State::Fixed(Edge::Line)) != x && !(count_rel(
            sm,
            puzzle.spec_size(),
            p,
            State::Fixed(Edge::Line),
        ) == 3 && count_rel(sm, puzzle.spec_size(), p, State::<Edge>::Unknown) == 1) ==> line_nums_choice(puzzle, sm, p)
            == Some(Edge::Line),
        puzzle.hint_at(p) is None && !(count_rel(sm, puzzle.spec_size(), p, State::Fixed(Edge::Line)) == 3 && count_rel(
            sm,
            puzzle.spec_size(),
            p,
            State::<Edge>::Unknown,
        ) == 1) ==> line_nums_choice(puzzle, sm, p) is None,
{
}

/// The cell `p` has three lines and one unknown edge.
pub open spec fn three_lines_one_open(sm: SideMap, s: Size, p: Point) -> bool {
    count_rel(sm, s, p, State::Fixed(Edge::Line)) == 3 && count_rel(sm, s, p, State::<Edge>::Unknown) == 1
}

/// An edge around `p` known in a map stays known in a map that keeps it, and a line stays a
/// line unless it turns into a conflict.
proof fn lemma_rel_keeps(a: SideMap, b: SideMap, s: Size, p: Point, d: int)
    requires
        valid_size(s),
        a.num_cells() == s.spec_cell_len(),
        a.keeps(&b),
    ensures
        rel_at(a, s, p, d) != State::<Edge>::Unknown ==> rel_at(b, s, p, d) != State::<Edge>::Unknown,
        rel_at(a, s, p, d) == State::Fixed(Edge::Line) ==> rel_at(b, s, p, d) == State::Fixed(Edge::Line) || rel_at(
            b,
            s,
            p,
            d,
        ) == State::<Edge>::Conflict,
{
    crate::side_map::lemma_cell_bound(s, p);
    crate::side_map::lemma_cell_bound(s, nbr(p, d));
    let c0 = cell(s, p);
    let c1 = cell(s, nbr(p, d));
    assert(crate::side_map::key0(c0) < 2 * a.num_cells());
    assert(crate::side_map::key0(c1) < 2 * a.num_cells());
    assert(crate::side_map::key1(c1) < 2 * a.num_cells());
}

/// The line count applied to a cell that had three lines and one unknown edge in `start`
/// leaves it with no unknown edge.
proof fn lemma_three_lines_step(puzzle: Puzzle, start: SideMap, before: SideMap, after: SideMap, p: Point)
    requires
        valid_size(puzzle.spec_size()),
        start.num_cells() == puzzle.spec_size().spec_cell_len(),
        start.keeps(&before),
        before.keeps(&after),
        three_lines_one_open(start, puzzle.spec_size(), p),
        count_rel(before, puzzle.spec_size(), p, State::<Edge>::Conflict) == 0,
        match line_nums_choice(puzzle, before, p) {
            Some(e) => forall|d: int|
                0 <= d < 4 && rel_at(before, puzzle.spec_size(), p, d) == State::<Edge>::Unknown ==> #[trigger] after.knows_edge(
                    cell(puzzle.spec_size(), p),
                    cell(puzzle.spec_size(), nbr(p, d)),
                    e,
                ),
            None => true,
        },
    ensures
        count_rel(after, puzzle.spec_size(), p, State::<Edge>::Unknown) == 0,
{
    let s = puzzle.spec_size();
    lemma_rel_keeps(start, before, s, p, 0);
    lemma_rel_keeps(start, before, s, p, 1);
    lemma_rel_keeps(start, before, s, p, 2);
    lemma_rel_keeps(start, before, s, p, 3);
    lemma_rel_keeps(before, after, s, p, 0);
    lemma_rel_keeps(before, after, s, p, 1);
    lemma_rel_keeps(before, after, s, p, 2);
    lemma_rel_keeps(before, after, s, p, 3);
    if count_rel(before, s, p, State::<Edge>::Unknown) > 0 {
        assert(three_lines_one_open(before, s, p));
        law_line_count(puzzle, before, p);
        crate::side_map::lemma_cell_bound(s, p);
        assert forall|d: int| 0 <= d < 4 implies #[trigger] rel_at(after, s, p, d) != State::<Edge>::Unknown by {
            crate::side_map::lemma_cell_bound(s, nbr(p, d));
            if rel_at(before, s, p, d) == State::<Edge>::Unknown {
                assert(after.knows_edge(cell(s, p), cell(s, nbr(p, d)), Edge::Cross));
            }
        }
        assert(rel_at(after, s, p, 0) != State::<Edge>::Unknown);
        assert(rel_at(after, s, p, 1) != State::<Edge>::Unknown);
        assert(rel_at(after, s, p, 2) != State::<Edge>::Unknown);
        assert(rel_at(after, s, p, 3) != State::<Edge>::Unknown);
    }
}

/// A cell with no unknown edge keeps none in a map that keeps the first.
proof fn lemma_no_open_keeps(a: SideMap, b: SideMap, s: Size, p: Point)
    requires
        valid_size(s),
        a.num_cells() == s.spec_cell_len(),
        a.keeps(&b),
        count_rel(a, s, p, State::<Edge>::Unknown) == 0,
    ensures
        count_rel(b, s, p, State::<Edge>::Unknown) == 0,
{
    lemma_rel_keeps(a, b, s, p, 0);
    lemma_rel_keeps(a, b, s, p, 1);
    lemma_rel_keeps(a, b, s, p, 2);
    lemma_rel_keeps(a, b, s, p, 3);
}

/// A map where the line count has nothing more to decide has no cell with three lines and
/// one unknown edge, and no cell with as many lines as its hint and an unknown edge.
pub proof fn law_line_count_closed(puzzle: Puzzle, sm: SideMap, p: Point)
    requires
        line_nums_done(puzzle, sm),
        puzzle.spec_size().spec_contains(p),
    ensures
        !(count_rel(sm, puzzle.spec_size(), p, State::Fixed(Edge::Line)) == 3 && count_rel(
            sm,
            puzzle.spec_size(),
            p,
            State::<Edge>::Unknown,
        ) == 1),
        puzzle.hint_at(p) matches Some(x) && count_rel(sm, puzzle.spec_size(), p, State::Fixed(Edge::Line)) == x
            ==> count_rel(sm, puzzle.spec_size(), p, State::<Edge>::Unknown) == 0,
{
    law_line_count(puzzle, sm, p);
}

/// Every cell of the grid whose line count decides something has no unknown edge left:
/// the line count rule has nothing more to add to `sm`.
pub open spec fn line_nums_done(puzzle: Puzzle, sm: SideMap) -> bool {
    forall|p: Point|
        puzzle.spec_size().spec_contains(p) && line_nums_choice(puzzle, sm, p) is Some ==> #[trigger] count_rel(
            sm,
            puzzle.spec_size(),
            p,
            State::<Edge>::Unknown,
        ) == 0
}

/// While the revision stays, a map knows each edge as the map it keeps.
proof fn lemma_same_revision_edge(a: SideMap, b: SideMap, c0: nat, c1: nat)
    requires
        a.keeps(&b),
        a.spec_revision() == b.spec_revision(),
        c0 < a.num_cells(),
        c1 < a.num_cells(),
    ensures
        a.edge_state(c0, c1) == b.edge_state(c0, c1),
{
    assert(crate::side_map::key0(c0) < 2 * a.num_cells());
    assert(crate::side_map::key0(c1) < 2 * a.num_cells());
    assert(crate::side_map::key1(c1) < 2 * a.num_cells());
}

/// While the revision stays, the edges around `p` read the same.
proof fn lemma_same_revision_around(a: SideMap, b: SideMap, s: Size, p: Point)
    requires
        a.keeps(&b),
        a.spec_revision() == b.spec_revision(),
        valid_size(s),
        a.num_cells() == s.spec_cell_len(),
    ensures
        forall|d: int| 0 <= d < 4 ==> #[trigger] rel_at(a, s, p, d) == rel_at(b, s, p, d),
{
    crate::side_map::lemma_cell_bound(s, p);
    assert forall|d: int| 0 <= d < 4 implies #[trigger] rel_at(a, s, p, d) == rel_at(b, s, p, d) by {
        crate::side_map::lemma_cell_bound(s, nbr(p, d));
        lemma_same_revision_edge(a, b, cell(s, p), cell(s, nbr(p, d)));
    }
    assert(rel_at(a, s, p, 0) == rel_at(b, s, p, 0));
    assert(rel_at(a, s, p, 1) == rel_at(b, s, p, 1));
    assert(rel_at(a, s, p, 2) == rel_at(b, s, p, 2));
    assert(rel_at(a, s, p, 3) == rel_at(b, s, p, 3));
}

/// The line count rule applied to the cell `(r, c)` without a change of revision leaves
/// that cell, and those before it, with nothing more to decide.
proof fn lemma_line_nums_step(puzzle: Puzzle, start: SideMap, before: SideMap, after: SideMap, r: i32, c: i32)
    requires
        valid_size(puzzle.spec_size()),
        start.num_cells() == puzzle.spec_size().spec_cell_len(),
        start.keeps(&before),
        before.keeps(&after),
        after.spec_revision() == start.spec_revision(),
        match line_nums_choice(puzzle, before, Point(r, c)) {
            Some(e) => forall|d: int|
                0 <= d < 4 && rel_at(before, puzzle.spec_size(), Point(r, c), d) == State::<Edge>::Unknown
                    ==> #[trigger] after.knows_edge(
                    cell(puzzle.spec_size(), Point(r, c)),
                    cell(puzzle.spec_size(), nbr(Point(r, c), d)),
                    e,
                ),
            None => true,
        },
        before.spec_revision() == start.spec_revision() ==> forall|q: Point|
            puzzle.spec_size().spec_contains(q) && (q.0 < r || (q.0 == r && q.1 < c)) && line_nums_choice(puzzle, before, q)
                is Some ==> #[trigger] count_rel(before, puzzle.spec_size(), q, State::<Edge>::Unknown) == 0,
    ensures
        forall|q: Point|
            puzzle.spec_size().spec_contains(q) && (q.0 < r || (q.0 == r && q.1 < c + 1)) && line_nums_choice(puzzle, after, q)
                is Some ==> #[trigger] count_rel(after, puzzle.spec_size(), q, State::<Edge>::Unknown) == 0,
{
    let s = puzzle.spec_size();
    let p = Point(r, c);
    assert forall|q: Point|
        s.spec_contains(q) && (q.0 < r || (q.0 == r && q.1 < c + 1)) && line_nums_choice(puzzle, after, q)
            is Some implies #[trigger] count_rel(after, s, q, State::<Edge>::Unknown) == 0 by {
        lemma_same_revision_around(before, after, s, q);
        assert(rel_at(before, s, q, 0) == rel_at(after, s, q, 0));
        assert(rel_at(before, s, q, 1) == rel_at(after, s, q, 1));
        assert(rel_at(before, s, q, 2) == rel_at(after, s, q, 2));
        assert(rel_at(before, s, q, 3) == rel_at(after, s, q, 3));
        assert(line_nums_choice(puzzle, before, q) == line_nums_choice(puzzle, after, q));
        assert(count_rel(before, s, q, State::<Edge>::Unknown) == count_rel(after, s, q, State::<Edge>::Unknown));
        if q == p {
            let e = line_nums_choice(puzzle, before, p)->0;
            crate::side_map::lemma_cell_bound(s, p);
            assert forall|d: int| 0 <= d < 4 implies #[trigger] rel_at(before, s, p, d) != State::<Edge>::Unknown by {
                if rel_at(before, s, p, d) == State::<Edge>::Unknown {
                    assert(after.knows_edge(cell(s, p), cell(s, nbr(p, d)), e));
                }
            }
        }
    }
}

/// Applies the line count rule to every cell.
#[verifier::rlimit(60)]
pub fn fill_by_line_nums(puzzle: &Puzzle, side_map: &mut SideMap) -> (r: SolverResult<()>)
    requires
        puzzle.wf(),
        roomy(puzzle.spec_size()),
        old(side_map).wf(),
        old(side_map).num_cells() == puzzle.spec_size().spec_cell_len(),
    ensures
        final(side_map).wf(),
        old(side_map).keeps(&*final(side_map)),
        r is Err ==> r->Err_0 == Error::spec_invalid_board(),
        line_conflict(*old(side_map), puzzle.spec_size()) ==> r is Err,
        r is Err ==> line_conflict(*final(side_map), puzzle.spec_size()),
        r is Err ==> forall|a: Seq<bool>| !#[trigger] final(side_map).admits(a),
        r is Ok && final(side_map).spec_revision() == old(side_map).spec_revision() ==> line_nums_done(*puzzle, *final(side_map)),
        r is Ok ==> forall|p: Point|
            puzzle.spec_size().spec_contains(p) && three_lines_one_open(*old(side_map), puzzle.spec_size(), p) ==> #[trigger] count_rel(
                *final(side_map),
                puzzle.spec_size(),
                p,
                State::<Edge>::Unknown,
            ) == 0,
        forall|a: Seq<bool>|
            old(side_map).admits(a) && (forall|p: Point|
                puzzle.spec_size().spec_contains(p) ==> hint_met(*puzzle, a, p) && differing(a, puzzle.spec_size(), p) < 4)
                ==> #[trigger] final(side_map).admits(a),
{
    let ghost start = *side_map;
    proof {
        crate::theorem::lemma_same_view_refl(start);
    }
    let s = puzzle.size();
    let mut r: i32 = 0;
    while r < s.0
        invariant
            0 <= r <= s.0,
            s == puzzle.spec_size(),
            puzzle.wf(),
            ready(*side_map, s, start),
            start == *old(side_map),
            forall|a: Seq<bool>|
                start.admits(a) && (forall|p: Point| s.spec_contains(p) ==> hint_met(*puzzle, a, p) && differing(a, s, p) < 4)
                    ==> #[trigger] side_map.admits(a),
            forall|q: Point| s.spec_contains(q) && q.0 < r ==> #[trigger] count_rel(start, s, q, State::<Edge>::Conflict) == 0,
            side_map.spec_revision() == start.spec_revision() ==> forall|q: Point|
                s.spec_contains(q) && q.0 < r && line_nums_choice(*puzzle, *side_map, q) is Some ==> #[trigger] count_rel(
                    *side_map,
                    s,
                    q,
                    State::<Edge>::Unknown,
                ) == 0,
            forall|q: Point|
                s.spec_contains(q) && q.0 < r && three_lines_one_open(start, s, q) ==> #[trigger] count_rel(
                    *side_map,
                    s,
                    q,
                    State::<Edge>::Unknown,
                ) == 0,
        decreases s.0 - r,
    {
        let mut c: i32 = 0;
        while c < s.1
            invariant
                0 <= r < s.0,
                0 <= c <= s.1,
                s == puzzle.spec_size(),
                puzzle.wf(),
                ready(*side_map, s, start),
                start == *old(side_map),
                forall|a: Seq<bool>|
                    start.admits(a) && (forall|p: Point| s.spec_contains(p) ==> hint_met(*puzzle, a, p) && differing(a, s, p) < 4)
                        ==> #[trigger] side_map.admits(a),
                forall|q: Point| s.spec_contains(q) && (q.0 < r || (q.0 == r && q.1 < c)) ==> #[trigger] count_rel(
                    start,
                    s,
                    q,
                    State::<Edge>::Conflict,
                ) == 0,
                side_map.spec_revision() == start.spec_revision() ==> forall|q: Point|
                    s.spec_contains(q) && (q.0 < r || (q.0 == r && q.1 < c)) && line_nums_choice(*puzzle, *side_map, q) is Some
                        ==> #[trigger] count_rel(*side_map, s, q, State::<Edge>::Unknown) == 0,
                forall|q: Point|
                    s.spec_contains(q) && (q.0 < r || (q.0 == r && q.1 < c)) && three_lines_one_open(start, s, q) ==> #[trigger] count_rel(
                        *side_map,
                        s,
                        q,
                        State::<Edge>::Unknown,
                    ) == 0,
            decreases s.1 - c,
        {
            let ghost before = *side_map;
            let p = Point(r, c);
            proof {
                if count_rel(start, s, p, State::<Edge>::Conflict) > 0 {
                    lemma_count_conflict_keeps(start, before, s, p);
                }
            }
            let res = fill_cell_by_line_nums(puzzle, side_map, p, Ghost(start));
            proof {
                if res.is_err() {
                    assert(s.spec_contains(p) && count_rel(*side_map, s, p, State::<Edge>::Conflict) > 0);
                    lemma_count_conflict_admits_none(*side_map, s, p);
                }
                assert forall|a: Seq<bool>|
                    start.admits(a) && (forall|q: Point| s.spec_contains(q) ==> hint_met(*puzzle, a, q) && differing(a, s, q) < 4)
                        implies #[trigger] side_map.admits(a) by {
                    assert(before.admits(a));
                    assert(s.spec_contains(p));
                }
            }
            if res.is_err() {
                return res;
            }
            proof {
                if side_map.spec_revision() == start.spec_revision() {
                    lemma_line_nums_step(*puzzle, start, before, *side_map, r, c);
                }
                assert forall|q: Point|
                    s.spec_contains(q) && (q.0 < r || (q.0 == r && q.1 < c + 1)) && three_lines_one_open(start, s, q) implies #[trigger] count_rel(
                        *side_map,
                        s,
                        q,
                        State::<Edge>::Unknown,
                    ) == 0 by {
                    if q == p {
                        lemma_three_lines_step(*puzzle, start, before, *side_map, p);
                    } else {
                        lemma_no_open_keeps(before, *side_map, s, q);
                    }
                }
            }
            c = c + 1;
        }
        r = r + 1;
    }
    proof {
        assert forall|q: Point| s.spec_contains(q) implies #[trigger] count_rel(start, s, q, State::<Edge>::Conflict) == 0 by {
            assert(q.0 < r);
        }
    }
    Ok(())
}

/// The point `(dr, dc)` away from `p`, turned by `rot`.
pub open spec fn turned(p: Point, rot: Rotation, dr: int, dc: int) -> Point {
    Point(
        (p.0 + rot.entries().0 * dr + rot.entries().1 * dc) as i32,
        (p.1 + rot.entries().2 * dr + rot.entries().3 * dc) as i32,
    )
}

/// `rot` is one of the four quarter turns.
pub open spec fn quarter(rot: Rotation) -> bool {
    let e = rot.entries();
    e == (1int, 0int, 0int, 1int) || e == (0int, -1int, 1int, 0int) || e == (-1int, 0int, 0int, -1int) || e == (
        0int,
        1int,
        -1int,
        0int,
    )
}

/// The cells `x`, `y`, `z`, `w` around a lattice point, `x` facing `z` and `y` facing
/// `w` across it, are not split like a checkerboard by the cell sides `a`: at most two
/// lines meet at the point.
pub open spec fn vertex_ok(a: Seq<bool>, s: Size, x: Point, y: Point, z: Point, w: Point) -> bool {
    !(a[cell(s, x) as int] == a[cell(s, z) as int] && a[cell(s, y) as int] == a[cell(s, w) as int] && a[cell(s, x) as int]
        != a[cell(s, y) as int])
}

/// At most two lines meet at the lattice point below and to the right of `q`.
pub open spec fn corner_ok(a: Seq<bool>, s: Size, q: Point) -> bool {
    vertex_ok(
        a,
        s,
        q,
        Point(q.0, (q.1 + 1) as i32),
        Point((q.0 + 1) as i32, (q.1 + 1) as i32),
        Point((q.0 + 1) as i32, q.1),
    )
}

/// The local conditions that the cell sides of every solution meet: each hint counts the
/// lines around its cell, and no lattice point has four lines.
pub open spec fn locally_consistent(puzzle: Puzzle, a: Seq<bool>) -> bool {
    &&& forall|p: Point| #[trigger] hint_met(puzzle, a, p)
    &&& forall|q: Point| #[trigger] corner_ok(a, puzzle.spec_size(), q)
}

/// The cells around `p` turned by a quarter turn are its four neighbours in another
/// order, so they count the same lines.
proof fn lemma_turned_differing(a: Seq<bool>, s: Size, p: Point, rot: Rotation)
    requires
        quarter(rot),
        roomy(s),
        near(s, p, 3),
    ensures
        differing(a, s, p) == ind(a[cell(s, p) as int] != a[cell(s, turned(p, rot, -1, 0)) as int]) + ind(
            a[cell(s, p) as int] != a[cell(s, turned(p, rot, 0, 1)) as int],
        ) + ind(a[cell(s, p) as int] != a[cell(s, turned(p, rot, 1, 0)) as int]) + ind(
            a[cell(s, p) as int] != a[cell(s, turned(p, rot, 0, -1)) as int],
        ),
{
    let e = rot.entries();
    if e == (1int, 0int, 0int, 1int) {
        assert(turned(p, rot, -1, 0) == nbr(p, 0));
        assert(turned(p, rot, 0, 1) == nbr(p, 1));
        assert(turned(p, rot, 1, 0) == nbr(p, 2));
        assert(turned(p, rot, 0, -1) == nbr(p, 3));
    } else if e == (0int, -1int, 1int, 0int) {
        assert(turned(p, rot, -1, 0) == nbr(p, 3));
        assert(turned(p, rot, 0, 1) == nbr(p, 0));
        assert(turned(p, rot, 1, 0) == nbr(p, 1));
        assert(turned(p, rot, 0, -1) == nbr(p, 2));
    } else if e == (-1int, 0int, 0int, -1int) {
        assert(turned(p, rot, -1, 0) == nbr(p, 2));
        assert(turned(p, rot, 0, 1) == nbr(p, 3));
        assert(turned(p, rot, 1, 0) == nbr(p, 0));
        assert(turned(p, rot, 0, -1) == nbr(p, 1));
    } else {
        assert(turned(p, rot, -1, 0) == nbr(p, 1));
        assert(turned(p, rot, 0, 1) == nbr(p, 2));
        assert(turned(p, rot, 1, 0) == nbr(p, 3));
        assert(turned(p, rot, 0, -1) == nbr(p, 0));
    }
}

/// The four cells around a corner of `p`, turned by a quarter turn, are those around a
/// lattice point of the grid, so no checkerboard splits them.
proof fn lemma_turned_vertex(a: Seq<bool>, s: Size, p: Point, rot: Rotation, dr: int, dc: int)
    requires
        quarter(rot),
        roomy(s),
        near(s, p, 3),
        dr == 1 || dr == -1,
        dc == 1 || dc == -1,
        forall|q: Point| #[trigger] corner_ok(a, s, q),
    ensures
        vertex_ok(a, s, p, turned(p, rot, dr, 0), turned(p, rot, dr, dc), turned(p, rot, 0, dc)),
{
    let x = turned(p, rot, dr, 0);
    let z = turned(p, rot, dr, dc);
    let y = turned(p, rot, 0, dc);
    let r0: int = if z.0 < p.0 { z.0 as int } else { p.0 as int };
    let c0: int = if z.1 < p.1 { z.1 as int } else { p.1 as int };
    let q = Point(r0 as i32, c0 as i32);
    assert(corner_ok(a, s, q));
}

/// The number of lines from `p` to its four neighbours turned by `rot` under the cell
/// sides `a`.
pub open spec fn turned_count(a: Seq<bool>, s: Size, p: Point, rot: Rotation) -> int {
    ind(a[cell(s, p) as int] != a[cell(s, turned(p, rot, -1, 0)) as int]) + ind(
        a[cell(s, p) as int] != a[cell(s, turned(p, rot, 0, 1)) as int],
    ) + ind(a[cell(s, p) as int] != a[cell(s, turned(p, rot, 1, 0)) as int]) + ind(
        a[cell(s, p) as int] != a[cell(s, turned(p, rot, 0, -1)) as int],
    )
}

/// Under locally consistent cell sides, a hint counts the lines to the turned neighbours
/// of its cell.
proof fn lemma_turned_hint(puzzle: Puzzle, a: Seq<bool>, p: Point, rot: Rotation)
    requires
        puzzle.wf(),
        roomy(puzzle.spec_size()),
        near(puzzle.spec_size(), p, 3),
        quarter(rot),
        locally_consistent(puzzle, a),
    ensures
        puzzle.hint_at(p) matches Some(x) ==> turned_count(a, puzzle.spec_size(), p, rot) == x,
{
    lemma_turned_differing(a, puzzle.spec_size(), p, rot);
    assert(hint_met(puzzle, a, p));
}

/// Cell sides that `start` admits and that meet the local conditions of `puzzle`.
pub open spec fn admissible(start: SideMap, puzzle: Puzzle, a: Seq<bool>) -> bool {
    start.admits(a) && locally_consistent(puzzle, a)
}

/// `sm` still admits every assignment of cell sides admissible from `start`.
pub open spec fn sound_from(sm: SideMap, start: SideMap, puzzle: Puzzle) -> bool {
    forall|a: Seq<bool>| #[trigger] admissible(start, puzzle, a) ==> sm.admits(a)
}

/// The edge between the cells at `p` and `q` is in conflict.
pub open spec fn conflicting(sm: SideMap, s: Size, p: Point, q: Point) -> bool {
    sm.edge_state(cell(s, p), cell(s, q)) == State::<Edge>::Conflict
}

/// A pair that the corner patterns around `p` turned by `rot` read is in conflict: the
/// neighbour above against the one to the right, and against the two above it on the
/// sides.
pub open spec fn turn_conflict(sm: SideMap, s: Size, p: Point, rot: Rotation) -> bool {
    ||| conflicting(sm, s, turned(p, rot, -1, 0), turned(p, rot, 0, 1))
    ||| conflicting(sm, s, turned(p, rot, -1, 0), turned(p, rot, -1, 1))
    ||| conflicting(sm, s, turned(p, rot, -1, 0), turned(p, rot, -1, -1))
}

/// The neighbours above and below `p`, turned by `rot`, are in conflict.
pub open spec fn across_conflict(sm: SideMap, s: Size, p: Point, rot: Rotation) -> bool {
    conflicting(sm, s, turned(p, rot, -1, 0), turned(p, rot, 1, 0))
}

/// `rot` is one of the first two quarter turns, which the patterns across a cell use.
pub open spec fn half_turn_set(rot: Rotation) -> bool {
    rot.entries() == (1int, 0int, 0int, 1int) || rot.entries() == (0int, -1int, 1int, 0int)
}

/// Some pair that the relation patterns around `p` read is in conflict.
pub open spec fn cell_conflict(sm: SideMap, s: Size, p: Point) -> bool {
    ||| exists|rot: Rotation| quarter(rot) && #[trigger] turn_conflict(sm, s, p, rot)
    ||| exists|rot: Rotation| half_turn_set(rot) && #[trigger] across_conflict(sm, s, p, rot)
}

/// Some pair that the relation patterns around a cell of the grid read is in conflict.
pub open spec fn relation_conflict(sm: SideMap, s: Size) -> bool {
    exists|p: Point| s.spec_contains(p) && #[trigger] cell_conflict(sm, s, p)
}

/// Some edge around a cell of the grid is in conflict.
pub open spec fn line_conflict(sm: SideMap, s: Size) -> bool {
    exists|p: Point| s.spec_contains(p) && #[trigger] count_rel(sm, s, p, State::<Edge>::Conflict) > 0
}

/// An edge in conflict stays in conflict in a map that keeps the first.
proof fn lemma_keeps_conflict(a: SideMap, b: SideMap, c0: nat, c1: nat)
    requires
        a.keeps(&b),
        c0 < a.num_cells(),
        c1 < a.num_cells(),
        a.edge_state(c0, c1) == State::<Edge>::Conflict,
    ensures
        b.edge_state(c0, c1) == State::<Edge>::Conflict,
{
}

/// A map with a conflict among the pairs the relation patterns read admits no cell sides.
proof fn lemma_cell_conflict_admits_none(sm: SideMap, s: Size, p: Point)
    requires
        valid_size(s),
        sm.num_cells() == s.spec_cell_len(),
        cell_conflict(sm, s, p),
    ensures
        forall|a: Seq<bool>| !#[trigger] sm.admits(a),
{
    if exists|rot: Rotation| quarter(rot) && #[trigger] turn_conflict(sm, s, p, rot) {
        let rot = choose|rot: Rotation| quarter(rot) && #[trigger] turn_conflict(sm, s, p, rot);
        let u = turned(p, rot, -1, 0);
        if conflicting(sm, s, u, turned(p, rot, 0, 1)) {
            lemma_conflicting_admits_none(sm, s, u, turned(p, rot, 0, 1));
        } else if conflicting(sm, s, u, turned(p, rot, -1, 1)) {
            lemma_conflicting_admits_none(sm, s, u, turned(p, rot, -1, 1));
        } else {
            lemma_conflicting_admits_none(sm, s, u, turned(p, rot, -1, -1));
        }
    } else {
        let rot = choose|rot: Rotation| half_turn_set(rot) && #[trigger] across_conflict(sm, s, p, rot);
        lemma_conflicting_admits_none(sm, s, turned(p, rot, -1, 0), turned(p, rot, 1, 0));
    }
}

/// An edge around `p` in conflict stays so in a map that keeps the first.
proof fn lemma_count_conflict_keeps(a: SideMap, b: SideMap, s: Size, p: Point)
    requires
        valid_size(s),
        a.num_cells() == s.spec_cell_len(),
        a.keeps(&b),
        count_rel(a, s, p, State::<Edge>::Conflict) > 0,
    ensures
        count_rel(b, s, p, State::<Edge>::Conflict) > 0,
{
    crate::side_map::lemma_cell_bound(s, p);
    let d = if rel_at(a, s, p, 0) == State::<Edge>::Conflict {
        0int
    } else if rel_at(a, s, p, 1) == State::<Edge>::Conflict {
        1int
    } else if rel_at(a, s, p, 2) == State::<Edge>::Conflict {
        2int
    } else {
        3int
    };
    crate::side_map::lemma_cell_bound(s, nbr(p, d));
    lemma_keeps_conflict(a, b, cell(s, p), cell(s, nbr(p, d)));
}

/// A map with an edge in conflict around `p` admits no cell sides.
proof fn lemma_count_conflict_admits_none(sm: SideMap, s: Size, p: Point)
    requires
        valid_size(s),
        sm.num_cells() == s.spec_cell_len(),
        count_rel(sm, s, p, State::<Edge>::Conflict) > 0,
    ensures
        forall|a: Seq<bool>| !#[trigger] sm.admits(a),
{
    let d = if rel_at(sm, s, p, 0) == State::<Edge>::Conflict {
        0int
    } else if rel_at(sm, s, p, 1) == State::<Edge>::Conflict {
        1int
    } else if rel_at(sm, s, p, 2) == State::<Edge>::Conflict {
        2int
    } else {
        3int
    };
    lemma_conflicting_admits_none(sm, s, p, nbr(p, d));
}

/// Conflicts that the deductions read stay in a map that keeps the first.
proof fn lemma_conflicts_keep(a: SideMap, b: SideMap, s: Size)
    requires
        valid_size(s),
        a.num_cells() == s.spec_cell_len(),
        a.keeps(&b),
    ensures
        line_conflict(a, s) ==> line_conflict(b, s),
        relation_conflict(a, s) ==> relation_conflict(b, s),
{
    if line_conflict(a, s) {
        let p = choose|p: Point| s.spec_contains(p) && #[trigger] count_rel(a, s, p, State::<Edge>::Conflict) > 0;
        lemma_count_conflict_keeps(a, b, s, p);
    }
    if relation_conflict(a, s) {
        let p = choose|p: Point| s.spec_contains(p) && #[trigger] cell_conflict(a, s, p);
        if exists|rot: Rotation| quarter(rot) && #[trigger] turn_conflict(a, s, p, rot) {
            let rot = choose|rot: Rotation| quarter(rot) && #[trigger] turn_conflict(a, s, p, rot);
            let u = turned(p, rot, -1, 0);
            crate::side_map::lemma_cell_bound(s, u);
            crate::side_map::lemma_cell_bound(s, turned(p, rot, 0, 1));
            crate::side_map::lemma_cell_bound(s, turned(p, rot, -1, 1));
            crate::side_map::lemma_cell_bound(s, turned(p, rot, -1, -1));
            if conflicting(a, s, u, turned(p, rot, 0, 1)) {
                lemma_keeps_conflict(a, b, cell(s, u), cell(s, turned(p, rot, 0, 1)));
            } else if conflicting(a, s, u, turned(p, rot, -1, 1)) {
                lemma_keeps_conflict(a, b, cell(s, u), cell(s, turned(p, rot, -1, 1)));
            } else {
                lemma_keeps_conflict(a, b, cell(s, u), cell(s, turned(p, rot, -1, -1)));
            }
            assert(turn_conflict(b, s, p, rot));
            assert(cell_conflict(b, s, p));
        } else {
            let rot = choose|rot: Rotation| half_turn_set(rot) && #[trigger] across_conflict(a, s, p, rot);
            crate::side_map::lemma_cell_bound(s, turned(p, rot, -1, 0));
            crate::side_map::lemma_cell_bound(s, turned(p, rot, 1, 0));
            lemma_keeps_conflict(a, b, cell(s, turned(p, rot, -1, 0)), cell(s, turned(p, rot, 1, 0)));
            assert(across_conflict(b, s, p, rot));
            assert(cell_conflict(b, s, p));
        }
    }
}

/// A map with a pair of cells in conflict admits no cell sides.
proof fn lemma_conflicting_admits_none(sm: SideMap, s: Size, p: Point, q: Point)
    requires
        valid_size(s),
        sm.num_cells() == s.spec_cell_len(),
        conflicting(sm, s, p, q),
    ensures
        forall|a: Seq<bool>| !#[trigger] sm.admits(a),
{
    crate::side_map::lemma_cell_bound(s, p);
    crate::side_map::lemma_cell_bound(s, q);
    assert forall|a: Seq<bool>| !#[trigger] sm.admits(a) by {
        crate::side_map::lemma_conflict_admits_none(sm, a, cell(s, p), cell(s, q));
    }
}

/// What is known of the edge between the cells at `p` and `q`, which every admissible
/// assignment of cell sides agrees with.
fn known(sm: &mut SideMap, s: Size, p: Point, q: Point, Ghost(start): Ghost<SideMap>, Ghost(pz): Ghost<Puzzle>) -> (r: State<
    Edge,
>)
    requires
        ready(*old(sm), s, start),
        sound_from(*old(sm), start, pz),
    ensures
        forall|x: SideMap| #[trigger] x.keeps(&*old(sm)) ==> x.keeps(&*final(sm)),
        ready(*final(sm), s, start),
        sound_from(*final(sm), start, pz),
        final(sm).same_view(*old(sm)),
        r == old(sm).edge_state(cell(s, p), cell(s, q)),
        forall|a: Seq<bool>| #[trigger]
            admissible(start, pz, a) ==> (r == State::Fixed(Edge::Line) ==> a[cell(s, p) as int] != a[cell(s, q) as int])
                && (r == State::Fixed(Edge::Cross) ==> a[cell(s, p) as int] == a[cell(s, q) as int]),
{
    let ghost m0 = *sm;
    let r = rel(sm, s, p, q, Ghost(start));
    proof {
        crate::side_map::lemma_cell_bound(s, p);
        crate::side_map::lemma_cell_bound(s, q);
        assert forall|a: Seq<bool>| #[trigger] admissible(start, pz, a) implies sm.admits(a) && (r == State::Fixed(
            Edge::Line,
        ) ==> a[cell(s, p) as int] != a[cell(s, q) as int]) && (r == State::Fixed(Edge::Cross) ==> a[cell(s, p) as int]
            == a[cell(s, q) as int]) by {
            crate::side_map::lemma_same_view_admits(m0, *sm, a);
            crate::side_map::lemma_edge_admitted(m0, a, cell(s, p), cell(s, q));
        }
    }
    r
}

/// Whether a line is known between the cells at `p` and `q`.
fn known_line(sm: &mut SideMap, s: Size, p: Point, q: Point, Ghost(start): Ghost<SideMap>, Ghost(pz): Ghost<Puzzle>) -> (r: bool)
    requires
        ready(*old(sm), s, start),
        sound_from(*old(sm), start, pz),
    ensures
        ready(*final(sm), s, start),
        sound_from(*final(sm), start, pz),
        final(sm).same_view(*old(sm)),
        r == (old(sm).edge_state(cell(s, p), cell(s, q)) == State::Fixed(Edge::Line)),
        forall|a: Seq<bool>| #[trigger] admissible(start, pz, a) ==> r ==> a[cell(s, p) as int] != a[cell(s, q) as int],
{
    match known(sm, s, p, q, Ghost(start), Ghost(pz)) {
        State::Fixed(Edge::Line) => true,
        _ => false,
    }
}

/// Records a cross between the cells at `p` and `q`, where every admissible assignment
/// has one.
fn same_sound(sm: &mut SideMap, s: Size, p: Point, q: Point, Ghost(start): Ghost<SideMap>, Ghost(pz): Ghost<Puzzle>)
    requires
        ready(*old(sm), s, start),
        sound_from(*old(sm), start, pz),
        forall|a: Seq<bool>| #[trigger] admissible(start, pz, a) ==> a[cell(s, p) as int] == a[cell(s, q) as int],
    ensures
        forall|x: SideMap| #[trigger] x.keeps(&*old(sm)) ==> x.keeps(&*final(sm)),
        ready(*final(sm), s, start),
        sound_from(*final(sm), start, pz),
        old(sm).keeps(&*final(sm)),
        final(sm).knows_edge(cell(s, p), cell(s, q), Edge::Cross),
{
    let ghost m0 = *sm;
    same(sm, s, p, q, Ghost(start));
    proof {
        assert forall|x: SideMap| #[trigger] x.keeps(&m0) implies x.keeps(&*sm) by {
            x.lemma_keeps_transitive(&m0, &*sm);
        }
    }
}

/// Records a line between the cells at `p` and `q`, where every admissible assignment
/// has one.
fn different_sound(sm: &mut SideMap, s: Size, p: Point, q: Point, Ghost(start): Ghost<SideMap>, Ghost(pz): Ghost<Puzzle>)
    requires
        ready(*old(sm), s, start),
        sound_from(*old(sm), start, pz),
        forall|a: Seq<bool>| #[trigger] admissible(start, pz, a) ==> a[cell(s, p) as int] != a[cell(s, q) as int],
    ensures
        forall|x: SideMap| #[trigger] x.keeps(&*old(sm)) ==> x.keeps(&*final(sm)),
        ready(*final(sm), s, start),
        sound_from(*final(sm), start, pz),
        old(sm).keeps(&*final(sm)),
        final(sm).knows_edge(cell(s, p), cell(s, q), Edge::Line),
{
    let ghost m0 = *sm;
    different(sm, s, p, q, Ghost(start));
    proof {
        assert forall|x: SideMap| #[trigger] x.keeps(&m0) implies x.keeps(&*sm) by {
            x.lemma_keeps_transitive(&m0, &*sm);
        }
    }
}

/// Patterns of known relations around a cell, with its hint, turned every way: lines
/// that meet at a corner, and what a hint forces when two of its neighbours are known
/// to be on the same side or on different sides. Fails on a relation in conflict. Every
/// assignment of cell sides that meets the hints and puts no four lines at a lattice
/// point stays admitted.
#[verifier::rlimit(40)]
pub fn fill_by_relation(puzzle: &Puzzle, side_map: &mut SideMap) -> (r: SolverResult<()>)
    requires
        puzzle.wf(),
        roomy(puzzle.spec_size()),
        old(side_map).wf(),
        old(side_map).num_cells() == puzzle.spec_size().spec_cell_len(),
    ensures
        final(side_map).wf(),
        old(side_map).keeps(&*final(side_map)),
        r is Err ==> r->Err_0 == Error::spec_invalid_board(),
        forall|a: Seq<bool>|
            old(side_map).admits(a) && locally_consistent(*puzzle, a) ==> #[trigger] final(side_map).admits(a),
        relation_conflict(*old(side_map), puzzle.spec_size()) ==> r is Err,
        r is Err ==> relation_conflict(*final(side_map), puzzle.spec_size()),
        r is Err ==> forall|a: Seq<bool>| !#[trigger] final(side_map).admits(a),
        r is Ok ==> forall|p: Point, rot: Rotation|
            puzzle.spec_size().spec_contains(p) && half_turn_set(rot) ==> #[trigger] across_deduced(
                *old(side_map),
                *final(side_map),
                *puzzle,
                p,
                rot,
            ),
        r is Ok ==> all_turn_deduced(*old(side_map), *final(side_map), *puzzle),
{
    let ghost start = *side_map;
    proof {
        crate::theorem::lemma_same_view_refl(start);
    }
    let s = puzzle.size();
    let mut r: i32 = 0;
    while r < s.0
        invariant
            0 <= r <= s.0,
            s == puzzle.spec_size(),
            puzzle.wf(),
            ready(*side_map, s, start),
            sound_from(*side_map, start, *puzzle),
            start == *old(side_map),
            forall|q: Point| s.spec_contains(q) && q.0 < r ==> !#[trigger] cell_conflict(start, s, q),
            forall|q: Point, rot: Rotation|
                s.spec_contains(q) && q.0 < r && half_turn_set(rot) ==> #[trigger] across_deduced(start, *side_map, *puzzle, q, rot),
            forall|q: Point, rot: Rotation|
                s.spec_contains(q) && q.0 < r && quarter(rot) ==> #[trigger] turn_deduced(start, *side_map, *puzzle, q, rot),
        decreases s.0 - r,
    {
        let mut c: i32 = 0;
        while c < s.1
            invariant
                0 <= r < s.0,
                0 <= c <= s.1,
                s == puzzle.spec_size(),
                puzzle.wf(),
                ready(*side_map, s, start),
                sound_from(*side_map, start, *puzzle),
                start == *old(side_map),
                forall|q: Point| s.spec_contains(q) && (q.0 < r || (q.0 == r && q.1 < c)) ==> !#[trigger] cell_conflict(start, s, q),
                forall|q: Point, rot: Rotation|
                    s.spec_contains(q) && (q.0 < r || (q.0 == r && q.1 < c)) && half_turn_set(rot) ==> #[trigger] across_deduced(
                        start,
                        *side_map,
                        *puzzle,
                        q,
                        rot,
                    ),
                forall|q: Point, rot: Rotation|
                    s.spec_contains(q) && (q.0 < r || (q.0 == r && q.1 < c)) && quarter(rot) ==> #[trigger] turn_deduced(
                        start,
                        *side_map,
                        *puzzle,
                        q,
                        rot,
                    ),
            decreases s.1 - c,
        {
            let p = Point(r, c);
            let ghost before = *side_map;
            let res = relation_at_cell(puzzle, side_map, p, Ghost(start));
            proof {
                if res.is_ok() {
                    assert(start.keeps(&start));
                    assert forall|q: Point, rot: Rotation|
                        s.spec_contains(q) && (q.0 < r || (q.0 == r && q.1 < c + 1)) && half_turn_set(rot) implies #[trigger] across_deduced(
                            start,
                            *side_map,
                            *puzzle,
                            q,
                            rot,
                        ) by {
                        if q != p {
                            assert(!cell_conflict(start, s, q));
                            assert(!across_conflict(start, s, q, rot));
                            lemma_across_lift(start, start, before, *side_map, *puzzle, q, rot);
                        }
                    }
                    assert forall|q: Point, rot: Rotation|
                        s.spec_contains(q) && (q.0 < r || (q.0 == r && q.1 < c + 1)) && quarter(rot) implies #[trigger] turn_deduced(
                            start,
                            *side_map,
                            *puzzle,
                            q,
                            rot,
                        ) by {
                        if q != p {
                            assert(!cell_conflict(start, s, q));
                            assert(!turn_conflict(start, s, q, rot));
                            lemma_turn_lift(start, start, before, *side_map, *puzzle, q, rot);
                        }
                    }
                }
            }
            if res.is_err() {
                proof {
                    assert forall|a: Seq<bool>|
                        start.admits(a) && locally_consistent(*puzzle, a) implies #[trigger] side_map.admits(a) by {
                        assert(admissible(start, *puzzle, a));
                    }
                    assert(s.spec_contains(p) && cell_conflict(*side_map, s, p));
                    lemma_cell_conflict_admits_none(*side_map, s, p);
                }
                return res;
            }
            c = c + 1;
        }
        r = r + 1;
    }
    proof {
        assert forall|a: Seq<bool>| start.admits(a) && locally_consistent(*puzzle, a) implies #[trigger] side_map.admits(a) by {
            assert(admissible(start, *puzzle, a));
        }
        assert forall|q: Point| s.spec_contains(q) implies !#[trigger] cell_conflict(start, s, q) by {
            assert(q.0 < r);
        }
    }
    Ok(())
}

/// The relation patterns around the cell `p`.
fn relation_at_cell(puzzle: &Puzzle, side_map: &mut SideMap, p: Point, Ghost(start): Ghost<SideMap>) -> (r: SolverResult<()>)
    requires
        puzzle.wf(),
        ready(*old(side_map), puzzle.spec_size(), start),
        sound_from(*old(side_map), start, *puzzle),
        near(puzzle.spec_size(), p, 0),
    ensures
        ready(*final(side_map), puzzle.spec_size(), start),
        sound_from(*final(side_map), start, *puzzle),
        r is Err ==> r->Err_0 == Error::spec_invalid_board(),
        old(side_map).keeps(&*final(side_map)),
        cell_conflict(start, puzzle.spec_size(), p) ==> r is Err,
        r is Err ==> cell_conflict(*final(side_map), puzzle.spec_size(), p),
        r is Ok ==> forall|rot: Rotation| half_turn_set(rot) ==> #[trigger] across_deduced(start, *final(side_map), *puzzle, p, rot),
        r is Ok ==> forall|rot: Rotation| quarter(rot) ==> #[trigger] turn_deduced(start, *final(side_map), *puzzle, p, rot),
{
    proof {
        assert(old(side_map).keeps(&*old(side_map)));
    }
    let turns = quarter_turns();
    let mut t: usize = 0;
    while t < 4
        invariant
            t <= 4,
            puzzle.wf(),
            near(puzzle.spec_size(), p, 0),
            ready(*side_map, puzzle.spec_size(), start),
            sound_from(*side_map, start, *puzzle),
            forall|i: int| 0 <= i < 4 ==> quarter(#[trigger] turns@[i]),
            turns@[0].entries() == (1int, 0int, 0int, 1int),
            turns@[1].entries() == (0int, -1int, 1int, 0int),
            turns@[2].entries() == (-1int, 0int, 0int, -1int),
            turns@[3].entries() == (0int, 1int, -1int, 0int),
            forall|i: int| 0 <= i < t ==> !turn_conflict(start, puzzle.spec_size(), p, #[trigger] turns@[i]),
            old(side_map).keeps(&*side_map),
            forall|i: int| 0 <= i < t ==> turn_deduced(start, *side_map, *puzzle, p, #[trigger] turns@[i]),
        decreases 4 - t,
    {
        let ghost mt = *side_map;
        let res_t = relation_turned(puzzle, side_map, p, turns[t], Ghost(start));
        proof {
            old(side_map).lemma_keeps_transitive(&mt, &*side_map);
        }
        match res_t {
            Ok(()) => {
                proof {
                    assert(start.keeps(&start));
                    assert forall|i: int| 0 <= i < t + 1 implies turn_deduced(start, *side_map, *puzzle, p, #[trigger] turns@[i]) by {
                        if i < t {
                            assert(!turn_conflict(start, puzzle.spec_size(), p, turns@[i]));
                            lemma_turn_lift(start, start, mt, *side_map, *puzzle, p, turns@[i]);
                        }
                    }
                }
            },
            Err(e) => {
                proof {
                    assert(quarter(turns@[t as int]) && turn_conflict(*side_map, puzzle.spec_size(), p, turns@[t as int]));
                }
                return Err(e);
            },
        }
        t = t + 1;
    }
    let mut t: usize = 0;
    while t < 2
        invariant
            t <= 2,
            puzzle.wf(),
            near(puzzle.spec_size(), p, 0),
            ready(*side_map, puzzle.spec_size(), start),
            sound_from(*side_map, start, *puzzle),
            forall|i: int| 0 <= i < 4 ==> quarter(#[trigger] turns@[i]),
            turns@[0].entries() == (1int, 0int, 0int, 1int),
            turns@[1].entries() == (0int, -1int, 1int, 0int),
            turns@[2].entries() == (-1int, 0int, 0int, -1int),
            turns@[3].entries() == (0int, 1int, -1int, 0int),
            forall|i: int| 0 <= i < 4 ==> !turn_conflict(start, puzzle.spec_size(), p, #[trigger] turns@[i]),
            forall|i: int| 0 <= i < t ==> !across_conflict(start, puzzle.spec_size(), p, #[trigger] turns@[i]),
            forall|i: int| 0 <= i < t ==> across_deduced(start, *side_map, *puzzle, p, #[trigger] turns@[i]),
            old(side_map).keeps(&*side_map),
            forall|i: int| 0 <= i < 4 ==> turn_deduced(start, *side_map, *puzzle, p, #[trigger] turns@[i]),
        decreases 2 - t,
    {
        let ghost m = *side_map;
        proof {
            let s = puzzle.spec_size();
            let rt = turns@[t as int];
            crate::side_map::lemma_cell_bound(s, turned(p, rt, -1, 0));
            crate::side_map::lemma_cell_bound(s, turned(p, rt, 1, 0));
            if across_conflict(start, s, p, rt) {
                lemma_keeps_conflict(start, m, cell(s, turned(p, rt, -1, 0)), cell(s, turned(p, rt, 1, 0)));
            }
        }
        let res_a = relation_across(puzzle, side_map, p, turns[t], Ghost(start));
        proof {
            old(side_map).lemma_keeps_transitive(&m, &*side_map);
        }
        match res_a {
            Ok(()) => {
                proof {
                    let s = puzzle.spec_size();
                    assert(start.keeps(&start));
                    assert(side_map.keeps(&*side_map));
                    lemma_across_lift(start, m, *side_map, *side_map, *puzzle, p, turns@[t as int]);
                    assert forall|i: int| 0 <= i < 4 implies turn_deduced(start, *side_map, *puzzle, p, #[trigger] turns@[i]) by {
                        assert(!turn_conflict(start, puzzle.spec_size(), p, turns@[i]));
                        lemma_turn_lift(start, start, m, *side_map, *puzzle, p, turns@[i]);
                    }
                    assert forall|i: int| 0 <= i < t + 1 implies across_deduced(start, *side_map, *puzzle, p, #[trigger] turns@[i]) by {
                        if i < t {
                            lemma_across_lift(start, start, m, *side_map, *puzzle, p, turns@[i]);
                        }
                    }
                }
            },
            Err(e) => {
                proof {
                    assert(half_turn_set(turns@[t as int]) && across_conflict(*side_map, puzzle.spec_size(), p, turns@[t as int]));
                }
                return Err(e);
            },
        }
        t = t + 1;
    }
    proof {
        let s = puzzle.spec_size();
        assert forall|rot: Rotation| quarter(rot) implies !#[trigger] turn_conflict(start, s, p, rot) by {
            if rot.entries() == turns@[0].entries() {
                assert(!turn_conflict(start, s, p, turns@[0]));
            } else if rot.entries() == turns@[1].entries() {
                assert(!turn_conflict(start, s, p, turns@[1]));
            } else if rot.entries() == turns@[2].entries() {
                assert(!turn_conflict(start, s, p, turns@[2]));
            } else {
                assert(!turn_conflict(start, s, p, turns@[3]));
            }
        }
        assert forall|rot: Rotation| half_turn_set(rot) implies !#[trigger] across_conflict(start, s, p, rot) by {
            if rot.entries() == turns@[0].entries() {
                assert(!across_conflict(start, s, p, turns@[0]));
            } else {
                assert(!across_conflict(start, s, p, turns@[1]));
            }
        }
        assert forall|rot: Rotation| quarter(rot) implies #[trigger] turn_deduced(start, *side_map, *puzzle, p, rot) by {
            if rot.entries() == turns@[0].entries() {
                assert(turn_deduced(start, *side_map, *puzzle, p, turns@[0]));
            } else if rot.entries() == turns@[1].entries() {
                assert(turn_deduced(start, *side_map, *puzzle, p, turns@[1]));
            } else if rot.entries() == turns@[2].entries() {
                assert(turn_deduced(start, *side_map, *puzzle, p, turns@[2]));
            } else {
                assert(turn_deduced(start, *side_map, *puzzle, p, turns@[3]));
            }
        }
        assert forall|rot: Rotation| half_turn_set(rot) implies #[trigger] across_deduced(start, *side_map, *puzzle, p, rot) by {
            if rot.entries() == turns@[0].entries() {
                assert(across_deduced(start, *side_map, *puzzle, p, turns@[0]));
            } else {
                assert(across_deduced(start, *side_map, *puzzle, p, turns@[1]));
            }
        }
    }
    Ok(())
}

/// The patterns around `p` turned by `rot` that look at two neighbours at a corner.
fn relation_turned(puzzle: &Puzzle, side_map: &mut SideMap, p: Point, rot: Rotation, Ghost(start): Ghost<SideMap>) -> (r: SolverResult<()>)
    requires
        puzzle.wf(),
        ready(*old(side_map), puzzle.spec_size(), start),
        sound_from(*old(side_map), start, *puzzle),
        near(puzzle.spec_size(), p, 0),
        quarter(rot),
    ensures
        ready(*final(side_map), puzzle.spec_size(), start),
        sound_from(*final(side_map), start, *puzzle),
        r is Err ==> r->Err_0 == Error::spec_invalid_board(),
        old(side_map).keeps(&*final(side_map)),
        turn_conflict(start, puzzle.spec_size(), p, rot) ==> r is Err,
        r is Err ==> turn_conflict(*final(side_map), puzzle.spec_size(), p, rot),
        r is Ok ==> corner_deduced(start, *final(side_map), *puzzle, p, rot),
        r is Ok ==> three_deduced(start, *final(side_map), *puzzle, p, rot, 1) && three_deduced(
            start,
            *final(side_map),
            *puzzle,
            p,
            rot,
            -1,
        ),
{
    let ghost s = puzzle.spec_size();
    proof {
        crate::side_map::lemma_cell_bound(s, turned(p, rot, -1, 0));
        crate::side_map::lemma_cell_bound(s, turned(p, rot, 0, 1));
        crate::side_map::lemma_cell_bound(s, turned(p, rot, -1, 1));
        crate::side_map::lemma_cell_bound(s, turned(p, rot, -1, -1));
    }
    corner_lines(puzzle, side_map, p, rot, Ghost(start));
    let ghost m1 = *side_map;
    proof {
        if conflicting(start, s, turned(p, rot, -1, 0), turned(p, rot, 0, 1)) {
            lemma_keeps_conflict(start, m1, cell(s, turned(p, rot, -1, 0)), cell(s, turned(p, rot, 0, 1)));
        }
    }
    match corner_hint(puzzle, side_map, p, rot, Ghost(start)) {
        Ok(()) => {},
        Err(e) => {
            return Err(e);
        },
    }
    let ghost m2 = *side_map;
    proof {
        if conflicting(start, s, turned(p, rot, -1, 0), turned(p, rot, -1, 1)) {
            lemma_keeps_conflict(start, m2, cell(s, turned(p, rot, -1, 0)), cell(s, turned(p, rot, -1, 1)));
        }
    }
    match corner_three(puzzle, side_map, p, rot, 1, Ghost(start)) {
        Ok(()) => {},
        Err(e) => {
            return Err(e);
        },
    }
    let ghost m3 = *side_map;
    proof {
        if conflicting(start, s, turned(p, rot, -1, 0), turned(p, rot, -1, -1)) {
            lemma_keeps_conflict(start, m3, cell(s, turned(p, rot, -1, 0)), cell(s, turned(p, rot, -1, -1)));
        }
    }
    let res = corner_three(puzzle, side_map, p, rot, -1, Ghost(start));
    proof {
        if res.is_ok() {
            m2.lemma_keeps_transitive(&m3, &*side_map);
            assert(side_map.keeps(&*side_map));
            lemma_corner_lift(start, m1, m2, *side_map, *puzzle, p, rot);
            lemma_three_lift(start, m2, m3, *side_map, *puzzle, p, rot, 1);
            lemma_three_lift(start, m3, *side_map, *side_map, *puzzle, p, rot, -1);
        }
    }
    res
}

/// Two lines from `p` that meet at its corner turned to the upper right go on straight
/// past it, and a line from that corner that leaves `p` aside keeps `p` and its right
/// neighbour together.
fn corner_lines(puzzle: &Puzzle, side_map: &mut SideMap, p: Point, rot: Rotation, Ghost(start): Ghost<SideMap>)
    requires
        puzzle.wf(),
        ready(*old(side_map), puzzle.spec_size(), start),
        sound_from(*old(side_map), start, *puzzle),
        near(puzzle.spec_size(), p, 0),
        quarter(rot),
    ensures
        ready(*final(side_map), puzzle.spec_size(), start),
        sound_from(*final(side_map), start, *puzzle),
        old(side_map).keeps(&*final(side_map)),
        ({
            let s = puzzle.spec_size();
            let (u, rt, ur) = (turned(p, rot, -1, 0), turned(p, rot, 0, 1), turned(p, rot, -1, 1));
            &&& old(side_map).edge_state(cell(s, p), cell(s, u)) == State::Fixed(Edge::Line) && old(side_map).edge_state(
                cell(s, p),
                cell(s, rt),
            ) == State::Fixed(Edge::Line) ==> final(side_map).knows_edge(cell(s, p), cell(s, ur), Edge::Line)
            &&& old(side_map).edge_state(cell(s, p), cell(s, u)) == State::Fixed(Edge::Line) && old(side_map).edge_state(
                cell(s, rt),
                cell(s, ur),
            ) == State::Fixed(Edge::Line) ==> final(side_map).knows_edge(cell(s, p), cell(s, rt), Edge::Cross)
                || conflicting(*final(side_map), s, rt, ur)
        }),
{
    let s = puzzle.size();
    let g = Ghost(start);
    let z = Ghost(*puzzle);
    let gs = Ghost(s);
    let u = at(p, rot, -1, 0, gs, Ghost(0));
    let rt = at(p, rot, 0, 1, gs, Ghost(0));
    let ur = at(p, rot, -1, 1, gs, Ghost(0));
    let ghost m0 = *side_map;
    proof {
        assert forall|a: Seq<bool>| #[trigger] admissible(start, *puzzle, a) implies vertex_ok(a, s, p, u, ur, rt) by {
            lemma_turned_vertex(a, s, p, rot, -1, 1);
        }
        crate::side_map::lemma_cell_bound(s, p);
        crate::side_map::lemma_cell_bound(s, u);
        crate::side_map::lemma_cell_bound(s, rt);
        crate::side_map::lemma_cell_bound(s, ur);
        crate::theorem::lemma_same_view_refl(m0);
        crate::theorem_pool::lemma_same_view_keeps(m0, m0);
    }
    if known_line(side_map, s, p, u, g, z) {
        let ghost m1 = *side_map;
        proof {
            crate::theorem_pool::lemma_same_view_keeps(m0, m1);
        }
        if known_line(side_map, s, p, rt, g, z) {
            let ghost m2 = *side_map;
            different_sound(side_map, s, p, ur, g, z);
            proof {
                crate::theorem_pool::lemma_same_view_keeps(m1, m2);
                m0.lemma_keeps_transitive(&m1, &m2);
                m0.lemma_keeps_transitive(&m2, &*side_map);
            }
        } else {
            proof {
                crate::theorem_pool::lemma_same_view_keeps(m1, *side_map);
                m0.lemma_keeps_transitive(&m1, &*side_map);
            }
        }
        let ghost m3 = *side_map;
        let found = known_line(side_map, s, rt, ur, g, z);
        let ghost m4 = *side_map;
        proof {
            crate::theorem_pool::lemma_same_view_keeps(m3, m4);
            m0.lemma_keeps_transitive(&m3, &m4);
            if !found && m0.edge_state(cell(s, rt), cell(s, ur)) == State::Fixed(Edge::Line) {
                assert(m0.together(crate::side_map::key0(cell(s, rt)), crate::side_map::key1(cell(s, ur))));
                assert(m3.together(crate::side_map::key0(cell(s, rt)), crate::side_map::key1(cell(s, ur))));
                assert(conflicting(m3, s, rt, ur));
            }
        }
        if found {
            same_sound(side_map, s, p, rt, g, z);
            proof {
                m0.lemma_keeps_transitive(&m4, &*side_map);
            }
        }
        proof {
            if m0.edge_state(cell(s, p), cell(s, rt)) == State::Fixed(Edge::Line) {
                lemma_keeps_knows(m3, *side_map, cell(s, p), cell(s, ur), Edge::Line);
            }
            if !found && m0.edge_state(cell(s, rt), cell(s, ur)) == State::Fixed(Edge::Line) {
                lemma_keeps_conflict(m3, *side_map, cell(s, rt), cell(s, ur));
            }
        }
    }
}

/// What the hint of `p` forces when its neighbours above and to the right, turned by
/// `rot`, are known to be together or apart.
fn corner_hint(puzzle: &Puzzle, side_map: &mut SideMap, p: Point, rot: Rotation, Ghost(start): Ghost<SideMap>) -> (r: SolverResult<()>)
    requires
        puzzle.wf(),
        ready(*old(side_map), puzzle.spec_size(), start),
        sound_from(*old(side_map), start, *puzzle),
        near(puzzle.spec_size(), p, 0),
        quarter(rot),
    ensures
        ready(*final(side_map), puzzle.spec_size(), start),
        sound_from(*final(side_map), start, *puzzle),
        r is Err ==> r->Err_0 == Error::spec_invalid_board(),
        old(side_map).keeps(&*final(side_map)),
        r is Err <==> conflicting(*old(side_map), puzzle.spec_size(), turned(p, rot, -1, 0), turned(p, rot, 0, 1)),
        r is Err ==> conflicting(*final(side_map), puzzle.spec_size(), turned(p, rot, -1, 0), turned(p, rot, 0, 1)),
        r is Ok ==> corner_deduced(*old(side_map), *final(side_map), *puzzle, p, rot),
{
    let ghost m0 = *side_map;
    proof {
        assert(old(side_map).keeps(&*old(side_map)));
    }
    let s = puzzle.size();
    let g = Ghost(start);
    let z = Ghost(*puzzle);
    let gs = Ghost(s);
    let u = at(p, rot, -1, 0, gs, Ghost(0));
    let d = at(p, rot, 1, 0, gs, Ghost(0));
    let rt = at(p, rot, 0, 1, gs, Ghost(0));
    let l = at(p, rot, 0, -1, gs, Ghost(0));
    let hint = puzzle.hint(p);
    proof {
        assert forall|a: Seq<bool>| #[trigger] admissible(start, *puzzle, a) implies (hint matches Some(x)
            ==> turned_count(a, s, p, rot) == x) by {
            lemma_turned_hint(*puzzle, a, p, rot);
        }
    }
    proof {
        crate::side_map::lemma_cell_bound(s, p);
        crate::side_map::lemma_cell_bound(s, u);
        crate::side_map::lemma_cell_bound(s, d);
        crate::side_map::lemma_cell_bound(s, rt);
        crate::side_map::lemma_cell_bound(s, l);
    }
    let st = known(side_map, s, u, rt, g, z);
    let ghost m1 = *side_map;
    match st {
        State::Fixed(Edge::Cross) => match hint {
            Some(1) => {
                same_sound(side_map, s, p, u, g, z);
                same_sound(side_map, s, p, rt, g, z);
                different_sound(side_map, s, l, d, g, z);
            },
            Some(2) => {
                same_sound(side_map, s, l, d, g, z);
                different_sound(side_map, s, u, l, g, z);
            },
            Some(3) => {
                different_sound(side_map, s, p, u, g, z);
                different_sound(side_map, s, p, rt, g, z);
                different_sound(side_map, s, l, d, g, z);
            },
            _ => {},
        },
        State::Fixed(Edge::Line) => match hint {
            Some(1) => {
                same_sound(side_map, s, p, l, g, z);
                same_sound(side_map, s, p, d, g, z);
            },
            Some(2) => {
                different_sound(side_map, s, l, d, g, z);
            },
            Some(3) => {
                different_sound(side_map, s, p, l, g, z);
                different_sound(side_map, s, p, d, g, z);
            },
            _ => {},
        },
        State::Unknown => {},
        State::Conflict => {
            return Err(Error::invalid_board());
        },
    }
    proof {
        assert(corner_deduced(m0, *side_map, *puzzle, p, rot));
    }
    Ok(())
}

/// A three at `p` and the corner turned to the upper right (`dc` is 1) or upper left
/// (`dc` is -1): a cross beyond the corner with a one beside the three, or a line
/// beyond it, decide edges around both.
fn corner_three(puzzle: &Puzzle, side_map: &mut SideMap, p: Point, rot: Rotation, dc: i32, Ghost(start): Ghost<SideMap>) -> (r:
    SolverResult<()>)
    requires
        puzzle.wf(),
        ready(*old(side_map), puzzle.spec_size(), start),
        sound_from(*old(side_map), start, *puzzle),
        near(puzzle.spec_size(), p, 0),
        quarter(rot),
        dc == 1 || dc == -1,
    ensures
        ready(*final(side_map), puzzle.spec_size(), start),
        sound_from(*final(side_map), start, *puzzle),
        r is Err ==> r->Err_0 == Error::spec_invalid_board(),
        old(side_map).keeps(&*final(side_map)),
        r is Err <==> conflicting(*old(side_map), puzzle.spec_size(), turned(p, rot, -1, 0), turned(p, rot, -1, dc as int)),
        r is Err ==> conflicting(*final(side_map), puzzle.spec_size(), turned(p, rot, -1, 0), turned(p, rot, -1, dc as int)),
        r is Ok ==> three_deduced(*old(side_map), *final(side_map), *puzzle, p, rot, dc as int),
{
    let ghost m0 = *side_map;
    proof {
        assert(old(side_map).keeps(&*old(side_map)));
    }
    let s = puzzle.size();
    let g = Ghost(start);
    let z = Ghost(*puzzle);
    let gs = Ghost(s);
    let u = at(p, rot, -1, 0, gs, Ghost(0));
    let d = at(p, rot, 1, 0, gs, Ghost(0));
    let side = at(p, rot, 0, dc, gs, Ghost(0));
    let other = at(p, rot, 0, -dc, gs, Ghost(0));
    let diag = at(p, rot, -1, dc, gs, Ghost(0));
    proof {
        assert(turned(side, rot, -1, 0) == diag);
        assert(turned(side, rot, 0, -dc as int) == p);
        assert forall|a: Seq<bool>| #[trigger] admissible(start, *puzzle, a) implies vertex_ok(a, s, p, u, diag, side)
            && (puzzle.hint_at(p) matches Some(x) ==> turned_count(a, s, p, rot) == x) && (puzzle.hint_at(side) matches Some(
            x,
        ) ==> turned_count(a, s, side, rot) == x) by {
            lemma_turned_vertex(a, s, p, rot, -1, dc as int);
            lemma_turned_hint(*puzzle, a, p, rot);
            lemma_turned_hint(*puzzle, a, side, rot);
        }
    }
    proof {
        crate::side_map::lemma_cell_bound(s, p);
        crate::side_map::lemma_cell_bound(s, u);
        crate::side_map::lemma_cell_bound(s, d);
        crate::side_map::lemma_cell_bound(s, side);
        crate::side_map::lemma_cell_bound(s, other);
        crate::side_map::lemma_cell_bound(s, diag);
        crate::side_map::lemma_cell_bound(s, turned(side, rot, 0, dc as int));
        crate::side_map::lemma_cell_bound(s, turned(side, rot, 1, 0));
    }
    match known(side_map, s, u, diag, g, z) {
        State::Fixed(Edge::Cross) => {
            if hint_is(puzzle, p, 3) && hint_is(puzzle, side, 1) {
                let beyond = at(side, rot, 0, dc, gs, Ghost(1));
                let below = at(side, rot, 1, 0, gs, Ghost(1));
                different_sound(side_map, s, p, u, g, z);
                same_sound(side_map, s, side, beyond, g, z);
                same_sound(side_map, s, side, below, g, z);
            }
        },
        State::Fixed(Edge::Line) => {
            if hint_is(puzzle, p, 3) {
                different_sound(side_map, s, p, d, g, z);
                different_sound(side_map, s, p, other, g, z);
                same_sound(side_map, s, diag, side, g, z);
            }
        },
        State::Unknown => {},
        State::Conflict => {
            return Err(Error::invalid_board());
        },
    }
    proof {
        assert(three_deduced(m0, *side_map, *puzzle, p, rot, dc as int));
    }
    Ok(())
}

/// The patterns around `p` turned by `rot` that look at two opposite neighbours.
fn relation_across(puzzle: &Puzzle, side_map: &mut SideMap, p: Point, rot: Rotation, Ghost(start): Ghost<SideMap>) -> (r: SolverResult<()>)
    requires
        puzzle.wf(),
        ready(*old(side_map), puzzle.spec_size(), start),
        sound_from(*old(side_map), start, *puzzle),
        near(puzzle.spec_size(), p, 0),
        quarter(rot),
    ensures
        ready(*final(side_map), puzzle.spec_size(), start),
        sound_from(*final(side_map), start, *puzzle),
        r is Err ==> r->Err_0 == Error::spec_invalid_board(),
        r is Err <==> conflicting(*old(side_map), puzzle.spec_size(), turned(p, rot, -1, 0), turned(p, rot, 1, 0)),
        r is Err ==> conflicting(*final(side_map), puzzle.spec_size(), turned(p, rot, -1, 0), turned(p, rot, 1, 0)),
        r is Ok ==> across_deduced(*old(side_map), *final(side_map), *puzzle, p, rot),
        old(side_map).keeps(&*final(side_map)),
{
    let ghost m0 = *side_map;
    let s = puzzle.size();
    let g = Ghost(start);
    let z = Ghost(*puzzle);
    let gs = Ghost(s);
    let u = at(p, rot, -1, 0, gs, Ghost(0));
    let d = at(p, rot, 1, 0, gs, Ghost(0));
    let rt = at(p, rot, 0, 1, gs, Ghost(0));
    let l = at(p, rot, 0, -1, gs, Ghost(0));
    let dr = at(p, rot, 1, 1, gs, Ghost(0));
    let hint = puzzle.hint(p);
    proof {
        assert forall|a: Seq<bool>| #[trigger] admissible(start, *puzzle, a) implies vertex_ok(a, s, p, d, dr, rt) && (
        hint matches Some(x) ==> turned_count(a, s, p, rot) == x) by {
            lemma_turned_vertex(a, s, p, rot, 1, 1);
            lemma_turned_hint(*puzzle, a, p, rot);
        }
    }

    proof {
        crate::side_map::lemma_cell_bound(s, p);
        crate::side_map::lemma_cell_bound(s, u);
        crate::side_map::lemma_cell_bound(s, d);
        crate::side_map::lemma_cell_bound(s, rt);
        crate::side_map::lemma_cell_bound(s, l);
        crate::theorem::lemma_same_view_refl(m0);
        crate::theorem_pool::lemma_same_view_keeps(m0, m0);
    }
    let st = known(side_map, s, u, d, g, z);
    let ghost m1 = *side_map;
    proof {
        crate::theorem_pool::lemma_same_view_keeps(m0, m1);
        crate::theorem::lemma_same_view_refl(m1);
        crate::theorem_pool::lemma_same_view_keeps(m1, m1);
    }
    match st {
        State::Fixed(Edge::Cross) => match hint {
            Some(1) => {
                same_sound(side_map, s, p, u, g, z);
                let ghost m = *side_map;
                different_sound(side_map, s, l, rt, g, z);
                proof {
                    m1.lemma_keeps_transitive(&m, &*side_map);
                    lemma_keeps_knows(m, *side_map, cell(s, p), cell(s, u), Edge::Cross);
                }
            },
            Some(2) => {
                different_sound(side_map, s, u, l, g, z);
                let ghost m = *side_map;
                same_sound(side_map, s, l, rt, g, z);
                proof {
                    m1.lemma_keeps_transitive(&m, &*side_map);
                    lemma_keeps_knows(m, *side_map, cell(s, u), cell(s, l), Edge::Line);
                }
            },
            Some(3) => {
                different_sound(side_map, s, p, u, g, z);
                let ghost m = *side_map;
                different_sound(side_map, s, l, rt, g, z);
                proof {
                    m1.lemma_keeps_transitive(&m, &*side_map);
                    lemma_keeps_knows(m, *side_map, cell(s, p), cell(s, u), Edge::Line);
                }
            },
            _ => {},
        },
        State::Fixed(Edge::Line) => match hint {
            Some(1) => {
                same_sound(side_map, s, p, l, g, z);
                let ghost m = *side_map;
                same_sound(side_map, s, p, rt, g, z);
                proof {
                    m1.lemma_keeps_transitive(&m, &*side_map);
                    lemma_keeps_knows(m, *side_map, cell(s, p), cell(s, l), Edge::Cross);
                }
            },
            Some(2) => {
                different_sound(side_map, s, l, rt, g, z);
            },
            Some(3) => {
                different_sound(side_map, s, p, l, g, z);
                let ghost m = *side_map;
                different_sound(side_map, s, p, rt, g, z);
                proof {
                    m1.lemma_keeps_transitive(&m, &*side_map);
                    lemma_keeps_knows(m, *side_map, cell(s, p), cell(s, l), Edge::Line);
                }
            },
            _ => {},
        },
        State::Unknown => {},
        State::Conflict => {
            return Err(Error::invalid_board());
        },
    }
    let ghost m2 = *side_map;
    proof {
        assert(across_deduced(m0, m2, *puzzle, p, rot));
        assert(m1.keeps(&m2));
        m0.lemma_keeps_transitive(&m1, &m2);
    }

    let from_p = known_line(side_map, s, p, rt, g, z) || known_line(side_map, s, p, d, g, z);
    if from_p {
        let from_dr = known_line(side_map, s, dr, rt, g, z) || known_line(side_map, s, dr, d, g, z);
        if from_dr {
            let ghost m3 = *side_map;
            different_sound(side_map, s, rt, d, g, z);
            proof {
                crate::theorem_pool::lemma_same_view_keeps(m2, m3);
                m2.lemma_keeps_transitive(&m3, &*side_map);
            }
        } else {
            proof {
                crate::theorem_pool::lemma_same_view_keeps(m2, *side_map);
            }
        }
    } else {
        proof {
            crate::theorem_pool::lemma_same_view_keeps(m2, *side_map);
        }
    }
    proof {
        lemma_across_lift(m0, m0, m2, *side_map, *puzzle, p, rot);
        m0.lemma_keeps_transitive(&m2, &*side_map);
    }
    Ok(())
}

/// `sm` knows the edge between the cells at `p` and `q` as `e`.
pub open spec fn knows_between(sm: SideMap, s: Size, p: Point, q: Point, e: Edge) -> bool {
    sm.knows_edge(cell(s, p), cell(s, q), e)
}

/// What the patterns across the cell `p`, turned by `rot`, deduce: where `before` knows
/// the relation of the neighbours above and below, the hint of `p` decides edges that
/// `after` knows. With a cross there: a one puts `p` with the one above and parts left
/// from right; a two parts above from left and puts left with right; a three parts `p`
/// from above and left from right. With a line there: a one puts `p` with left and right;
/// a two parts left from right; a three parts `p` from left and right.
pub open spec fn across_deduced(before: SideMap, after: SideMap, puzzle: Puzzle, p: Point, rot: Rotation) -> bool {
    let s = puzzle.spec_size();
    let u = turned(p, rot, -1, 0);
    let d = turned(p, rot, 1, 0);
    let rt = turned(p, rot, 0, 1);
    let l = turned(p, rot, 0, -1);
    let st = before.edge_state(cell(s, u), cell(s, d));
    let h = puzzle.hint_at(p);
    &&& st == State::Fixed(Edge::Cross) && h == Some(1u8) ==> knows_between(after, s, p, u, Edge::Cross) && knows_between(
        after,
        s,
        l,
        rt,
        Edge::Line,
    )
    &&& st == State::Fixed(Edge::Cross) && h == Some(2u8) ==> knows_between(after, s, u, l, Edge::Line) && knows_between(
        after,
        s,
        l,
        rt,
        Edge::Cross,
    )
    &&& st == State::Fixed(Edge::Cross) && h == Some(3u8) ==> knows_between(after, s, p, u, Edge::Line) && knows_between(
        after,
        s,
        l,
        rt,
        Edge::Line,
    )
    &&& st == State::Fixed(Edge::Line) && h == Some(1u8) ==> knows_between(after, s, p, l, Edge::Cross) && knows_between(
        after,
        s,
        p,
        rt,
        Edge::Cross,
    )
    &&& st == State::Fixed(Edge::Line) && h == Some(2u8) ==> knows_between(after, s, l, rt, Edge::Line)
    &&& st == State::Fixed(Edge::Line) && h == Some(3u8) ==> knows_between(after, s, p, l, Edge::Line) && knows_between(
        after,
        s,
        p,
        rt,
        Edge::Line,
    )
}

/// What the patterns at the corner of the cell `p` turned to the upper right deduce:
/// where `before` knows the relation of the neighbours above and to the right, the hint
/// of `p` decides edges that `after` knows. With a cross there: a one puts `p` with both
/// and parts left from below; a two puts left with below and parts above from left; a
/// three parts `p` from both and left from below. With a line there: a one puts `p` with
/// left and below; a two parts left from below; a three parts `p` from left and below.
pub open spec fn corner_deduced(before: SideMap, after: SideMap, puzzle: Puzzle, p: Point, rot: Rotation) -> bool {
    let s = puzzle.spec_size();
    let u = turned(p, rot, -1, 0);
    let d = turned(p, rot, 1, 0);
    let rt = turned(p, rot, 0, 1);
    let l = turned(p, rot, 0, -1);
    let st = before.edge_state(cell(s, u), cell(s, rt));
    let h = puzzle.hint_at(p);
    &&& st == State::Fixed(Edge::Cross) && h == Some(1u8) ==> knows_between(after, s, p, u, Edge::Cross) && knows_between(
        after,
        s,
        p,
        rt,
        Edge::Cross,
    ) && knows_between(after, s, l, d, Edge::Line)
    &&& st == State::Fixed(Edge::Cross) && h == Some(2u8) ==> knows_between(after, s, l, d, Edge::Cross) && knows_between(
        after,
        s,
        u,
        l,
        Edge::Line,
    )
    &&& st == State::Fixed(Edge::Cross) && h == Some(3u8) ==> knows_between(after, s, p, u, Edge::Line) && knows_between(
        after,
        s,
        p,
        rt,
        Edge::Line,
    ) && knows_between(after, s, l, d, Edge::Line)
    &&& st == State::Fixed(Edge::Line) && h == Some(1u8) ==> knows_between(after, s, p, l, Edge::Cross) && knows_between(
        after,
        s,
        p,
        d,
        Edge::Cross,
    )
    &&& st == State::Fixed(Edge::Line) && h == Some(2u8) ==> knows_between(after, s, l, d, Edge::Line)
    &&& st == State::Fixed(Edge::Line) && h == Some(3u8) ==> knows_between(after, s, p, l, Edge::Line) && knows_between(
        after,
        s,
        p,
        d,
        Edge::Line,
    )
}

/// What the patterns of a three at `p` deduce at its corner turned to the upper right
/// (`dc` is 1) or upper left (`dc` is -1), where `before` knows the relation of the cell
/// above and the one beyond that corner: with a cross there and a one beside the three,
/// the three is apart from the cell above and the one keeps its cells beyond and below;
/// with a line there, the three is apart from the cells below and on the other side, and
/// the cell beyond the corner is with the cell beside.
pub open spec fn three_deduced(before: SideMap, after: SideMap, puzzle: Puzzle, p: Point, rot: Rotation, dc: int) -> bool {
    let s = puzzle.spec_size();
    let u = turned(p, rot, -1, 0);
    let d = turned(p, rot, 1, 0);
    let side = turned(p, rot, 0, dc);
    let other = turned(p, rot, 0, -dc);
    let diag = turned(p, rot, -1, dc);
    let st = before.edge_state(cell(s, u), cell(s, diag));
    &&& st == State::Fixed(Edge::Cross) && puzzle.hint_at(p) == Some(3u8) && puzzle.hint_at(side) == Some(1u8)
        ==> knows_between(after, s, p, u, Edge::Line) && knows_between(after, s, side, turned(side, rot, 0, dc), Edge::Cross)
        && knows_between(after, s, side, turned(side, rot, 1, 0), Edge::Cross)
    &&& st == State::Fixed(Edge::Line) && puzzle.hint_at(p) == Some(3u8) ==> knows_between(after, s, p, d, Edge::Line)
        && knows_between(after, s, p, other, Edge::Line) && knows_between(after, s, diag, side, Edge::Cross)
}

/// The deductions of a three at a corner stay deduced from an earlier map, into a later
/// one, when the relation they read was not in conflict.
proof fn lemma_three_lift(b0: SideMap, b: SideMap, a: SideMap, a2: SideMap, puzzle: Puzzle, p: Point, rot: Rotation, dc: int)
    requires
        valid_size(puzzle.spec_size()),
        b0.num_cells() == puzzle.spec_size().spec_cell_len(),
        b0.keeps(&b),
        b.keeps(&a),
        a.keeps(&a2),
        three_deduced(b, a, puzzle, p, rot, dc),
        !conflicting(b, puzzle.spec_size(), turned(p, rot, -1, 0), turned(p, rot, -1, dc)),
    ensures
        three_deduced(b0, a2, puzzle, p, rot, dc),
{
    let s = puzzle.spec_size();
    let u = turned(p, rot, -1, 0);
    let d = turned(p, rot, 1, 0);
    let side = turned(p, rot, 0, dc);
    let other = turned(p, rot, 0, -dc);
    let diag = turned(p, rot, -1, dc);
    let beyond = turned(side, rot, 0, dc);
    let below = turned(side, rot, 1, 0);
    crate::side_map::lemma_cell_bound(s, p);
    crate::side_map::lemma_cell_bound(s, u);
    crate::side_map::lemma_cell_bound(s, d);
    crate::side_map::lemma_cell_bound(s, side);
    crate::side_map::lemma_cell_bound(s, other);
    crate::side_map::lemma_cell_bound(s, diag);
    crate::side_map::lemma_cell_bound(s, beyond);
    crate::side_map::lemma_cell_bound(s, below);
    let n = b0.num_cells();
    assert(crate::side_map::key0(cell(s, u)) < 2 * n && crate::side_map::key0(cell(s, diag)) < 2 * n && crate::side_map::key1(
        cell(s, diag),
    ) < 2 * n);
    assert(crate::side_map::key0(cell(s, p)) < 2 * n && crate::side_map::key1(cell(s, u)) < 2 * n && crate::side_map::key1(
        cell(s, d),
    ) < 2 * n && crate::side_map::key1(cell(s, other)) < 2 * n);
    assert(crate::side_map::key0(cell(s, side)) < 2 * n && crate::side_map::key0(cell(s, beyond)) < 2 * n && crate::side_map::key0(
        cell(s, below),
    ) < 2 * n && crate::side_map::key0(cell(s, diag)) < 2 * n);
}

/// What the patterns at the corners of the cell `p` turned by `rot` deduce: those of its
/// hint (see `corner_deduced`) and those of a three (see `three_deduced`), at the corner
/// to the upper right and at the one to the upper left.
pub open spec fn turn_deduced(before: SideMap, after: SideMap, puzzle: Puzzle, p: Point, rot: Rotation) -> bool {
    &&& corner_deduced(before, after, puzzle, p, rot)
    &&& three_deduced(before, after, puzzle, p, rot, 1)
    &&& three_deduced(before, after, puzzle, p, rot, -1)
}

/// The deductions at the corners of a cell stay deduced from an earlier map, into a later
/// one, when the relations they read were not in conflict.
proof fn lemma_turn_lift(b0: SideMap, b: SideMap, a: SideMap, a2: SideMap, puzzle: Puzzle, p: Point, rot: Rotation)
    requires
        valid_size(puzzle.spec_size()),
        b0.num_cells() == puzzle.spec_size().spec_cell_len(),
        b0.keeps(&b),
        b.keeps(&a),
        a.keeps(&a2),
        turn_deduced(b, a, puzzle, p, rot),
        !turn_conflict(b, puzzle.spec_size(), p, rot),
    ensures
        turn_deduced(b0, a2, puzzle, p, rot),
{
    lemma_corner_lift(b0, b, a, a2, puzzle, p, rot);
    lemma_three_lift(b0, b, a, a2, puzzle, p, rot, 1);
    lemma_three_lift(b0, b, a, a2, puzzle, p, rot, -1);
}

/// The deductions at a corner stay deduced from an earlier map, into a later one, when
/// the relation they read was not in conflict.
proof fn lemma_corner_lift(b0: SideMap, b: SideMap, a: SideMap, a2: SideMap, puzzle: Puzzle, p: Point, rot: Rotation)
    requires
        valid_size(puzzle.spec_size()),
        b0.num_cells() == puzzle.spec_size().spec_cell_len(),
        b0.keeps(&b),
        b.keeps(&a),
        a.keeps(&a2),
        corner_deduced(b, a, puzzle, p, rot),
        !conflicting(b, puzzle.spec_size(), turned(p, rot, -1, 0), turned(p, rot, 0, 1)),
    ensures
        corner_deduced(b0, a2, puzzle, p, rot),
{
    let s = puzzle.spec_size();
    let u = turned(p, rot, -1, 0);
    let d = turned(p, rot, 1, 0);
    let rt = turned(p, rot, 0, 1);
    let l = turned(p, rot, 0, -1);
    crate::side_map::lemma_cell_bound(s, p);
    crate::side_map::lemma_cell_bound(s, u);
    crate::side_map::lemma_cell_bound(s, d);
    crate::side_map::lemma_cell_bound(s, rt);
    crate::side_map::lemma_cell_bound(s, l);
    let n = b0.num_cells();
    assert(crate::side_map::key0(cell(s, u)) < 2 * n && crate::side_map::key0(cell(s, d)) < 2 * n && crate::side_map::key1(
        cell(s, d),
    ) < 2 * n);
    assert(crate::side_map::key0(cell(s, p)) < 2 * n && crate::side_map::key0(cell(s, l)) < 2 * n && crate::side_map::key0(
        cell(s, rt),
    ) < 2 * n);
    assert(crate::side_map::key1(cell(s, u)) < 2 * n && crate::side_map::key1(cell(s, l)) < 2 * n && crate::side_map::key1(
        cell(s, rt),
    ) < 2 * n && crate::side_map::key1(cell(s, p)) < 2 * n);
}

/// The deductions across a cell stay deduced from an earlier map, into a later one, when
/// the relation they read was not in conflict.
proof fn lemma_across_lift(b0: SideMap, b: SideMap, a: SideMap, a2: SideMap, puzzle: Puzzle, p: Point, rot: Rotation)
    requires
        valid_size(puzzle.spec_size()),
        b0.num_cells() == puzzle.spec_size().spec_cell_len(),
        b0.keeps(&b),
        b.keeps(&a),
        a.keeps(&a2),
        across_deduced(b, a, puzzle, p, rot),
        !across_conflict(b, puzzle.spec_size(), p, rot),
    ensures
        across_deduced(b0, a2, puzzle, p, rot),
{
    let s = puzzle.spec_size();
    let u = turned(p, rot, -1, 0);
    let d = turned(p, rot, 1, 0);
    let rt = turned(p, rot, 0, 1);
    let l = turned(p, rot, 0, -1);
    crate::side_map::lemma_cell_bound(s, p);
    crate::side_map::lemma_cell_bound(s, u);
    crate::side_map::lemma_cell_bound(s, d);
    crate::side_map::lemma_cell_bound(s, rt);
    crate::side_map::lemma_cell_bound(s, l);
    let n = b0.num_cells();
    assert(crate::side_map::key0(cell(s, u)) < 2 * n && crate::side_map::key0(cell(s, d)) < 2 * n && crate::side_map::key1(
        cell(s, d),
    ) < 2 * n);
    assert(crate::side_map::key0(cell(s, p)) < 2 * n && crate::side_map::key0(cell(s, l)) < 2 * n && crate::side_map::key0(
        cell(s, rt),
    ) < 2 * n);
    assert(crate::side_map::key1(cell(s, u)) < 2 * n && crate::side_map::key1(cell(s, l)) < 2 * n && crate::side_map::key1(
        cell(s, rt),
    ) < 2 * n);
}

/// While the revision stays, what the patterns across a cell deduced from the first map
/// they also deduce from the second.
proof fn lemma_across_same_revision(b: SideMap, a: SideMap, puzzle: Puzzle, p: Point, rot: Rotation)
    requires
        valid_size(puzzle.spec_size()),
        b.num_cells() == puzzle.spec_size().spec_cell_len(),
        b.keeps(&a),
        b.spec_revision() == a.spec_revision(),
        across_deduced(b, a, puzzle, p, rot),
    ensures
        across_deduced(a, a, puzzle, p, rot),
{
    let s = puzzle.spec_size();
    crate::side_map::lemma_cell_bound(s, turned(p, rot, -1, 0));
    crate::side_map::lemma_cell_bound(s, turned(p, rot, 1, 0));
    lemma_same_revision_edge(b, a, cell(s, turned(p, rot, -1, 0)), cell(s, turned(p, rot, 1, 0)));
}

/// While the revision stays, the line count rule stays done.
proof fn lemma_line_nums_done_same_revision(b: SideMap, a: SideMap, puzzle: Puzzle)
    requires
        valid_size(puzzle.spec_size()),
        b.num_cells() == puzzle.spec_size().spec_cell_len(),
        b.keeps(&a),
        b.spec_revision() == a.spec_revision(),
        line_nums_done(puzzle, b),
    ensures
        line_nums_done(puzzle, a),
{
    let s = puzzle.spec_size();
    assert forall|p: Point|
        s.spec_contains(p) && line_nums_choice(puzzle, a, p) is Some implies #[trigger] count_rel(a, s, p, State::<Edge>::Unknown)
        == 0 by {
        lemma_same_revision_around(b, a, s, p);
        assert(rel_at(b, s, p, 0) == rel_at(a, s, p, 0));
        assert(rel_at(b, s, p, 1) == rel_at(a, s, p, 1));
        assert(rel_at(b, s, p, 2) == rel_at(a, s, p, 2));
        assert(rel_at(b, s, p, 3) == rel_at(a, s, p, 3));
        assert(line_nums_choice(puzzle, b, p) == line_nums_choice(puzzle, a, p));
        assert(count_rel(b, s, p, State::<Edge>::Unknown) == count_rel(a, s, p, State::<Edge>::Unknown));
    }
}

/// Every pattern at every corner of every cell of the grid has deduced from `before` what
/// `after` knows.
pub open spec fn all_turn_deduced(before: SideMap, after: SideMap, puzzle: Puzzle) -> bool {
    forall|p: Point, rot: Rotation|
        puzzle.spec_size().spec_contains(p) && quarter(rot) ==> #[trigger] turn_deduced(before, after, puzzle, p, rot)
}

/// While the revision stays, what the patterns at the corners of a cell deduced from the
/// first map they also deduce from the second.
proof fn lemma_turn_same_revision(b: SideMap, a: SideMap, puzzle: Puzzle, p: Point, rot: Rotation)
    requires
        valid_size(puzzle.spec_size()),
        b.num_cells() == puzzle.spec_size().spec_cell_len(),
        b.keeps(&a),
        b.spec_revision() == a.spec_revision(),
        turn_deduced(b, a, puzzle, p, rot),
    ensures
        turn_deduced(a, a, puzzle, p, rot),
{
    let s = puzzle.spec_size();
    lemma_corner_same_revision(b, a, puzzle, p, rot);
    crate::side_map::lemma_cell_bound(s, turned(p, rot, -1, 0));
    crate::side_map::lemma_cell_bound(s, turned(p, rot, -1, 1));
    crate::side_map::lemma_cell_bound(s, turned(p, rot, -1, -1));
    lemma_same_revision_edge(b, a, cell(s, turned(p, rot, -1, 0)), cell(s, turned(p, rot, -1, 1)));
    lemma_same_revision_edge(b, a, cell(s, turned(p, rot, -1, 0)), cell(s, turned(p, rot, -1, -1)));
}

/// While the revision stays, what the patterns at a corner deduced from the first map
/// they also deduce from the second.
proof fn lemma_corner_same_revision(b: SideMap, a: SideMap, puzzle: Puzzle, p: Point, rot: Rotation)
    requires
        valid_size(puzzle.spec_size()),
        b.num_cells() == puzzle.spec_size().spec_cell_len(),
        b.keeps(&a),
        b.spec_revision() == a.spec_revision(),
        corner_deduced(b, a, puzzle, p, rot),
    ensures
        corner_deduced(a, a, puzzle, p, rot),
{
    let s = puzzle.spec_size();
    crate::side_map::lemma_cell_bound(s, turned(p, rot, -1, 0));
    crate::side_map::lemma_cell_bound(s, turned(p, rot, 0, 1));
    lemma_same_revision_edge(b, a, cell(s, turned(p, rot, -1, 0)), cell(s, turned(p, rot, 0, 1)));
}

/// Every pattern across every cell of the grid has deduced from `before` what `after`
/// knows.
pub open spec fn all_across_deduced(before: SideMap, after: SideMap, puzzle: Puzzle) -> bool {
    forall|p: Point, rot: Rotation|
        puzzle.spec_size().spec_contains(p) && half_turn_set(rot) ==> #[trigger] across_deduced(before, after, puzzle, p, rot)
}

/// The cell sides meet the local conditions of one loop around more than one cell:
/// they are locally consistent and no cell has lines on all four sides.
pub open spec fn loop_like(puzzle: Puzzle, a: Seq<bool>) -> bool {
    &&& locally_consistent(puzzle, a)
    &&& forall|p: Point| puzzle.spec_size().spec_contains(p) ==> #[trigger] differing(a, puzzle.spec_size(), p) < 4
}

/// The deductions from the hints and the relations around each cell, once.
pub fn solve_by_local_property(puzzle: &Puzzle, side_map: &mut SideMap) -> (r: SolverResult<()>)
    requires
        puzzle.wf(),
        roomy(puzzle.spec_size()),
        old(side_map).wf(),
        old(side_map).num_cells() == puzzle.spec_size().spec_cell_len(),
    ensures
        final(side_map).wf(),
        old(side_map).keeps(&*final(side_map)),
        r is Err ==> r->Err_0 == Error::spec_invalid_board(),
        forall|a: Seq<bool>| old(side_map).admits(a) && loop_like(*puzzle, a) ==> #[trigger] final(side_map).admits(a),
        line_conflict(*old(side_map), puzzle.spec_size()) || relation_conflict(*old(side_map), puzzle.spec_size()) ==> r is Err,
        r is Err ==> line_conflict(*final(side_map), puzzle.spec_size()) || relation_conflict(
            *final(side_map),
            puzzle.spec_size(),
        ),
        r is Err ==> forall|a: Seq<bool>| !#[trigger] final(side_map).admits(a),
        r is Ok ==> all_across_deduced(*old(side_map), *final(side_map), *puzzle),
        r is Ok ==> all_turn_deduced(*old(side_map), *final(side_map), *puzzle),
        r is Ok && final(side_map).spec_revision() == old(side_map).spec_revision() ==> line_nums_done(*puzzle, *final(side_map))
            && all_across_deduced(*final(side_map), *final(side_map), *puzzle) && all_turn_deduced(
            *final(side_map),
            *final(side_map),
            *puzzle,
        ),
{
    let ghost m0 = *side_map;
    let res = fill_by_line_nums(puzzle, side_map);
    proof {
        assert forall|a: Seq<bool>| m0.admits(a) && loop_like(*puzzle, a) implies #[trigger] side_map.admits(a) by {
            assert forall|q: Point| puzzle.spec_size().spec_contains(q) implies hint_met(*puzzle, a, q) && differing(
                a,
                puzzle.spec_size(),
                q,
            ) < 4 by {
                assert(hint_met(*puzzle, a, q));
                assert(differing(a, puzzle.spec_size(), q) < 4);
            }
        }
    }
    if res.is_err() {
        return res;
    }
    let ghost m1 = *side_map;
    proof {
        lemma_conflicts_keep(m0, m1, puzzle.spec_size());
    }
    let r = fill_by_relation(puzzle, side_map);
    proof {
        m0.lemma_keeps_transitive(&m1, &*side_map);
        let sz = puzzle.spec_size();
        if r.is_ok() {
            assert(side_map.keeps(&*side_map));
            assert forall|p: Point, rot: Rotation| sz.spec_contains(p) && half_turn_set(rot) implies #[trigger] across_deduced(
                m0,
                *side_map,
                *puzzle,
                p,
                rot,
            ) by {
                assert(!cell_conflict(m1, sz, p));
                assert(!across_conflict(m1, sz, p, rot));
                lemma_across_lift(m0, m1, *side_map, *side_map, *puzzle, p, rot);
            }
            assert forall|p: Point, rot: Rotation| sz.spec_contains(p) && quarter(rot) implies #[trigger] turn_deduced(
                m0,
                *side_map,
                *puzzle,
                p,
                rot,
            ) by {
                assert(!cell_conflict(m1, sz, p));
                assert(!turn_conflict(m1, sz, p, rot));
                lemma_turn_lift(m0, m1, *side_map, *side_map, *puzzle, p, rot);
            }
            if side_map.spec_revision() == m0.spec_revision() {
                lemma_line_nums_done_same_revision(m1, *side_map, *puzzle);
                assert forall|p: Point, rot: Rotation| sz.spec_contains(p) && half_turn_set(rot) implies #[trigger] across_deduced(
                    *side_map,
                    *side_map,
                    *puzzle,
                    p,
                    rot,
                ) by {
                    assert(across_deduced(m1, *side_map, *puzzle, p, rot));
                    lemma_across_same_revision(m1, *side_map, *puzzle, p, rot);
                }
                assert forall|p: Point, rot: Rotation| sz.spec_contains(p) && quarter(rot) implies #[trigger] turn_deduced(
                    *side_map,
                    *side_map,
                    *puzzle,
                    p,
                    rot,
                ) by {
                    assert(turn_deduced(m1, *side_map, *puzzle, p, rot));
                    lemma_turn_same_revision(m1, *side_map, *puzzle, p, rot);
                }
            }
        }
        assert forall|a: Seq<bool>| m0.admits(a) && loop_like(*puzzle, a) implies #[trigger] side_map.admits(a) by {
            assert(m1.admits(a));
        }
    }
    r
}

/// Applies the local deductions again and again until they change nothing more.
pub fn solve_by_logic(puzzle: &Puzzle, side_map: &mut SideMap) -> (r: SolverResult<()>)
    requires
        puzzle.wf(),
        roomy(puzzle.spec_size()),
        old(side_map).wf(),
        old(side_map).num_cells() == puzzle.spec_size().spec_cell_len(),
    ensures
        final(side_map).wf(),
        old(side_map).keeps(&*final(side_map)),
        r is Err ==> r->Err_0 == Error::spec_invalid_board(),
        forall|a: Seq<bool>| old(side_map).admits(a) && loop_like(*puzzle, a) ==> #[trigger] final(side_map).admits(a),
        line_conflict(*old(side_map), puzzle.spec_size()) || relation_conflict(*old(side_map), puzzle.spec_size()) ==> r is Err,
        r is Err ==> line_conflict(*final(side_map), puzzle.spec_size()) || relation_conflict(
            *final(side_map),
            puzzle.spec_size(),
        ),
        r is Err ==> forall|a: Seq<bool>| !#[trigger] final(side_map).admits(a),
        r is Ok ==> all_across_deduced(*old(side_map), *final(side_map), *puzzle),
        r is Ok ==> all_turn_deduced(*old(side_map), *final(side_map), *puzzle),
        r is Ok ==> line_nums_done(*puzzle, *final(side_map)) && all_across_deduced(*final(side_map), *final(side_map), *puzzle),
        r is Ok ==> all_turn_deduced(*final(side_map), *final(side_map), *puzzle),
        r is Ok ==> forall|p: Point|
            puzzle.spec_size().spec_contains(p) ==> !#[trigger] three_lines_one_open(*final(side_map), puzzle.spec_size(), p),
{
    let ghost m0 = *side_map;
    proof {
        crate::theorem::lemma_same_view_refl(m0);
    }
    loop
        invariant
            puzzle.wf(),
            roomy(puzzle.spec_size()),
            side_map.wf(),
            side_map.num_cells() == puzzle.spec_size().spec_cell_len(),
            m0 == *old(side_map),
            m0.keeps(&*side_map),
            forall|a: Seq<bool>| m0.admits(a) && loop_like(*puzzle, a) ==> #[trigger] side_map.admits(a),
        ensures
            !(line_conflict(m0, puzzle.spec_size()) || relation_conflict(m0, puzzle.spec_size())),
            all_across_deduced(m0, *side_map, *puzzle),
            line_nums_done(*puzzle, *side_map) && all_across_deduced(*side_map, *side_map, *puzzle),
            all_turn_deduced(m0, *side_map, *puzzle) && all_turn_deduced(*side_map, *side_map, *puzzle),
            forall|p: Point|
                puzzle.spec_size().spec_contains(p) ==> !#[trigger] three_lines_one_open(*side_map, puzzle.spec_size(), p),
        decreases side_map.classes(),
    {
        let rev = side_map.revision();
        let ghost m1 = *side_map;
        proof {
            lemma_conflicts_keep(m0, m1, puzzle.spec_size());
        }
        let res = solve_by_local_property(puzzle, side_map);
        proof {
            m0.lemma_keeps_transitive(&m1, &*side_map);
            assert forall|a: Seq<bool>| m0.admits(a) && loop_like(*puzzle, a) implies #[trigger] side_map.admits(a) by {
                assert(m1.admits(a));
            }
        }
        if res.is_err() {
            return res;
        }
        if side_map.revision() == rev {
            proof {
                let sz = puzzle.spec_size();
                assert(side_map.keeps(&*side_map));
                assert forall|p: Point, rot: Rotation| sz.spec_contains(p) && half_turn_set(rot) implies #[trigger] across_deduced(
                    m0,
                    *side_map,
                    *puzzle,
                    p,
                    rot,
                ) by {
                    assert(!cell_conflict(m1, sz, p));
                    assert(!across_conflict(m1, sz, p, rot));
                    assert(across_deduced(m1, *side_map, *puzzle, p, rot));
                    lemma_across_lift(m0, m1, *side_map, *side_map, *puzzle, p, rot);
                }
                assert forall|p: Point, rot: Rotation| sz.spec_contains(p) && quarter(rot) implies #[trigger] turn_deduced(
                    m0,
                    *side_map,
                    *puzzle,
                    p,
                    rot,
                ) by {
                    assert(!cell_conflict(m1, sz, p));
                    assert(!turn_conflict(m1, sz, p, rot));
                    assert(turn_deduced(m1, *side_map, *puzzle, p, rot));
                    lemma_turn_lift(m0, m1, *side_map, *side_map, *puzzle, p, rot);
                }
            }
            proof {
                assert forall|p: Point| puzzle.spec_size().spec_contains(p) implies !#[trigger] three_lines_one_open(
                    *side_map,
                    puzzle.spec_size(),
                    p,
                ) by {
                    law_line_count_closed(*puzzle, *side_map, p);
                }
            }
            break;
        }
    }
    Ok(())
}
} // verus!
