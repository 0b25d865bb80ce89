//! The pool of theorems met on the board and still waiting for edges to be known.
use vstd::prelude::*;

use crate::geom::{fits_i32, CellId, Move, Point, Size};
use crate::model::{Error, ErrorKind, SolverResult};
use crate::pattern::{shift_point, EdgePattern, HintPattern};
use crate::puzzle::Puzzle;
use crate::side_map::SideMap;
use crate::sorted::{lemma_seq_lt_order, seq_lt};
use crate::theorem::{
    all_fit, all_hold, all_valid, first_bad, pattern_status, has_same, in_box, rotation_images, same_theorem, shift_match_result, hints_hold, closes, lemma_rotation_images_unique, lemma_complete_holds, lemma_moved_cells_fit, lemma_same_view_refl,
    lemma_same_view_trans, lemma_unknown_suffice, moved_cells, true_at, unknown_patterns, valid_for, MatchResult,
    PartialTheorem, Theorem,
};

verus! {

/// The partial theorems of the board.
#[derive(Clone, Debug)]
pub struct TheoremPool {
    data: Vec<PartialTheorem>,
}

/// Every partial theorem fits a side map of `n` cells.
pub open spec fn pool_fits(data: Seq<PartialTheorem>, n: nat) -> bool {
    forall|i: int| 0 <= i < data.len() ==> all_fit((#[trigger] data[i]).matchers(), n) && all_fit(data[i].results(), n)
}

/// A side map that knows the same keeps what it knew.
pub proof fn lemma_same_view_keeps(a: SideMap, b: SideMap)
    requires
        b.same_view(a),
    ensures
        a.keeps(&b),
{
}

/// The theorem fits the puzzle: a margin of both its sides around the puzzle stays inside
/// the grid's integers.
pub open spec fn theorem_fits(t: Theorem, puzzle: Puzzle) -> bool {
    &&& t.wf()
    &&& 2 * (t.spec_size().0 + t.spec_size().1) + puzzle.spec_size().0 + puzzle.spec_size().1 + 4 < i32::MAX
}

/// Whether the theorem fits the puzzle.
pub fn fits_puzzle(t: &Theorem, puzzle: &Puzzle) -> (r: bool)
    requires
        t.wf(),
        puzzle.wf(),
    ensures
        r == theorem_fits(*t, *puzzle),
{
    proof {
        puzzle.lemma_lengths();
    }
    let ts = t.size();
    let ps = puzzle.size();
    let total: i64 = 2 * (ts.0 as i64 + ts.1 as i64) + ps.0 as i64 + ps.1 as i64 + 4;
    total < i32::MAX as i64
}

/// What recording the match result `m` did: the concluded edges of a complete match are
/// known and the partial theorem of a partial match is added to the pool; otherwise the
/// side map knows what it knew and the pool is unchanged.
pub open spec fn recorded(m: MatchResult, sm0: SideMap, sm1: SideMap, d0: Seq<PartialTheorem>, d1: Seq<PartialTheorem>) -> bool {
    match m {
        MatchResult::Complete(v) => {
            &&& d1 == d0
            &&& forall|i: int| 0 <= i < v@.len() ==> sm1.knows_edge(
                (#[trigger] v@[i]).spec_points().0.spec_id(),
                v@[i].spec_points().1.spec_id(),
                v@[i].spec_edge(),
            )
        },
        MatchResult::Partial(t) => d1 == d0.push(t) && sm1.same_view(sm0),
        MatchResult::Conflict => d1 == d0 && sm1.same_view(sm0),
    }
}

/// Matches `theo` moved by `shift` and records the result: concluded edges into the side
/// map, a partial theorem into `data`. Cell sides of which the theorem is true there,
/// admitted before and satisfying the partial theorems before, still are afterwards.
fn match_and_update(
    theo: &Theorem,
    shift: Move,
    puzzle: &Puzzle,
    sum_of_hint: u32,
    side_map: &mut SideMap,
    data: &mut Vec<PartialTheorem>,
) -> (r: SolverResult<()>)
    requires
        theo.wf(),
        theo.can_shift_by(shift),
        puzzle.wf(),
        old(side_map).wf(),
        old(side_map).num_cells() == puzzle.spec_size().spec_cell_len(),
        pool_fits(old(data)@, old(side_map).num_cells()),
    ensures
        final(side_map).wf(),
        final(side_map).num_cells() == old(side_map).num_cells(),
        old(side_map).keeps(&*final(side_map)),
        pool_fits(final(data)@, old(side_map).num_cells()),
        r is Err ==> r->Err_0.spec_kind() == ErrorKind::InvalidBoard,
        r is Err <==> shift_match_result(*theo, shift, *puzzle, sum_of_hint, *old(side_map), Err(Error::spec_invalid_board())),
        r is Err ==> forall|a: Seq<bool>| !#[trigger] final(side_map).admits(a),
        r is Ok ==> exists|m: MatchResult|
            #[trigger] shift_match_result(*theo, shift, *puzzle, sum_of_hint, *old(side_map), Ok(m)) && recorded(
                m,
                *old(side_map),
                *final(side_map),
                old(data)@,
                final(data)@,
            ),
        forall|a: Seq<bool>|
            old(side_map).admits(a) && all_valid(old(data)@, a) && true_at(*theo, shift, *puzzle, sum_of_hint, a)
                ==> #[trigger] final(side_map).admits(a) && all_valid(final(data)@, a),
{
    let ghost before = *side_map;
    let res = theo.shift_matches(shift, puzzle, sum_of_hint, side_map);
    let ghost mid = *side_map;
    proof {
        lemma_same_view_keeps(before, mid);
        puzzle.lemma_lengths();
        lemma_moved_cells_fit(theo.edges(), shift, puzzle.spec_size());
        assert forall|a: Seq<bool>| before.admits(a) implies #[trigger] mid.admits(a) by {
            crate::side_map::lemma_same_view_admits(before, mid, a);
        }
    }
    let m = match res {
        Ok(m) => m,
        Err(e) => {
            proof {
                Error::lemma_invalid_board_kind();
                let cs = moved_cells(theo.edges(), shift, puzzle.spec_size());
                let i = first_bad(before, cs, 0);
                crate::theorem::lemma_first_bad(before, cs, 0);
                assert forall|a: Seq<bool>| !#[trigger] side_map.admits(a) by {
                    if side_map.admits(a) {
                        crate::side_map::lemma_same_view_admits(mid, before, a);
                        crate::side_map::lemma_conflict_admits_none(
                            before,
                            a,
                            cs[i].spec_points().0.spec_id(),
                            cs[i].spec_points().1.spec_id(),
                        );
                    }
                }
            }
            return Err(e);
        },
    };
    let ghost old_data = data@;
    let ghost gm = m;
    proof {
        let size = puzzle.spec_size();
        let cs = moved_cells(theo.edges(), shift, size);
        crate::theorem::lemma_first_bad(before, cs, 0);
        assert(res == Ok::<MatchResult, Error>(gm));
        assert forall|a: Seq<bool>|
            before.admits(a) && all_valid(old_data, a) && true_at(*theo, shift, *puzzle, sum_of_hint, a) implies (gm matches MatchResult::Complete(
            v,
        ) ==> all_hold(a, v@)) && (gm matches MatchResult::Partial(p) ==> valid_for(p, a)) by {
            if gm is Complete {
                lemma_complete_holds(before, a, cs);
            }
            if let MatchResult::Partial(p) = gm {
                if all_hold(a, p.matchers()) {
                    lemma_unknown_suffice(before, a, cs);
                }
            }
        }
    }
    m.update(side_map, data);
    proof {
        assert(shift_match_result(*theo, shift, *puzzle, sum_of_hint, before, Ok(gm)));
        if gm is Partial || gm is Conflict {
            lemma_same_view_trans(before, mid, *side_map);
        }
        assert(recorded(gm, before, *side_map, old_data, data@));
        before.lemma_keeps_transitive(&mid, &*side_map);
        assert forall|a: Seq<bool>|
            before.admits(a) && all_valid(old_data, a) && true_at(*theo, shift, *puzzle, sum_of_hint, a) implies #[trigger] side_map.admits(a)
                && all_valid(data@, a) by {
            assert(mid.admits(a));
            if let MatchResult::Partial(p) = gm {
                assert(data@ == old_data.push(p));
                assert forall|i: int| 0 <= i < data@.len() implies valid_for(#[trigger] data@[i], a) by {
                    if i < old_data.len() {
                        assert(data@[i] == old_data[i]);
                    }
                }
            }
        }
        assert forall|i: int| 0 <= i < data@.len() implies all_fit((#[trigger] data@[i]).matchers(), before.num_cells())
            && all_fit(data@[i].results(), before.num_cells()) by {
            if i < old_data.len() {
                assert(data@[i] == old_data[i]);
            }
        }
    }
    Ok(())
}

/// `t` is one of the symmetric images of one of the theorems `defs`.
pub open spec fn image_of(defs: Seq<Theorem>, t: Theorem) -> bool {
    exists|i: int, imgs: Seq<Theorem>| 0 <= i < defs.len() && #[trigger] rotation_images(defs[i], imgs) && has_same(imgs, t)
}

/// Every symmetric image of every theorem of `defs` is true of the cell sides `a`
/// wherever it is placed on the puzzle.
pub open spec fn all_true(defs: Seq<Theorem>, puzzle: Puzzle, sum_of_hint: u32, a: Seq<bool>) -> bool {
    forall|t: Theorem, d: Move| image_of(defs, t) ==> #[trigger] true_at(t, d, puzzle, sum_of_hint, a)
}

/// `sm` admits, and the partial theorems `data` are true of, every assignment of cell
/// sides that `start` admits and of which every image of `defs` is true.
pub open spec fn pool_sound(
    sm: SideMap,
    data: Seq<PartialTheorem>,
    start: SideMap,
    defs: Seq<Theorem>,
    puzzle: Puzzle,
    sum_of_hint: u32,
) -> bool {
    forall|a: Seq<bool>|
        start.admits(a) && #[trigger] all_true(defs, puzzle, sum_of_hint, a) ==> sm.admits(a) && all_valid(data, a)
}

/// `u` concludes what `t` concludes and waits for some of the edges that `t` waits for,
/// each of them unknown in `sm`.
pub open spec fn narrows(sm: SideMap, t: PartialTheorem, u: PartialTheorem) -> bool {
    &&& u.results() == t.results()
    &&& forall|k: int|
        0 <= k < u.matchers().len() ==> t.matchers().contains(#[trigger] u.matchers()[k]) && pattern_status(sm, u.matchers()[k]) == 1
}

/// Where the scan of the board places theorem `t` moved by `d`, on a grid of size `s`: a
/// theorem with hints where its first hint lands on a cell of the grid, any other one
/// wherever it overlaps the grid.
pub open spec fn scanned(t: Theorem, d: Move, s: Size) -> bool {
    if t.hints().len() > 0 {
        let o = t.hints()[0].spec_point();
        0 <= o.0 + d.0 < s.0 && 0 <= o.1 + d.1 < s.1
    } else {
        1 - t.spec_size().0 <= d.0 < s.0 + t.spec_size().0 - 1 && 1 - t.spec_size().1 <= d.1 < s.1 + t.spec_size().1 - 1
    }
}

/// Theorem `t` moved by `d` is settled in the side map `sm` and the pool `pool`: where
/// the puzzle has its hints, no expected edge is contradicted and its closing hints are
/// not all the puzzle's hints, every edge it concludes is known, or one partial theorem
/// of the pool concludes them all.
pub open spec fn settled(t: Theorem, d: Move, puzzle: Puzzle, sum_of_hint: u32, sm: SideMap, pool: Seq<PartialTheorem>) -> bool {
    let size = puzzle.spec_size();
    let cs = moved_cells(t.edges(), d, size);
    let rs = moved_cells(t.results(), d, size);
    hints_hold(puzzle, t.hints(), d) && first_bad(sm, cs, 0) == cs.len() && !(t.closed() matches Some((n, hs)) && closes(
        puzzle,
        hs,
        d,
        sum_of_hint,
        n,
    )) ==> (forall|k: int|
        0 <= k < rs.len() ==> sm.knows_edge(
            (#[trigger] rs[k]).spec_points().0.spec_id(),
            rs[k].spec_points().1.spec_id(),
            rs[k].spec_edge(),
        )) || exists|i: int| 0 <= i < pool.len() && #[trigger] concludes_all(pool[i], rs)
}

/// `u` concludes every edge of `rs`.
pub open spec fn concludes_all(u: PartialTheorem, rs: Seq<EdgePattern<CellId>>) -> bool {
    forall|k: int| 0 <= k < rs.len() ==> u.results().contains(#[trigger] rs[k])
}

/// A contradicted or conflicting expected edge stays so in a map that keeps the first.
proof fn lemma_bad_persists(a: SideMap, b: SideMap, cs: Seq<EdgePattern<CellId>>)
    requires
        a.keeps(&b),
        all_fit(cs, a.num_cells()),
        first_bad(a, cs, 0) < cs.len(),
    ensures
        first_bad(b, cs, 0) < cs.len(),
{
    let i = first_bad(a, cs, 0);
    crate::theorem::lemma_first_bad(a, cs, 0);
    crate::theorem::lemma_first_bad(b, cs, 0);
    let c = cs[i];
    assert(c.fits(a.num_cells()));
    let c0 = c.spec_points().0.spec_id();
    let c1 = c.spec_points().1.spec_id();
    assert(crate::side_map::key0(c0) < 2 * a.num_cells());
    assert(crate::side_map::key0(c1) < 2 * a.num_cells());
    assert(crate::side_map::key1(c1) < 2 * a.num_cells());
    assert(pattern_status(b, c) >= 2);
}

/// What is settled stays settled when the side map learns more and the pool grows.
proof fn lemma_settled_keeps(
    t: Theorem,
    d: Move,
    puzzle: Puzzle,
    sum_of_hint: u32,
    a: SideMap,
    b: SideMap,
    p0: Seq<PartialTheorem>,
    p1: Seq<PartialTheorem>,
)
    requires
        a.keeps(&b),
        crate::geom::valid_size(puzzle.spec_size()),
        a.num_cells() == puzzle.spec_size().spec_cell_len(),
        p0.len() <= p1.len(),
        forall|i: int| 0 <= i < p0.len() ==> p1[i] == p0[i],
        settled(t, d, puzzle, sum_of_hint, a, p0),
    ensures
        settled(t, d, puzzle, sum_of_hint, b, p1),
{
    let size = puzzle.spec_size();
    let cs = moved_cells(t.edges(), d, size);
    let rs = moved_cells(t.results(), d, size);
    lemma_moved_cells_fit(t.edges(), d, size);
    lemma_moved_cells_fit(t.results(), d, size);
    crate::theorem::lemma_first_bad(a, cs, 0);
    if first_bad(b, cs, 0) == cs.len() && first_bad(a, cs, 0) < cs.len() {
        lemma_bad_persists(a, b, cs);
    }
    if exists|i: int| 0 <= i < p0.len() && #[trigger] concludes_all(p0[i], rs) {
        let i = choose|i: int| 0 <= i < p0.len() && #[trigger] concludes_all(p0[i], rs);
        assert(p1[i] == p0[i]);
        assert(concludes_all(p1[i], rs));
    } else if hints_hold(puzzle, t.hints(), d) && first_bad(b, cs, 0) == cs.len() && !(t.closed() matches Some((n, hs))
        && closes(puzzle, hs, d, sum_of_hint, n)) {
        assert(first_bad(a, cs, 0) == cs.len());
        assert(forall|k: int|
            0 <= k < rs.len() ==> a.knows_edge(
                (#[trigger] rs[k]).spec_points().0.spec_id(),
                rs[k].spec_points().1.spec_id(),
                rs[k].spec_edge(),
            ));
        assert forall|k: int| 0 <= k < rs.len() implies b.knows_edge(
            (#[trigger] rs[k]).spec_points().0.spec_id(),
            rs[k].spec_points().1.spec_id(),
            rs[k].spec_edge(),
        ) by {
            assert(rs[k].fits(a.num_cells()));
            let c0 = rs[k].spec_points().0.spec_id();
            let c1 = rs[k].spec_points().1.spec_id();
            assert(a.knows_edge(c0, c1, rs[k].spec_edge()));
            assert(crate::side_map::key0(c0) < 2 * a.num_cells());
            assert(crate::side_map::key0(c1) < 2 * a.num_cells());
            assert(crate::side_map::key1(c1) < 2 * a.num_cells());
        }
    }
}

/// Matching a theorem and recording the result settles it.
proof fn lemma_settled_after_match(
    t: Theorem,
    d: Move,
    puzzle: Puzzle,
    sum_of_hint: u32,
    before: SideMap,
    after: SideMap,
    d0: Seq<PartialTheorem>,
    d1: Seq<PartialTheorem>,
    m: MatchResult,
)
    requires
        shift_match_result(t, d, puzzle, sum_of_hint, before, Ok(m)),
        recorded(m, before, after, d0, d1),
        before.keeps(&after),
        crate::geom::valid_size(puzzle.spec_size()),
        before.num_cells() == puzzle.spec_size().spec_cell_len(),
    ensures
        settled(t, d, puzzle, sum_of_hint, after, d1),
{
    let size = puzzle.spec_size();
    let cs = moved_cells(t.edges(), d, size);
    let rs = moved_cells(t.results(), d, size);
    lemma_moved_cells_fit(t.edges(), d, size);
    crate::theorem::lemma_first_bad(before, cs, 0);
    if first_bad(after, cs, 0) == cs.len() && first_bad(before, cs, 0) < cs.len() {
        lemma_bad_persists(before, after, cs);
    }
    if let MatchResult::Partial(p) = m {
        assert(d1[d0.len() as int] == p);
        assert(concludes_all(d1[d0.len() as int], rs));
    }
}

/// What is settled stays settled when the pool is merged into one that covers it.
proof fn lemma_settled_merged(
    t: Theorem,
    d: Move,
    puzzle: Puzzle,
    sum_of_hint: u32,
    sm: SideMap,
    p0: Seq<PartialTheorem>,
    p1: Seq<PartialTheorem>,
)
    requires
        forall|i: int| 0 <= i < p0.len() ==> #[trigger] covered(p1, p0[i]),
        settled(t, d, puzzle, sum_of_hint, sm, p0),
    ensures
        settled(t, d, puzzle, sum_of_hint, sm, p1),
{
    let rs = moved_cells(t.results(), d, puzzle.spec_size());
    if exists|i: int| 0 <= i < p0.len() && #[trigger] concludes_all(p0[i], rs) {
        let i = choose|i: int| 0 <= i < p0.len() && #[trigger] concludes_all(p0[i], rs);
        assert(covered(p1, p0[i]));
        let j = choose|j: int|
            0 <= j < p1.len() && p1[j].matchers() == p0[i].matchers() && forall|e: EdgePattern<CellId>|
                p0[i].results().contains(e) ==> #[trigger] p1[j].results().contains(e);
        assert forall|k: int| 0 <= k < rs.len() implies p1[j].results().contains(#[trigger] rs[k]) by {
            assert(p0[i].results().contains(rs[k]));
        }
        assert(concludes_all(p1[j], rs));
    }
}

/// The first hint of `t` moved by `d` lands before the cell `(r, c)`, row by row.
pub open spec fn lands_before(t: Theorem, d: Move, r: int, c: int) -> bool {
    let o = t.hints()[0].spec_point();
    o.0 + d.0 < r || (o.0 + d.0 == r && o.1 + d.1 < c)
}

/// The first hint of `t` moved by `d` lands on the cell `(r, c)`.
pub open spec fn lands_on(t: Theorem, d: Move, r: int, c: int) -> bool {
    let o = t.hints()[0].spec_point();
    o.0 + d.0 == r && o.1 + d.1 == c
}

/// Every placement of the theorems `ts` whose first hint lands before the cell `(r, c)`,
/// or on it for the first `i` of them, is settled.
pub open spec fn hints_settled(
    ts: Seq<Theorem>,
    puzzle: Puzzle,
    sum_of_hint: u32,
    sm: SideMap,
    pool: Seq<PartialTheorem>,
    r: int,
    c: int,
    i: int,
) -> bool {
    forall|j: int, d: Move|
        0 <= j < ts.len() && scanned(ts[j], d, puzzle.spec_size()) && (lands_before(ts[j], d, r, c) || (lands_on(ts[j], d, r, c)
            && j < i)) ==> #[trigger] settled(ts[j], d, puzzle, sum_of_hint, sm, pool)
}

/// Every placement of the first `i` theorems `ts`, and of theorem `i` moved by less than
/// `(r, c)` row by row, is settled.
pub open spec fn others_settled(
    ts: Seq<Theorem>,
    puzzle: Puzzle,
    sum_of_hint: u32,
    sm: SideMap,
    pool: Seq<PartialTheorem>,
    i: int,
    r: int,
    c: int,
) -> bool {
    forall|j: int, d: Move|
        0 <= j < ts.len() && scanned(ts[j], d, puzzle.spec_size()) && (j < i || (j == i && (d.0 < r || (d.0 == r && d.1 < c))))
            ==> #[trigger] settled(ts[j], d, puzzle, sum_of_hint, sm, pool)
}

/// The settled placements of theorems with hints stay settled as the map and pool grow.
proof fn lemma_hints_settled_keeps(
    ts: Seq<Theorem>,
    puzzle: Puzzle,
    sum_of_hint: u32,
    a: SideMap,
    b: SideMap,
    p0: Seq<PartialTheorem>,
    p1: Seq<PartialTheorem>,
    r: int,
    c: int,
    i: int,
)
    requires
        a.keeps(&b),
        crate::geom::valid_size(puzzle.spec_size()),
        a.num_cells() == puzzle.spec_size().spec_cell_len(),
        p0.len() <= p1.len(),
        forall|k: int| 0 <= k < p0.len() ==> p1[k] == p0[k],
        hints_settled(ts, puzzle, sum_of_hint, a, p0, r, c, i),
    ensures
        hints_settled(ts, puzzle, sum_of_hint, b, p1, r, c, i),
{
    assert forall|j: int, d: Move|
        0 <= j < ts.len() && scanned(ts[j], d, puzzle.spec_size()) && (lands_before(ts[j], d, r, c) || (lands_on(ts[j], d, r, c)
            && j < i)) implies #[trigger] settled(ts[j], d, puzzle, sum_of_hint, b, p1) by {
        lemma_settled_keeps(ts[j], d, puzzle, sum_of_hint, a, b, p0, p1);
    }
}

/// The settled placements of theorems without hints stay settled as the map and pool grow.
proof fn lemma_others_settled_keeps(
    ts: Seq<Theorem>,
    puzzle: Puzzle,
    sum_of_hint: u32,
    a: SideMap,
    b: SideMap,
    p0: Seq<PartialTheorem>,
    p1: Seq<PartialTheorem>,
    i: int,
    r: int,
    c: int,
)
    requires
        a.keeps(&b),
        crate::geom::valid_size(puzzle.spec_size()),
        a.num_cells() == puzzle.spec_size().spec_cell_len(),
        p0.len() <= p1.len(),
        forall|k: int| 0 <= k < p0.len() ==> p1[k] == p0[k],
        others_settled(ts, puzzle, sum_of_hint, a, p0, i, r, c),
    ensures
        others_settled(ts, puzzle, sum_of_hint, b, p1, i, r, c),
{
    assert forall|j: int, d: Move|
        0 <= j < ts.len() && scanned(ts[j], d, puzzle.spec_size()) && (j < i || (j == i && (d.0 < r || (d.0 == r && d.1 < c))))
            implies #[trigger] settled(ts[j], d, puzzle, sum_of_hint, b, p1) by {
        lemma_settled_keeps(ts[j], d, puzzle, sum_of_hint, a, b, p0, p1);
    }
}

/// What matching and recording leaves: a map that keeps the first, a pool that extends
/// the first, and the placement settled.
proof fn lemma_match_step(
    t: Theorem,
    d: Move,
    puzzle: Puzzle,
    sum_of_hint: u32,
    before: SideMap,
    after: SideMap,
    d0: Seq<PartialTheorem>,
    d1: Seq<PartialTheorem>,
)
    requires
        exists|m: MatchResult| #[trigger] shift_match_result(t, d, puzzle, sum_of_hint, before, Ok(m)) && recorded(m, before, after, d0, d1),
        before.keeps(&after),
        crate::geom::valid_size(puzzle.spec_size()),
        before.num_cells() == puzzle.spec_size().spec_cell_len(),
    ensures
        settled(t, d, puzzle, sum_of_hint, after, d1),
        d0.len() <= d1.len(),
        forall|k: int| 0 <= k < d0.len() ==> d1[k] == d0[k],
{
    let m = choose|m: MatchResult| #[trigger] shift_match_result(t, d, puzzle, sum_of_hint, before, Ok(m)) && recorded(m, before, after, d0, d1);
    lemma_settled_after_match(t, d, puzzle, sum_of_hint, before, after, d0, d1, m);
}

/// A theorem whose first hint is not the puzzle's hint at `(r, c)` is settled wherever it
/// lands there.
proof fn lemma_hints_skip(ts: Seq<Theorem>, puzzle: Puzzle, sum_of_hint: u32, sm: SideMap, pool: Seq<PartialTheorem>, r: int, c: int, i: int)
    requires
        0 <= i < ts.len(),
        ts[i].hints().len() > 0,
        0 <= r <= i32::MAX,
        0 <= c <= i32::MAX,
        puzzle.hint_at(Point(r as i32, c as i32)) != Some(ts[i].hints()[0].spec_hint()),
        hints_settled(ts, puzzle, sum_of_hint, sm, pool, r, c, i),
    ensures
        hints_settled(ts, puzzle, sum_of_hint, sm, pool, r, c, i + 1),
{
    assert forall|j: int, d: Move|
        0 <= j < ts.len() && scanned(ts[j], d, puzzle.spec_size()) && (lands_before(ts[j], d, r, c) || (lands_on(ts[j], d, r, c)
            && j < i + 1)) implies #[trigger] settled(ts[j], d, puzzle, sum_of_hint, sm, pool) by {
        if j == i && lands_on(ts[j], d, r, c) && !lands_before(ts[j], d, r, c) {
            let hs = ts[j].hints();
            assert(shift_point(hs[0].spec_point(), d) == Point(r as i32, c as i32));
            assert(!hints_hold(puzzle, hs, d));
        }
    }
}

/// No theorem is settled anew where the puzzle has no hint; all the placements landing
/// on `(r, c)` are settled.
proof fn lemma_hints_no_hint(ts: Seq<Theorem>, puzzle: Puzzle, sum_of_hint: u32, sm: SideMap, pool: Seq<PartialTheorem>, r: int, c: int)
    requires
        forall|j: int| 0 <= j < ts.len() ==> (#[trigger] ts[j]).hints().len() > 0,
        0 <= r <= i32::MAX,
        0 <= c <= i32::MAX,
        puzzle.hint_at(Point(r as i32, c as i32)) is None,
        hints_settled(ts, puzzle, sum_of_hint, sm, pool, r, c, 0),
    ensures
        hints_settled(ts, puzzle, sum_of_hint, sm, pool, r, c + 1, 0),
{
    assert forall|j: int, d: Move|
        0 <= j < ts.len() && scanned(ts[j], d, puzzle.spec_size()) && (lands_before(ts[j], d, r, c + 1) || (lands_on(
            ts[j],
            d,
            r,
            c + 1,
        ) && j < 0)) implies #[trigger] settled(ts[j], d, puzzle, sum_of_hint, sm, pool) by {
        if lands_on(ts[j], d, r, c) {
            let hs = ts[j].hints();
            assert(hs.len() > 0);
            assert(shift_point(hs[0].spec_point(), d) == Point(r as i32, c as i32));
            assert(!hints_hold(puzzle, hs, d));
        }
    }
}

/// A theorem matched where its first hint lands on `(r, c)` joins the settled ones.
proof fn lemma_hints_matched(
    ts: Seq<Theorem>,
    puzzle: Puzzle,
    sum_of_hint: u32,
    a: SideMap,
    b: SideMap,
    p0: Seq<PartialTheorem>,
    p1: Seq<PartialTheorem>,
    r: int,
    c: int,
    i: int,
    d0: Move,
)
    requires
        0 <= i < ts.len(),
        ts[i].hints().len() > 0,
        d0.0 == r - ts[i].hints()[0].spec_point().0,
        d0.1 == c - ts[i].hints()[0].spec_point().1,
        a.keeps(&b),
        crate::geom::valid_size(puzzle.spec_size()),
        a.num_cells() == puzzle.spec_size().spec_cell_len(),
        p0.len() <= p1.len(),
        forall|k: int| 0 <= k < p0.len() ==> p1[k] == p0[k],
        hints_settled(ts, puzzle, sum_of_hint, a, p0, r, c, i),
        settled(ts[i], d0, puzzle, sum_of_hint, b, p1),
    ensures
        hints_settled(ts, puzzle, sum_of_hint, b, p1, r, c, i + 1),
{
    lemma_hints_settled_keeps(ts, puzzle, sum_of_hint, a, b, p0, p1, r, c, i);
    assert forall|j: int, d: Move|
        0 <= j < ts.len() && scanned(ts[j], d, puzzle.spec_size()) && (lands_before(ts[j], d, r, c) || (lands_on(ts[j], d, r, c)
            && j < i + 1)) implies #[trigger] settled(ts[j], d, puzzle, sum_of_hint, b, p1) by {
        if j == i && lands_on(ts[j], d, r, c) && !lands_before(ts[j], d, r, c) {
            assert(d == d0);
        }
    }
}

/// After every theorem at `(r, c)`, the next cell.
proof fn lemma_hints_next_cell(ts: Seq<Theorem>, puzzle: Puzzle, sum_of_hint: u32, sm: SideMap, pool: Seq<PartialTheorem>, r: int, c: int)
    requires
        hints_settled(ts, puzzle, sum_of_hint, sm, pool, r, c, ts.len() as int),
    ensures
        hints_settled(ts, puzzle, sum_of_hint, sm, pool, r, c + 1, 0),
{
}

/// After the last cell of row `r`, the next row.
proof fn lemma_hints_next_row(ts: Seq<Theorem>, puzzle: Puzzle, sum_of_hint: u32, sm: SideMap, pool: Seq<PartialTheorem>, r: int)
    requires
        forall|j: int| 0 <= j < ts.len() ==> (#[trigger] ts[j]).hints().len() > 0,
        hints_settled(ts, puzzle, sum_of_hint, sm, pool, r, puzzle.spec_size().1 as int, 0),
    ensures
        hints_settled(ts, puzzle, sum_of_hint, sm, pool, r + 1, 0, 0),
{
    assert forall|j: int, d: Move|
        0 <= j < ts.len() && scanned(ts[j], d, puzzle.spec_size()) && (lands_before(ts[j], d, r + 1, 0) || (lands_on(
            ts[j],
            d,
            r + 1,
            0,
        ) && j < 0)) implies #[trigger] settled(ts[j], d, puzzle, sum_of_hint, sm, pool) by {
        assert(ts[j].hints().len() > 0);
        assert(lands_before(ts[j], d, r, puzzle.spec_size().1 as int));
    }
}

/// A theorem without hints matched at `(r, c)` joins the settled ones.
proof fn lemma_others_matched(
    ts: Seq<Theorem>,
    puzzle: Puzzle,
    sum_of_hint: u32,
    a: SideMap,
    b: SideMap,
    p0: Seq<PartialTheorem>,
    p1: Seq<PartialTheorem>,
    i: int,
    r: i32,
    c: i32,
)
    requires
        0 <= i < ts.len(),
        a.keeps(&b),
        crate::geom::valid_size(puzzle.spec_size()),
        a.num_cells() == puzzle.spec_size().spec_cell_len(),
        p0.len() <= p1.len(),
        forall|k: int| 0 <= k < p0.len() ==> p1[k] == p0[k],
        others_settled(ts, puzzle, sum_of_hint, a, p0, i, r as int, c as int),
        settled(ts[i], Move(r, c), puzzle, sum_of_hint, b, p1),
    ensures
        others_settled(ts, puzzle, sum_of_hint, b, p1, i, r as int, c + 1),
{
    lemma_others_settled_keeps(ts, puzzle, sum_of_hint, a, b, p0, p1, i, r as int, c as int);
    assert forall|j: int, d: Move|
        0 <= j < ts.len() && scanned(ts[j], d, puzzle.spec_size()) && (j < i || (j == i && (d.0 < r || (d.0 == r && d.1 < c
            + 1)))) implies #[trigger] settled(ts[j], d, puzzle, sum_of_hint, b, p1) by {
        if j == i && d.0 == r && d.1 == c {
            assert(d == Move(r, c));
        }
    }
}

/// After the last column of row `r`, the next row.
proof fn lemma_others_next_row(ts: Seq<Theorem>, puzzle: Puzzle, sum_of_hint: u32, sm: SideMap, pool: Seq<PartialTheorem>, i: int, r: int)
    requires
        0 <= i < ts.len(),
        ts[i].hints().len() == 0,
        others_settled(
            ts,
            puzzle,
            sum_of_hint,
            sm,
            pool,
            i,
            r,
            puzzle.spec_size().1 + ts[i].spec_size().1 - 1,
        ),
    ensures
        others_settled(ts, puzzle, sum_of_hint, sm, pool, i, r + 1, 1 - ts[i].spec_size().1),
{
}

/// Before the first place of theorem `i`, nothing of it is settled yet.
proof fn lemma_others_start(ts: Seq<Theorem>, puzzle: Puzzle, sum_of_hint: u32, sm: SideMap, pool: Seq<PartialTheorem>, i: int)
    requires
        0 <= i < ts.len(),
        ts[i].hints().len() == 0,
        ts[i].spec_size().0 >= 0,
        others_settled(ts, puzzle, sum_of_hint, sm, pool, i, -4294967296int, 0),
    ensures
        others_settled(ts, puzzle, sum_of_hint, sm, pool, i, 1 - ts[i].spec_size().0, 1 - ts[i].spec_size().1),
{
}

/// After the last place of theorem `i`, the next theorem.
proof fn lemma_others_next_theorem(ts: Seq<Theorem>, puzzle: Puzzle, sum_of_hint: u32, sm: SideMap, pool: Seq<PartialTheorem>, i: int)
    requires
        0 <= i < ts.len(),
        ts[i].hints().len() == 0,
        others_settled(
            ts,
            puzzle,
            sum_of_hint,
            sm,
            pool,
            i,
            puzzle.spec_size().0 + ts[i].spec_size().0 - 1,
            1 - ts[i].spec_size().1,
        ),
    ensures
        others_settled(ts, puzzle, sum_of_hint, sm, pool, i + 1, -4294967296int, 0),
{
}

/// `t` is one of the symmetric images of one of the first `k` theorems of `defs`.
pub open spec fn image_within(defs: Seq<Theorem>, k: int, t: Theorem) -> bool {
    exists|i: int, imgs: Seq<Theorem>| 0 <= i < k && #[trigger] rotation_images(defs[i], imgs) && has_same(imgs, t)
}

/// A theorem alike to `t` is among `with_hints` when `t` has hints, among `others`
/// otherwise.
pub open spec fn listed(with_hints: Seq<Theorem>, others: Seq<Theorem>, t: Theorem) -> bool {
    if t.hints().len() > 0 {
        has_same(with_hints, t)
    } else {
        has_same(others, t)
    }
}

/// A theorem alike to `t` stays in a list that grows.
proof fn lemma_has_same_push(s: Seq<Theorem>, x: Theorem, t: Theorem)
    requires
        has_same(s, t),
    ensures
        has_same(s.push(x), t),
{
    let i = choose|i: int| 0 <= i < s.len() && #[trigger] same_theorem(s[i], t);
    assert(s.push(x)[i] == s[i]);
}

/// `t` expects the same edges as `u`, or comes before it by expected edges.
pub open spec fn matchers_le(t: PartialTheorem, u: PartialTheorem) -> bool {
    t.matchers() == u.matchers() || seq_lt(t.matchers(), u.matchers())
}

/// Some theorem of `ts` expects the edges that `t` expects and concludes all that `t`
/// concludes.
pub open spec fn covered(ts: Seq<PartialTheorem>, t: PartialTheorem) -> bool {
    exists|j: int|
        0 <= j < ts.len() && ts[j].matchers() == t.matchers() && forall|e: EdgePattern<CellId>|
            t.results().contains(e) ==> #[trigger] ts[j].results().contains(e)
}

/// Some theorem of `ts` expects the edges that `u` expects.
pub open spec fn drawn_from(ts: Seq<PartialTheorem>, u: PartialTheorem) -> bool {
    exists|j: int| 0 <= j < ts.len() && ts[j].matchers() == u.matchers()
}

/// Taking the first theorem `t` of the sorted ones into the merged ones keeps every
/// theorem of `start` covered, and every merged one drawn from `start`.
proof fn lemma_cover_step(
    start: Seq<PartialTheorem>,
    before_out: Seq<PartialTheorem>,
    before_sorted: Seq<PartialTheorem>,
    out: Seq<PartialTheorem>,
    sorted: Seq<PartialTheorem>,
    t: PartialTheorem,
)
    requires
        before_sorted.len() > 0,
        t == before_sorted[0],
        sorted == before_sorted.drop_first(),
        out.len() >= before_out.len(),
        forall|i: int|
            0 <= i < before_out.len() ==> (#[trigger] out[i]).matchers() == before_out[i].matchers() && forall|e: EdgePattern<CellId>|
                before_out[i].results().contains(e) ==> #[trigger] out[i].results().contains(e),
        (out.len() == before_out.len() + 1 && out.last() == t) || (out.len() == before_out.len() && out.len() > 0
            && out.last().matchers() == t.matchers() && forall|e: EdgePattern<CellId>|
            t.results().contains(e) ==> #[trigger] out.last().results().contains(e)),
        forall|i: int| 0 <= i < start.len() ==> #[trigger] covered(before_out, start[i]) || covered(before_sorted, start[i]),
        forall|i: int| 0 <= i < before_out.len() ==> #[trigger] drawn_from(start, before_out[i]),
        drawn_from(start, t),
    ensures
        forall|i: int| 0 <= i < start.len() ==> #[trigger] covered(out, start[i]) || covered(sorted, start[i]),
        forall|i: int| 0 <= i < out.len() ==> #[trigger] drawn_from(start, out[i]),
{
    assert forall|i: int| 0 <= i < start.len() implies #[trigger] covered(out, start[i]) || covered(sorted, start[i]) by {
        let s = start[i];
        if covered(before_out, s) {
            let j = choose|j: int|
                0 <= j < before_out.len() && before_out[j].matchers() == s.matchers() && forall|e: EdgePattern<CellId>|
                    s.results().contains(e) ==> #[trigger] before_out[j].results().contains(e);
            assert(out[j].matchers() == s.matchers());
            assert forall|e: EdgePattern<CellId>| s.results().contains(e) implies #[trigger] out[j].results().contains(e) by {
                assert(before_out[j].results().contains(e));
            }
        } else {
            assert(covered(before_sorted, s));
            let j = choose|j: int|
                0 <= j < before_sorted.len() && before_sorted[j].matchers() == s.matchers() && forall|e: EdgePattern<CellId>|
                    s.results().contains(e) ==> #[trigger] before_sorted[j].results().contains(e);
            if j > 0 {
                assert(sorted[j - 1] == before_sorted[j]);
            } else {
                let l = out.len() - 1;
                assert(out[l] == out.last());
                assert forall|e: EdgePattern<CellId>| s.results().contains(e) implies #[trigger] out[l].results().contains(e) by {
                    assert(t.results().contains(e));
                }
            }
        }
    }
    assert forall|i: int| 0 <= i < out.len() implies #[trigger] drawn_from(start, out[i]) by {
        if i < before_out.len() {
            assert(drawn_from(start, before_out[i]));
            let j = choose|j: int| 0 <= j < start.len() && start[j].matchers() == before_out[i].matchers();
            assert(start[j].matchers() == out[i].matchers());
        } else {
            assert(out[i] == out.last());
            let j = choose|j: int| 0 <= j < start.len() && start[j].matchers() == t.matchers();
            assert(start[j].matchers() == out[i].matchers());
        }
    }
}

/// The order by expected edges is transitive, and strict after a strict step.
proof fn lemma_matchers_le_trans(a: PartialTheorem, b: PartialTheorem, c: PartialTheorem)
    ensures
        matchers_le(a, b) && matchers_le(b, c) ==> matchers_le(a, c),
        matchers_le(a, b) && seq_lt(b.matchers(), c.matchers()) ==> seq_lt(a.matchers(), c.matchers()),
        seq_lt(a.matchers(), b.matchers()) && matchers_le(b, c) ==> seq_lt(a.matchers(), c.matchers()),
{
    lemma_seq_lt_order(a.matchers(), b.matchers(), c.matchers());
}

/// `u` narrows one of the partial theorems `ts` (see `narrows`).
pub open spec fn narrows_one(sm: SideMap, ts: Seq<PartialTheorem>, u: PartialTheorem) -> bool {
    exists|j: int| 0 <= j < ts.len() && narrows(sm, ts[j], u)
}

/// Every edge that a partial theorem of `pool` expects is unknown in `sm`.
pub open spec fn waits_on_unknown(sm: SideMap, pool: Seq<PartialTheorem>) -> bool {
    forall|i: int, k: int|
        0 <= i < pool.len() && 0 <= k < pool[i].matchers().len() ==> pattern_status(sm, #[trigger] pool[i].matchers()[k]) == 1
}

/// An edge unknown in a map stays unknown while the revision stays.
pub proof fn lemma_unknown_same_revision(a: SideMap, b: SideMap, c: EdgePattern<CellId>)
    requires
        a.keeps(&b),
        a.spec_revision() == b.spec_revision(),
        c.fits(a.num_cells()),
        pattern_status(a, c) == 1,
    ensures
        pattern_status(b, c) == 1,
{
    let c0 = c.spec_points().0.spec_id();
    let c1 = c.spec_points().1.spec_id();
    assert(crate::side_map::key0(c0) < 2 * a.num_cells());
    assert(crate::side_map::key0(c1) < 2 * a.num_cells());
    assert(crate::side_map::key1(c1) < 2 * a.num_cells());
}

/// Every pattern that `unknown_patterns` keeps is unknown.
pub proof fn lemma_unknown_status(sm: SideMap, cs: Seq<EdgePattern<CellId>>)
    ensures
        forall|k: int| 0 <= k < unknown_patterns(sm, cs).len() ==> pattern_status(sm, #[trigger] unknown_patterns(sm, cs)[k]) == 1,
    decreases cs.len(),
{
    if cs.len() > 0 {
        let rest = unknown_patterns(sm, cs.drop_last());
        lemma_unknown_status(sm, cs.drop_last());
        assert forall|k: int| 0 <= k < unknown_patterns(sm, cs).len() implies pattern_status(
            sm,
            #[trigger] unknown_patterns(sm, cs)[k],
        ) == 1 by {
            if pattern_status(sm, cs.last()) == 1 {
                assert(unknown_patterns(sm, cs) == rest.push(cs.last()));
                if k < rest.len() {
                    assert(unknown_patterns(sm, cs)[k] == rest[k]);
                }
            } else {
                assert(unknown_patterns(sm, cs) == rest);
            }
        }
    }
}

/// An edge unknown in a map that keeps `a` was unknown in `a`.
pub proof fn lemma_unknown_kept(a: SideMap, b: SideMap, c: EdgePattern<CellId>)
    requires
        a.keeps(&b),
        c.fits(a.num_cells()),
        pattern_status(b, c) == 1,
    ensures
        pattern_status(a, c) == 1,
{
    let c0 = c.spec_points().0.spec_id();
    let c1 = c.spec_points().1.spec_id();
    assert(crate::side_map::key0(c0) < 2 * a.num_cells());
    assert(crate::side_map::key0(c1) < 2 * a.num_cells());
    assert(crate::side_map::key1(c1) < 2 * a.num_cells());
}

impl TheoremPool {
    /// The partial theorems.
    pub closed spec fn theorems(&self) -> Seq<PartialTheorem> {
        self.data@
    }

    /// The number of partial theorems.
    pub fn len(&self) -> (r: usize)
        ensures
            r == self.theorems().len(),
    {
        self.data.len()
    }

    /// Matches every symmetric image of every theorem everywhere on the board: those headed
    /// by a hint where the puzzle has that hint, the others at every place where they
    /// overlap the board. Concluded edges go into the side map; theorems that wait for
    /// unknown edges form the pool, those expecting the same edges merged.
    pub fn new(theo_defs: Vec<Theorem>, puzzle: &Puzzle, sum_of_hint: u32, side_map: &mut SideMap) -> (r: SolverResult<TheoremPool>)
        requires
            puzzle.wf(),
            old(side_map).wf(),
            old(side_map).num_cells() == puzzle.spec_size().spec_cell_len(),
            forall|i: int| 0 <= i < theo_defs@.len() ==> theorem_fits(#[trigger] theo_defs@[i], *puzzle),
        ensures
            final(side_map).wf(),
            final(side_map).num_cells() == old(side_map).num_cells(),
            old(side_map).keeps(&*final(side_map)),
            r matches Ok(pool) ==> pool_fits(pool.theorems(), old(side_map).num_cells()),
            r is Err ==> r->Err_0.spec_kind() == ErrorKind::InvalidBoard,
            r is Err ==> forall|a: Seq<bool>| !#[trigger] final(side_map).admits(a),
            forall|a: Seq<bool>|
                old(side_map).admits(a) && #[trigger] all_true(theo_defs@, *puzzle, sum_of_hint, a) ==> final(side_map).admits(a)
                    && (r matches Ok(pool) ==> all_valid(pool.theorems(), a)),
            r matches Ok(pool) ==> forall|t: Theorem, d: Move|
                image_of(theo_defs@, t) && scanned(t, d, puzzle.spec_size()) ==> #[trigger] settled(
                    t,
                    d,
                    *puzzle,
                    sum_of_hint,
                    *final(side_map),
                    pool.theorems(),
                ),
    {
        let ghost start = *side_map;
        let ghost n = start.num_cells();
        let ghost psize = puzzle.spec_size();
        proof {
            lemma_same_view_refl(start);
            puzzle.lemma_lengths();
        }
        let mut hint_theorem: Vec<Theorem> = Vec::new();
        let mut nonhint_theorem: Vec<Theorem> = Vec::new();
        let mut defs = theo_defs;
        let ghost all_defs = defs@;
        while defs.len() > 0
            invariant
                defs@.len() <= all_defs.len(),
                defs@ == all_defs.subrange(all_defs.len() - defs@.len(), all_defs.len() as int),
                all_defs == theo_defs@,
                forall|i: int| 0 <= i < all_defs.len() ==> theorem_fits(#[trigger] all_defs[i], *puzzle),
                forall|i: int| 0 <= i < hint_theorem@.len() ==> theorem_fits(#[trigger] hint_theorem@[i], *puzzle)
                    && hint_theorem@[i].hints().len() > 0 && image_of(all_defs, hint_theorem@[i]),
                forall|i: int| 0 <= i < nonhint_theorem@.len() ==> theorem_fits(#[trigger] nonhint_theorem@[i], *puzzle)
                    && image_of(all_defs, nonhint_theorem@[i]) && nonhint_theorem@[i].hints().len() == 0,
                forall|t: Theorem|
                    #[trigger] image_within(all_defs, all_defs.len() - defs@.len(), t) ==> listed(hint_theorem@, nonhint_theorem@, t),
            decreases defs.len(),
        {
            let ghost idx = all_defs.len() - defs@.len();
            let ghost before_defs = defs@;
            let theo = defs.remove(0);
            proof {
                assert(before_defs[0] == all_defs.subrange(idx, all_defs.len() as int)[0]);
                assert(theo == all_defs[idx]);
                assert(defs@ =~= all_defs.subrange(all_defs.len() - defs@.len(), all_defs.len() as int));
            }
            let ghost sum = theo.spec_size().0 + theo.spec_size().1;
            let rots = theo.all_rotations();
            let ghost all_rots = rots@;
            let ghost imgs0 = choose|imgs: Seq<Theorem>| #[trigger] rotation_images(theo, imgs) && forall|x: Theorem|
                #[trigger] has_same(rots@, x) <==> has_same(imgs, x);
            proof {
                let imgs = imgs0;
                assert forall|i: int| 0 <= i < rots@.len() implies image_of(all_defs, #[trigger] rots@[i]) by {
                    assert(same_theorem(rots@[i], rots@[i]));
                    assert(has_same(rots@, rots@[i]));
                    assert(has_same(imgs, rots@[i]));
                    assert(rotation_images(all_defs[idx], imgs));
                }
            }
            let mut rots = rots;
            while rots.len() > 0
                invariant
                    forall|i: int| 0 <= i < rots@.len() ==> (#[trigger] rots@[i]).wf() && rots@[i].spec_size().0
                        + rots@[i].spec_size().1 == sum && image_of(all_defs, rots@[i]),
                    2 * sum + puzzle.spec_size().0 + puzzle.spec_size().1 + 4 < i32::MAX,
                    forall|i: int| 0 <= i < hint_theorem@.len() ==> theorem_fits(#[trigger] hint_theorem@[i], *puzzle)
                        && hint_theorem@[i].hints().len() > 0 && image_of(all_defs, hint_theorem@[i]),
                    forall|i: int| 0 <= i < nonhint_theorem@.len() ==> theorem_fits(#[trigger] nonhint_theorem@[i], *puzzle)
                        && image_of(all_defs, nonhint_theorem@[i]) && nonhint_theorem@[i].hints().len() == 0,
                    forall|t: Theorem| #[trigger] image_within(all_defs, idx, t) ==> listed(hint_theorem@, nonhint_theorem@, t),
                    rots@.len() <= all_rots.len(),
                    rots@ == all_rots.subrange(all_rots.len() - rots@.len(), all_rots.len() as int),
                    forall|t: Theorem|
                        #[trigger] has_same(all_rots, t) ==> has_same(rots@, t) || listed(hint_theorem@, nonhint_theorem@, t),
                decreases rots.len(),
            {
                let ghost before_rots = rots@;
                let ghost before_hint = hint_theorem@;
                let ghost before_nonhint = nonhint_theorem@;
                let t = rots.remove(0);
                proof {
                    assert(t == before_rots[0]);
                    assert forall|i: int| 0 <= i < rots@.len() implies (#[trigger] rots@[i]).wf() && rots@[i].spec_size().0
                        + rots@[i].spec_size().1 == sum && image_of(all_defs, rots@[i]) by {
                        assert(rots@[i] == before_rots[i + 1]);
                    }
                }
                match t.head() {
                    Some(_) => hint_theorem.push(t),
                    None => nonhint_theorem.push(t),
                }
                proof {
                    assert(rots@ =~= all_rots.subrange(all_rots.len() - rots@.len(), all_rots.len() as int));
                    assert forall|x: Theorem| listed(before_hint, before_nonhint, x) implies listed(
                        hint_theorem@,
                        nonhint_theorem@,
                        x,
                    ) by {
                        if x.hints().len() > 0 && t.hints().len() > 0 {
                            lemma_has_same_push(before_hint, t, x);
                        } else if x.hints().len() == 0 && t.hints().len() == 0 {
                            lemma_has_same_push(before_nonhint, t, x);
                        }
                    }
                    assert forall|x: Theorem| #[trigger] has_same(all_rots, x) implies has_same(rots@, x) || listed(
                        hint_theorem@,
                        nonhint_theorem@,
                        x,
                    ) by {
                        if has_same(before_rots, x) {
                            let w = choose|w: int| 0 <= w < before_rots.len() && #[trigger] same_theorem(before_rots[w], x);
                            if w == 0 {
                                if t.hints().len() > 0 {
                                    assert(same_theorem(hint_theorem@[hint_theorem@.len() - 1], x));
                                } else {
                                    assert(same_theorem(nonhint_theorem@[nonhint_theorem@.len() - 1], x));
                                }
                            } else {
                                assert(same_theorem(rots@[w - 1], x));
                            }
                        }
                    }
                }
            }
            proof {
                assert forall|x: Theorem| #[trigger] image_within(all_defs, all_defs.len() - defs@.len(), x) implies listed(
                    hint_theorem@,
                    nonhint_theorem@,
                    x,
                ) by {
                    let (w, imgs) = choose|w: int, imgs: Seq<Theorem>|
                        0 <= w < all_defs.len() - defs@.len() && #[trigger] rotation_images(all_defs[w], imgs) && has_same(imgs, x);
                    if w < idx {
                        assert(image_within(all_defs, idx, x));
                    } else {
                        lemma_rotation_images_unique(theo, imgs, imgs0);
                        let v = choose|v: int| 0 <= v < imgs.len() && #[trigger] same_theorem(imgs[v], x);
                        assert(w == idx);
                        assert(rotation_images(theo, imgs));
                        assert(same_theorem(imgs[v], imgs0[v]));
                        assert(same_theorem(imgs0[v], x));
                        assert(has_same(imgs0, x));
                        assert(has_same(all_rots, x));
                    }
                }
            }
        }
        let mut data: Vec<PartialTheorem> = Vec::new();
        let size = puzzle.size();
        let mut r: i32 = 0;
        while r < size.0
            invariant
                0 <= r <= size.0,
                size == psize,
                psize == puzzle.spec_size(),
                puzzle.wf(),
                side_map.wf(),
                side_map.num_cells() == n,
                n == start.num_cells(),
                start == *old(side_map),
                0 < size.0 && 0 < size.1,
                n == psize.spec_cell_len(),
                start.keeps(&*side_map),
                pool_fits(data@, n),
                pool_sound(*side_map, data@, start, all_defs, *puzzle, sum_of_hint),
                all_defs == theo_defs@,
                forall|i: int| 0 <= i < hint_theorem@.len() ==> theorem_fits(#[trigger] hint_theorem@[i], *puzzle)
                    && hint_theorem@[i].hints().len() > 0 && image_of(all_defs, hint_theorem@[i]),
                hints_settled(hint_theorem@, *puzzle, sum_of_hint, *side_map, data@, r as int, 0, 0),
            decreases size.0 - r,
        {
            let mut c: i32 = 0;
            while c < size.1
                invariant
                    0 <= r < size.0,
                    0 <= c <= size.1,
                    size == psize,
                    psize == puzzle.spec_size(),
                    puzzle.wf(),
                    side_map.wf(),
                    side_map.num_cells() == n,
                    n == psize.spec_cell_len(),
                    n == start.num_cells(),
                    start == *old(side_map),
                    start.keeps(&*side_map),
                    pool_fits(data@, n),
                    pool_sound(*side_map, data@, start, all_defs, *puzzle, sum_of_hint),
                    all_defs == theo_defs@,
                    forall|i: int| 0 <= i < hint_theorem@.len() ==> theorem_fits(#[trigger] hint_theorem@[i], *puzzle)
                        && hint_theorem@[i].hints().len() > 0 && image_of(all_defs, hint_theorem@[i]),
                    hints_settled(hint_theorem@, *puzzle, sum_of_hint, *side_map, data@, r as int, c as int, 0),
                decreases size.1 - c,
            {
                let p = Point(r, c);
                match puzzle.hint(p) {
                    Some(x) => {
                        let mut i: usize = 0;
                        while i < hint_theorem.len()
                            invariant
                                0 <= r < size.0,
                                0 <= c < size.1,
                                p == Point(r, c),
                                size == psize,
                                psize == puzzle.spec_size(),
                                puzzle.wf(),
                                side_map.wf(),
                                side_map.num_cells() == n,
                                n == psize.spec_cell_len(),
                                n == start.num_cells(),
                                start == *old(side_map),
                                start.keeps(&*side_map),
                                pool_fits(data@, n),
                                pool_sound(*side_map, data@, start, all_defs, *puzzle, sum_of_hint),
                                all_defs == theo_defs@,
                                forall|j: int| 0 <= j < hint_theorem@.len() ==> theorem_fits(#[trigger] hint_theorem@[j], *puzzle)
                                    && hint_theorem@[j].hints().len() > 0 && image_of(all_defs, hint_theorem@[j]),
                                puzzle.hint_at(p) == Some(x),
                                hints_settled(hint_theorem@, *puzzle, sum_of_hint, *side_map, data@, r as int, c as int, i as int),
                            decreases hint_theorem.len() - i,
                        {
                            let theo = &hint_theorem[i];
                            let ghost sm_i = *side_map;
                            let ghost data_i = data@;
                            assert(theorem_fits(hint_theorem@[i as int], *puzzle));
                            match theo.head() {
                                Some(h) => {
                                    if h.hint() == x {
                                        let o = h.point();
                                        assert(in_box(theo.spec_size(), theo.hints()[0].spec_point()));
                                        let shift = p.sub(o);
                                        let ghost before = *side_map;
                                        let res = match_and_update(theo, Move(shift.0, shift.1), puzzle, sum_of_hint, side_map, &mut data);
                                        proof {
                                            start.lemma_keeps_transitive(&before, &*side_map);
                                            assert forall|a: Seq<bool>| start.admits(a) && #[trigger] all_true(all_defs, *puzzle, sum_of_hint, a)
                                                implies side_map.admits(a) && all_valid(data@, a) by {
                                                assert(true_at(*theo, Move(shift.0, shift.1), *puzzle, sum_of_hint, a));
                                            }
                                        }
                                        if res.is_err() {
                                            proof {
                                                assert forall|a: Seq<bool>| start.admits(a) && #[trigger] all_true(theo_defs@, *puzzle, sum_of_hint, a)
                                                    implies side_map.admits(a) by {
                                                    assert(all_true(all_defs, *puzzle, sum_of_hint, a));
                                                }
                                            }
                                            return Err(Error::invalid_board());
                                        }
                                        proof {
                                            puzzle.lemma_lengths();
                                            lemma_match_step(*theo, Move(shift.0, shift.1), *puzzle, sum_of_hint, before, *side_map, data_i, data@);
                                            lemma_hints_matched(hint_theorem@, *puzzle, sum_of_hint, sm_i, *side_map, data_i, data@, r as int, c as int, i as int, Move(shift.0, shift.1));
                                        }
                                    } else {
                                        proof {
                                            lemma_hints_skip(hint_theorem@, *puzzle, sum_of_hint, *side_map, data@, r as int, c as int, i as int);
                                        }
                                    }
                                },
                                None => {},
                            }
                            i = i + 1;
                        }
                        proof {
                            lemma_hints_next_cell(hint_theorem@, *puzzle, sum_of_hint, *side_map, data@, r as int, c as int);
                        }
                    },
                    None => {
                        proof {
                            lemma_hints_no_hint(hint_theorem@, *puzzle, sum_of_hint, *side_map, data@, r as int, c as int);
                        }
                    },
                }
                c = c + 1;
            }
            proof {
                lemma_hints_next_row(hint_theorem@, *puzzle, sum_of_hint, *side_map, data@, r as int);
            }
            r = r + 1;
        }
        let mut i: usize = 0;
        while i < nonhint_theorem.len()
            invariant
                size == psize,
                psize == puzzle.spec_size(),
                0 < size.0 && 0 < size.1,
                puzzle.wf(),
                side_map.wf(),
                side_map.num_cells() == n,
                n == psize.spec_cell_len(),
                n == start.num_cells(),
                start == *old(side_map),
                start.keeps(&*side_map),
                pool_fits(data@, n),
                pool_sound(*side_map, data@, start, all_defs, *puzzle, sum_of_hint),
                all_defs == theo_defs@,
                forall|j: int| 0 <= j < nonhint_theorem@.len() ==> theorem_fits(#[trigger] nonhint_theorem@[j], *puzzle)
                    && image_of(all_defs, nonhint_theorem@[j]) && nonhint_theorem@[j].hints().len() == 0,
                i <= nonhint_theorem@.len(),
                hints_settled(hint_theorem@, *puzzle, sum_of_hint, *side_map, data@, psize.0 as int, 0, 0),
                others_settled(nonhint_theorem@, *puzzle, sum_of_hint, *side_map, data@, i as int, -4294967296int, 0),
            decreases nonhint_theorem.len() - i,
        {
            let theo = &nonhint_theorem[i];
            proof {
                puzzle.lemma_lengths();
                lemma_others_start(nonhint_theorem@, *puzzle, sum_of_hint, *side_map, data@, i as int);
            }
            assert(theorem_fits(nonhint_theorem@[i as int], *puzzle));
            assert(image_of(all_defs, *theo));
            let sz = theo.size();
            let mut r: i32 = 1 - sz.0;
            while r < size.0 + sz.0 - 1
                invariant
                    theo.wf(),
                    sz == theo.spec_size(),
                    theorem_fits(*theo, *puzzle),
                    image_of(all_defs, *theo),
                    size == psize,
                    psize == puzzle.spec_size(),
                    0 < size.0 && 0 < size.1,
                    1 - sz.0 <= r,
                    puzzle.wf(),
                    side_map.wf(),
                    side_map.num_cells() == n,
                    n == psize.spec_cell_len(),
                    n == start.num_cells(),
                    start == *old(side_map),
                    start.keeps(&*side_map),
                    pool_fits(data@, n),
                    pool_sound(*side_map, data@, start, all_defs, *puzzle, sum_of_hint),
                    all_defs == theo_defs@,
                    0 <= i < nonhint_theorem@.len(),
                    *theo == nonhint_theorem@[i as int],
                    theo.hints().len() == 0,
                    hints_settled(hint_theorem@, *puzzle, sum_of_hint, *side_map, data@, psize.0 as int, 0, 0),
                    others_settled(nonhint_theorem@, *puzzle, sum_of_hint, *side_map, data@, i as int, r as int, 1 - sz.1),
                decreases size.0 + sz.0 - 1 - r,
            {
                let mut c: i32 = 1 - sz.1;
                while c < size.1 + sz.1 - 1
                    invariant
                        theo.wf(),
                        sz == theo.spec_size(),
                        theorem_fits(*theo, *puzzle),
                        image_of(all_defs, *theo),
                        size == psize,
                        psize == puzzle.spec_size(),
                        0 < size.0 && 0 < size.1,
                        1 - sz.0 <= r < size.0 + sz.0 - 1,
                        1 - sz.1 <= c,
                        puzzle.wf(),
                        side_map.wf(),
                        side_map.num_cells() == n,
                        n == psize.spec_cell_len(),
                        n == start.num_cells(),
                        start == *old(side_map),
                        start.keeps(&*side_map),
                        pool_fits(data@, n),
                        pool_sound(*side_map, data@, start, all_defs, *puzzle, sum_of_hint),
                        all_defs == theo_defs@,
                        0 <= i < nonhint_theorem@.len(),
                        *theo == nonhint_theorem@[i as int],
                        theo.hints().len() == 0,
                        hints_settled(hint_theorem@, *puzzle, sum_of_hint, *side_map, data@, psize.0 as int, 0, 0),
                        others_settled(nonhint_theorem@, *puzzle, sum_of_hint, *side_map, data@, i as int, r as int, c as int),
                    decreases size.1 + sz.1 - 1 - c,
                {
                    let ghost before = *side_map;
                    let ghost data_b = data@;
                    let res = match_and_update(theo, Move(r, c), puzzle, sum_of_hint, side_map, &mut data);
                    proof {
                        start.lemma_keeps_transitive(&before, &*side_map);
                        assert forall|a: Seq<bool>| start.admits(a) && #[trigger] all_true(all_defs, *puzzle, sum_of_hint, a)
                            implies side_map.admits(a) && all_valid(data@, a) by {
                            assert(true_at(*theo, Move(r, c), *puzzle, sum_of_hint, a));
                        }
                    }
                    if res.is_err() {
                        proof {
                            assert forall|a: Seq<bool>| start.admits(a) && #[trigger] all_true(theo_defs@, *puzzle, sum_of_hint, a)
                                implies side_map.admits(a) by {
                                assert(all_true(all_defs, *puzzle, sum_of_hint, a));
                            }
                        }
                        return Err(Error::invalid_board());
                    }
                    proof {
                        puzzle.lemma_lengths();
                        lemma_match_step(*theo, Move(r, c), *puzzle, sum_of_hint, before, *side_map, data_b, data@);
                        lemma_hints_settled_keeps(hint_theorem@, *puzzle, sum_of_hint, before, *side_map, data_b, data@, psize.0 as int, 0, 0);
                        lemma_others_matched(nonhint_theorem@, *puzzle, sum_of_hint, before, *side_map, data_b, data@, i as int, r, c);
                    }
                    c = c + 1;
                }
                proof {
                    lemma_others_next_row(nonhint_theorem@, *puzzle, sum_of_hint, *side_map, data@, i as int, r as int);
                }
                r = r + 1;
            }
            proof {
                lemma_others_next_theorem(nonhint_theorem@, *puzzle, sum_of_hint, *side_map, data@, i as int);
            }
            i = i + 1;
        }
        let mut pool = TheoremPool { data: data };
        let ghost unmerged = pool.theorems();
        pool.merge_dup();
        proof {
            assert forall|a: Seq<bool>| start.admits(a) && #[trigger] all_true(theo_defs@, *puzzle, sum_of_hint, a)
                implies side_map.admits(a) && all_valid(pool.theorems(), a) by {
                assert(all_true(all_defs, *puzzle, sum_of_hint, a));
                assert(all_valid(unmerged, a));
            }
            assert forall|t: Theorem, d: Move| image_of(theo_defs@, t) && scanned(t, d, psize) implies #[trigger] settled(
                t,
                d,
                *puzzle,
                sum_of_hint,
                *side_map,
                pool.theorems(),
            ) by {
                assert(image_within(all_defs, all_defs.len() as int, t));
                assert(listed(hint_theorem@, nonhint_theorem@, t));
                if t.hints().len() > 0 {
                    let w = choose|w: int| 0 <= w < hint_theorem@.len() && #[trigger] same_theorem(hint_theorem@[w], t);
                    let t0 = hint_theorem@[w];
                    assert(scanned(t0, d, psize));
                    assert(lands_before(t0, d, psize.0 as int, 0));
                    assert(settled(t0, d, *puzzle, sum_of_hint, *side_map, unmerged));
                    lemma_settled_merged(t0, d, *puzzle, sum_of_hint, *side_map, unmerged, pool.theorems());
                } else {
                    let w = choose|w: int| 0 <= w < nonhint_theorem@.len() && #[trigger] same_theorem(nonhint_theorem@[w], t);
                    let t0 = nonhint_theorem@[w];
                    assert(scanned(t0, d, psize));
                    assert(settled(t0, d, *puzzle, sum_of_hint, *side_map, unmerged));
                    lemma_settled_merged(t0, d, *puzzle, sum_of_hint, *side_map, unmerged, pool.theorems());
                }
            }
        }
        Ok(pool)
    }

    /// Merges the partial theorems that expect the same edges, each pair of them met
    /// next to each other once the pool is sorted.
    fn merge_dup(&mut self)
        ensures
            forall|i: int, j: int|
                0 <= i < j < final(self).theorems().len() ==> seq_lt(
                    (#[trigger] final(self).theorems()[i]).matchers(),
                    (#[trigger] final(self).theorems()[j]).matchers(),
                ),
            forall|i: int| 0 <= i < old(self).theorems().len() ==> #[trigger] covered(final(self).theorems(), old(self).theorems()[i]),
            forall|i: int| 0 <= i < final(self).theorems().len() ==> #[trigger] drawn_from(old(self).theorems(), final(self).theorems()[i]),
            forall|n: nat| pool_fits(old(self).theorems(), n) ==> pool_fits(final(self).theorems(), n),
            forall|a: Seq<bool>| all_valid(old(self).theorems(), a) ==> #[trigger] all_valid(final(self).theorems(), a),
    {
        let mut sorted: Vec<PartialTheorem> = Vec::new();
        let ghost start = self.data@;
        while self.data.len() > 0
            invariant
                start == old(self).theorems(),
                self.data@.len() <= start.len(),
                self.data@ == start.subrange(start.len() - self.data@.len(), start.len() as int),
                forall|i: int| 0 <= i < start.len() - self.data@.len() ==> #[trigger] covered(sorted@, start[i]),
                forall|i: int| 0 <= i < sorted@.len() ==> #[trigger] drawn_from(start, sorted@[i]),
                forall|n: nat| pool_fits(start, n) ==> pool_fits(self.data@, n) && pool_fits(sorted@, n),
                forall|a: Seq<bool>| #[trigger] all_valid(start, a) ==> all_valid(self.data@, a) && all_valid(sorted@, a),
                forall|i: int, j: int| 0 <= i < j < sorted@.len() ==> matchers_le(#[trigger] sorted@[i], #[trigger] sorted@[j]),
            decreases self.data.len(),
        {
            let ghost before_data = self.data@;
            let ghost idx = start.len() - before_data.len();
            let t = self.data.remove(0);
            proof {
                assert(t == start[idx]);
                assert(self.data@ =~= start.subrange(start.len() - self.data@.len(), start.len() as int));
            }
            let mut k: usize = 0;
            while k < sorted.len() && sorted[k].less_than(&t)
                invariant
                    k <= sorted.len(),
                    forall|i: int| 0 <= i < k ==> matchers_le(#[trigger] sorted@[i], t),
                decreases sorted.len() - k,
            {
                k = k + 1;
            }
            let ghost before = sorted@;
            proof {
                if k < before.len() {
                    lemma_seq_lt_order(t.matchers(), before[k as int].matchers(), t.matchers());
                    assert(matchers_le(t, before[k as int]));
                }
            }
            sorted.insert(k, t);
            proof {
                assert forall|i: int| 0 <= i < start.len() - self.data@.len() implies #[trigger] covered(sorted@, start[i]) by {
                    if i == idx {
                        assert(sorted@[k as int] == t);
                    } else {
                        assert(covered(before, start[i]));
                        let j = choose|j: int|
                            0 <= j < before.len() && before[j].matchers() == start[i].matchers() && forall|e: EdgePattern<CellId>|
                                start[i].results().contains(e) ==> #[trigger] before[j].results().contains(e);
                        if j < k {
                            assert(sorted@[j] == before[j]);
                        } else {
                            assert(sorted@[j + 1] == before[j]);
                        }
                    }
                }
                assert forall|i: int| 0 <= i < sorted@.len() implies #[trigger] drawn_from(start, sorted@[i]) by {
                    if i < k {
                        assert(sorted@[i] == before[i]);
                        assert(drawn_from(start, before[i]));
                    } else if i == k {
                        assert(start[idx] == sorted@[i]);
                    } else {
                        assert(sorted@[i] == before[i - 1]);
                        assert(drawn_from(start, before[i - 1]));
                    }
                }
                assert forall|i: int, j: int| 0 <= i < j < sorted@.len() implies matchers_le(
                    #[trigger] sorted@[i],
                    #[trigger] sorted@[j],
                ) by {
                    if j < k {
                        assert(sorted@[i] == before[i] && sorted@[j] == before[j]);
                    } else if j == k {
                        assert(sorted@[i] == before[i]);
                    } else if i < k {
                        assert(sorted@[i] == before[i] && sorted@[j] == before[j - 1]);
                        lemma_matchers_le_trans(before[i], t, before[k as int]);
                        lemma_matchers_le_trans(before[i], before[k as int], before[j - 1]);
                    } else if i == k {
                        assert(sorted@[j] == before[j - 1]);
                        lemma_matchers_le_trans(t, before[k as int], before[j - 1]);
                    } else {
                        assert(sorted@[i] == before[i - 1] && sorted@[j] == before[j - 1]);
                    }
                }
                assert forall|n: nat| pool_fits(start, n) implies pool_fits(self.data@, n) && pool_fits(sorted@, n) by {
                    assert forall|i: int| 0 <= i < sorted@.len() implies all_fit((#[trigger] sorted@[i]).matchers(), n)
                        && all_fit(sorted@[i].results(), n) by {
                        if i < k {
                            assert(sorted@[i] == before[i]);
                        } else if i > k {
                            assert(sorted@[i] == before[i - 1]);
                        }
                    }
                }
                assert forall|a: Seq<bool>| #[trigger] all_valid(start, a) implies all_valid(self.data@, a) && all_valid(
                    sorted@,
                    a,
                ) by {
                    assert(valid_for(before_data[0], a));
                    assert forall|i: int| 0 <= i < self.data@.len() implies valid_for(#[trigger] self.data@[i], a) by {
                        assert(self.data@[i] == before_data[i + 1]);
                    }
                    assert forall|i: int| 0 <= i < sorted@.len() implies valid_for(#[trigger] sorted@[i], a) by {
                        if i < k {
                            assert(sorted@[i] == before[i]);
                        } else if i > k {
                            assert(sorted@[i] == before[i - 1]);
                        }
                    }
                }
            }
        }
        let mut out: Vec<PartialTheorem> = Vec::new();
        while sorted.len() > 0
            invariant
                forall|n: nat| pool_fits(start, n) ==> pool_fits(sorted@, n) && pool_fits(out@, n),
                forall|a: Seq<bool>| #[trigger] all_valid(start, a) ==> all_valid(sorted@, a) && all_valid(out@, a),
                forall|i: int, j: int| 0 <= i < j < sorted@.len() ==> matchers_le(#[trigger] sorted@[i], #[trigger] sorted@[j]),
                forall|i: int, j: int|
                    0 <= i < j < out@.len() ==> seq_lt((#[trigger] out@[i]).matchers(), (#[trigger] out@[j]).matchers()),
                out@.len() > 0 ==> forall|j: int| 0 <= j < sorted@.len() ==> matchers_le(out@.last(), #[trigger] sorted@[j]),
                start == old(self).theorems(),
                forall|i: int| 0 <= i < start.len() ==> #[trigger] covered(out@, start[i]) || covered(sorted@, start[i]),
                forall|i: int| 0 <= i < sorted@.len() ==> #[trigger] drawn_from(start, sorted@[i]),
                forall|i: int| 0 <= i < out@.len() ==> #[trigger] drawn_from(start, out@[i]),
            decreases sorted.len(),
        {
            let ghost before_sorted = sorted@;
            let ghost before_out = out@;
            let t = sorted.remove(0);
            proof {
                assert forall|i: int| 0 <= i < sorted@.len() implies #[trigger] drawn_from(start, sorted@[i]) by {
                    assert(sorted@[i] == before_sorted[i + 1]);
                    assert(drawn_from(start, before_sorted[i + 1]));
                }
                assert(t == before_sorted[0]);
                assert forall|i: int, j: int| 0 <= i < j < sorted@.len() implies matchers_le(
                    #[trigger] sorted@[i],
                    #[trigger] sorted@[j],
                ) by {
                    assert(sorted@[i] == before_sorted[i + 1] && sorted@[j] == before_sorted[j + 1]);
                }
                assert forall|j: int| 0 <= j < sorted@.len() implies matchers_le(t, #[trigger] sorted@[j]) by {
                    assert(sorted@[j] == before_sorted[j + 1]);
                }
            }
            let len = out.len();
            if len > 0 {
                let ghost last = out@[len - 1];
                proof {
                    assert(matchers_le(last, before_sorted[0]));
                }
                let merged = out[len - 1].merge(&t);
                match merged {
                    Ok(()) => {},
                    Err(()) => {
                        out.push(t);
                    },
                }
                proof {
                    if merged is Ok {
                        assert(out@.len() == len);
                        assert forall|i: int, j: int| 0 <= i < j < out@.len() implies seq_lt(
                            (#[trigger] out@[i]).matchers(),
                            (#[trigger] out@[j]).matchers(),
                        ) by {
                            assert(before_out[i].matchers() == out@[i].matchers());
                            assert(before_out[j].matchers() == out@[j].matchers());
                        }
                        assert forall|j: int| 0 <= j < sorted@.len() implies matchers_le(out@.last(), #[trigger] sorted@[j]) by {
                            assert(out@.last().matchers() == last.matchers());
                            assert(matchers_le(last, sorted@[j]));
                        }
                    } else {
                        assert(out@.len() == len + 1);
                        lemma_seq_lt_order(last.matchers(), t.matchers(), t.matchers());
                        assert(seq_lt(last.matchers(), t.matchers()));
                        assert forall|i: int, j: int| 0 <= i < j < out@.len() implies seq_lt(
                            (#[trigger] out@[i]).matchers(),
                            (#[trigger] out@[j]).matchers(),
                        ) by {
                            if j < len {
                                assert(out@[i].matchers() == before_out[i].matchers());
                                assert(out@[j].matchers() == before_out[j].matchers());
                            } else if i < len - 1 {
                                assert(out@[i] == before_out[i] && out@[j] == t);
                                assert(seq_lt(before_out[i].matchers(), before_out[len - 1].matchers()));
                                lemma_seq_lt_order(before_out[i].matchers(), last.matchers(), t.matchers());
                            } else {
                                assert(out@[i].matchers() == last.matchers() && out@[j] == t);
                            }
                        }
                        assert(out@.last() == t);
                    }
                    assert(sorted@ == before_sorted.drop_first());
                    assert(drawn_from(start, before_sorted[0]));
                    assert forall|i: int| 0 <= i < before_out.len() implies (#[trigger] out@[i]).matchers() == before_out[i].matchers()
                        && forall|e: EdgePattern<CellId>| before_out[i].results().contains(e) ==> #[trigger] out@[i].results().contains(e) by {
                        if i < len - 1 {
                            assert(out@[i] == before_out[i]);
                        }
                    }
                    if merged is Ok {
                        assert(out@.last() == out@[len - 1]);
                    }
                    lemma_cover_step(start, before_out, before_sorted, out@, sorted@, t);
                }
                proof {
                    assert forall|n: nat| pool_fits(start, n) implies pool_fits(sorted@, n) && pool_fits(out@, n) by {
                        assert forall|i: int| 0 <= i < out@.len() implies all_fit((#[trigger] out@[i]).matchers(), n)
                            && all_fit(out@[i].results(), n) by {
                            if i == len - 1 {
                                assert forall|j: int| 0 <= j < out@[i].results().len() implies (#[trigger] out@[i].results()[j]).fits(n) by {
                                    let e = out@[i].results()[j];
                                    assert(out@[i].results().contains(e));
                                }
                            }
                        }
                    }
                    assert forall|a: Seq<bool>| #[trigger] all_valid(start, a) implies all_valid(sorted@, a) && all_valid(
                        out@,
                        a,
                    ) by {
                        assert(valid_for(before_sorted[0], a));
                        assert(valid_for(before_out[len - 1], a));
                        assert forall|i: int| 0 <= i < sorted@.len() implies valid_for(#[trigger] sorted@[i], a) by {
                            assert(sorted@[i] == before_sorted[i + 1]);
                        }
                        assert forall|i: int| 0 <= i < out@.len() implies valid_for(#[trigger] out@[i], a) by {
                            if i < len - 1 {
                                assert(out@[i] == before_out[i]);
                            } else if i == len - 1 {
                                if merged is Ok && all_hold(a, out@[i].matchers()) {
                                    assert forall|j: int| 0 <= j < out@[i].results().len() implies crate::theorem::holds(
                                        a,
                                        #[trigger] out@[i].results()[j],
                                    ) by {
                                        let e = out@[i].results()[j];
                                        assert(out@[i].results().contains(e));
                                        if last.results().contains(e) {
                                            let x = choose|x: int| 0 <= x < last.results().len() && last.results()[x] == e;
                                            assert(crate::theorem::holds(a, last.results()[x]));
                                        } else {
                                            let x = choose|x: int| 0 <= x < t.results().len() && t.results()[x] == e;
                                            assert(crate::theorem::holds(a, t.results()[x]));
                                        }
                                    }
                                }
                            }
                        }
                    }
                }
            } else {
                out.push(t);
                proof {
                    assert(out@.last() == t);
                    assert(sorted@ == before_sorted.drop_first());
                    assert(drawn_from(start, before_sorted[0]));
                    lemma_cover_step(start, before_out, before_sorted, out@, sorted@, t);
                    assert forall|a: Seq<bool>| #[trigger] all_valid(start, a) implies all_valid(sorted@, a) && all_valid(
                        out@,
                        a,
                    ) by {
                        assert(valid_for(before_sorted[0], a));
                        assert forall|i: int| 0 <= i < sorted@.len() implies valid_for(#[trigger] sorted@[i], a) by {
                            assert(sorted@[i] == before_sorted[i + 1]);
                        }
                    }
                }
            }
        }
        self.data = out;
    }

    /// Matches every partial theorem again: concluded edges go into the side map and the
    /// theorems still waiting stay in the pool.
    pub fn apply_all(&mut self, side_map: &mut SideMap) -> (r: SolverResult<()>)
        requires
            old(side_map).wf(),
            pool_fits(old(self).theorems(), old(side_map).num_cells()),
        ensures
            final(side_map).wf(),
            final(side_map).num_cells() == old(side_map).num_cells(),
            old(side_map).keeps(&*final(side_map)),
            pool_fits(final(self).theorems(), old(side_map).num_cells()),
            r is Err ==> r->Err_0.spec_kind() == ErrorKind::InvalidBoard,
            r is Err ==> forall|a: Seq<bool>| !#[trigger] final(side_map).admits(a),
            forall|i: int|
                0 <= i < final(self).theorems().len() ==> #[trigger] narrows_one(*old(side_map), old(self).theorems(), final(self).theorems()[i]),
            forall|a: Seq<bool>|
                old(side_map).admits(a) && all_valid(old(self).theorems(), a) ==> #[trigger] final(side_map).admits(a)
                    && all_valid(final(self).theorems(), a),
    {
        let ghost start = *side_map;
        let ghost n = start.num_cells();
        let ghost start_pool = self.data@;
        proof {
            lemma_same_view_refl(start);
        }
        let mut pending: Vec<PartialTheorem> = Vec::new();
        std::mem::swap(&mut pending, &mut self.data);
        while pending.len() > 0
            invariant
                side_map.wf(),
                side_map.num_cells() == n,
                n == start.num_cells(),
                start == *old(side_map),
                start.keeps(&*side_map),
                pool_fits(pending@, n),
                pool_fits(self.data@, n),
                start_pool == old(self).theorems(),
                pending@.len() <= start_pool.len(),
                pending@ == start_pool.subrange(start_pool.len() - pending@.len(), start_pool.len() as int),
                forall|i: int| 0 <= i < self.data@.len() ==> #[trigger] narrows_one(start, start_pool, self.data@[i]),
                forall|a: Seq<bool>|
                    start.admits(a) && all_valid(start_pool, a) ==> #[trigger] side_map.admits(a) && all_valid(pending@, a)
                        && all_valid(self.data@, a),
            decreases pending.len(),
        {
            let ghost before_pending = pending@;
            let ghost idx = start_pool.len() - before_pending.len();
            let matcher = pending.remove(0);
            assert(matcher == before_pending[0]);
            assert(matcher == start_pool[idx]);
            assert(pending@ =~= start_pool.subrange(start_pool.len() - pending@.len(), start_pool.len() as int));
            assert(all_fit(matcher.matchers(), n) && all_fit(matcher.results(), n));
            assert forall|i: int| 0 <= i < pending@.len() implies all_fit((#[trigger] pending@[i]).matchers(), n)
                && all_fit(pending@[i].results(), n) by {
                assert(pending@[i] == before_pending[i + 1]);
            }
            let ghost before = *side_map;
            let m = match matcher.matches(side_map) {
                Ok(m) => m,
                Err(e) => {
                    proof {
                        lemma_same_view_keeps(before, *side_map);
                        start.lemma_keeps_transitive(&before, &*side_map);
                        Error::lemma_invalid_board_kind();
                        let cs = matcher.matchers();
                        let k = first_bad(before, cs, 0);
                        crate::theorem::lemma_first_bad(before, cs, 0);
                        assert forall|a: Seq<bool>| !#[trigger] side_map.admits(a) by {
                            if side_map.admits(a) {
                                crate::side_map::lemma_same_view_admits(*side_map, before, a);
                                crate::side_map::lemma_conflict_admits_none(
                                    before,
                                    a,
                                    cs[k].spec_points().0.spec_id(),
                                    cs[k].spec_points().1.spec_id(),
                                );
                            }
                        }
                        assert forall|a: Seq<bool>| start.admits(a) && all_valid(start_pool, a) implies #[trigger] side_map.admits(a)
                            && all_valid(self.data@, a) by {
                            assert(before.admits(a));
                        }
                    }
                    return Err(e);
                },
            };
            let ghost mid = *side_map;
            proof {
                lemma_same_view_keeps(before, mid);
                crate::theorem::lemma_unknown_fit(before, matcher.matchers(), n);
            }
            let ghost old_data = self.data@;
            m.update(side_map, &mut self.data);
            proof {
                before.lemma_keeps_transitive(&mid, &*side_map);
                start.lemma_keeps_transitive(&before, &*side_map);
                assert forall|i: int| 0 <= i < self.data@.len() implies #[trigger] narrows_one(start, start_pool, self.data@[i]) by {
                    if i < old_data.len() {
                        assert(self.data@[i] == old_data[i]);
                    } else if let MatchResult::Partial(t) = m {
                        let cs = matcher.matchers();
                        assert(self.data@[i] == t);
                        lemma_unknown_status(before, cs);
                        crate::theorem::lemma_unknown_contains(before, cs);
                        assert forall|k: int| 0 <= k < t.matchers().len() implies cs.contains(#[trigger] t.matchers()[k])
                            && pattern_status(start, t.matchers()[k]) == 1 by {
                            assert(unknown_patterns(before, cs).contains(t.matchers()[k]));
                            assert(t.matchers()[k].fits(n));
                            lemma_unknown_kept(start, before, t.matchers()[k]);
                        }
                        assert(narrows(start, start_pool[idx], t));
                    }
                }
                assert forall|i: int| 0 <= i < self.data@.len() implies all_fit((#[trigger] self.data@[i]).matchers(), n)
                    && all_fit(self.data@[i].results(), n) by {
                    if i < old_data.len() {
                        assert(self.data@[i] == old_data[i]);
                    }
                }
                assert forall|a: Seq<bool>| start.admits(a) && all_valid(start_pool, a) implies #[trigger] side_map.admits(a)
                    && all_valid(pending@, a) && all_valid(self.data@, a) by {
                    assert(before.admits(a));
                    assert(valid_for(before_pending[0], a));
                    assert forall|i: int| 0 <= i < pending@.len() implies valid_for(#[trigger] pending@[i], a) by {
                        assert(pending@[i] == before_pending[i + 1]);
                    }
                    assert(mid.admits(a));
                    crate::theorem::lemma_first_bad(before, matcher.matchers(), 0);
                    match m {
                        MatchResult::Complete(v) => {
                            crate::theorem::lemma_complete_holds(before, a, matcher.matchers());
                        },
                        MatchResult::Partial(t) => {
                            crate::theorem::lemma_partial_valid(before, a, matcher, t);
                            assert forall|i: int| 0 <= i < self.data@.len() implies valid_for(#[trigger] self.data@[i], a) by {
                                if i < old_data.len() {
                                    assert(self.data@[i] == old_data[i]);
                                }
                            }
                        },
                        MatchResult::Conflict => {},
                    }
                }
            }
        }
        Ok(())
    }
    /// A copy of the pool.
    pub fn duplicate(&self) -> (r: TheoremPool)
        ensures
            r.theorems().len() == self.theorems().len(),
            forall|k: int| 0 <= k < self.theorems().len() ==> (#[trigger] r.theorems()[k]).matchers()
                == self.theorems()[k].matchers() && r.theorems()[k].results() == self.theorems()[k].results(),
    {
        let mut data: Vec<PartialTheorem> = Vec::new();
        let mut i: usize = 0;
        while i < self.data.len()
            invariant
                i <= self.data@.len(),
                data@.len() == i,
                forall|k: int| 0 <= k < i ==> (#[trigger] data@[k]).matchers() == self.data@[k].matchers()
                    && data@[k].results() == self.data@[k].results(),
            decreases self.data@.len() - i,
        {
            data.push(self.data[i].duplicate());
            i = i + 1;
        }
        TheoremPool { data: data }
    }

}

} // verus!
