//! The search for solutions: fill in what follows for certain, try each unknown area on
//! both sides, and branch when nothing more follows.
use vstd::prelude::*;

use crate::geom::CellId;
use crate::model::{Error, SolverResult, State};
use crate::puzzle::Puzzle;
use crate::side_map::SideMap;
use crate::solver::{respects, Solver};
use crate::theorem::{all_fit, lemma_same_view_refl, pattern_status, Theorem};
use crate::theorem_define::{definition_texts, theorem_define};
use crate::theorem_parse::{shows_theorem, theorem_result};
use crate::side_map::agrees;
use crate::theorem_pool::all_true;
use crate::theorem_pool::{
    fits_puzzle, lemma_same_view_keeps, lemma_unknown_same_revision, narrows, narrows_one, theorem_fits, waits_on_unknown,
};

verus! {

/// Three to the power `n`.
pub open spec fn pow3(n: nat) -> nat
    decreases n,
{
    if n == 0 {
        1
    } else {
        3 * pow3((n - 1) as nat)
    }
}

/// Powers of three grow with the exponent and are positive.
pub proof fn lemma_pow3_mono(a: nat, b: nat)
    requires
        a <= b,
    ensures
        1 <= pow3(a) <= pow3(b),
    decreases b,
{
    if b > 0 {
        if a < b {
            lemma_pow3_mono(a, (b - 1) as nat);
        } else {
            lemma_pow3_mono((a - 1) as nat, (b - 1) as nat);
        }
    }
}

/// The work left in a queue of solvers: the sum of three to the power of the number of
/// classes of each side map.
pub open spec fn queue_measure<'a>(q: Seq<Solver<'a>>) -> nat
    decreases q.len(),
{
    if q.len() == 0 {
        0
    } else {
        queue_measure(q.drop_last()) + pow3(q.last().map().classes())
    }
}

/// What filling a solver gave: a filled board, or a board still open with the cells to
/// try.
enum FillResult<'a> {
    Completed(Solver<'a>),
    Partial(Solver<'a>, Vec<CellId>),
}

/// Applies the theorems and the connection analysis until nothing more follows or every
/// cell is known.
fn fill_absolutely_fixed(solver: &mut Solver) -> (r: SolverResult<()>)
    requires
        old(solver).wf(),
    ensures
        final(solver).wf(),
        final(solver).spec_puzzle() == old(solver).spec_puzzle(),
        old(solver).map().keeps(&final(solver).map()),
        r is Err ==> r->Err_0 == Error::spec_invalid_board(),
        r is Ok ==> final(solver).map().spec_revision() == final(solver).map().spec_max_revision() || waits_on_unknown(
            final(solver).map(),
            final(solver).pool(),
        ),
{
    let ghost s0 = solver.map();
    proof {
        solver.lemma_wf();
        lemma_same_view_refl(s0);
    }
    while !solver.all_filled()
        invariant
            solver.wf(),
            solver.spec_puzzle() == old(solver).spec_puzzle(),
            s0 == old(solver).map(),
            s0.keeps(&solver.map()),
        ensures
            solver.wf(),
            solver.spec_puzzle() == old(solver).spec_puzzle(),
            s0.keeps(&solver.map()),
            solver.map().spec_revision() == solver.map().spec_max_revision() || waits_on_unknown(solver.map(), solver.pool()),
        decreases solver.map().classes(),
    {
        let ghost pool0 = solver.pool();
        let rev = solver.revision();
        let ghost m0 = solver.map();
        match solver.apply_all_theorem() {
            Ok(()) => {},
            Err(e) => {
                proof {
                    s0.lemma_keeps_transitive(&m0, &solver.map());
                }
                return Err(e);
            },
        }
        proof {
            s0.lemma_keeps_transitive(&m0, &solver.map());
        }
        if solver.revision() != rev {
            continue;
        }
        let ghost m1 = solver.map();
        match solver.connect_analysis() {
            Ok(()) => {},
            Err(e) => {
                proof {
                    s0.lemma_keeps_transitive(&m1, &solver.map());
                }
                return Err(e);
            },
        }
        proof {
            s0.lemma_keeps_transitive(&m1, &solver.map());
            m0.lemma_keeps_transitive(&m1, &solver.map());
        }
        if solver.revision() != rev {
            continue;
        }
        proof {
            let pool1 = solver.pool();
            let m2 = solver.map();
            solver.lemma_wf();
            assert forall|i: int, k: int|
                0 <= i < pool1.len() && 0 <= k < pool1[i].matchers().len() implies pattern_status(
                m2,
                #[trigger] pool1[i].matchers()[k],
            ) == 1 by {
                assert(narrows_one(m0, pool0, pool1[i]));
                let j = choose|j: int| 0 <= j < pool0.len() && narrows(m0, pool0[j], pool1[i]);
                assert(narrows(m0, pool0[j], pool1[i]));
                assert(all_fit(pool1[i].matchers(), m2.num_cells()));
                lemma_unknown_same_revision(m0, m2, pool1[i].matchers()[k]);
            }
        }
        break;
    }
    Ok(())
}

/// Tries each of `pts` still unknown on both sides: a side that leads to a contradiction
/// fixes the other one. Returns whether anything changed.
fn fill_by_shallow_backtracking(solver: &mut Solver, pts: &Vec<CellId>) -> (r: SolverResult<bool>)
    requires
        old(solver).wf(),
        forall|i: int| 0 <= i < pts@.len() ==> (#[trigger] pts@[i]).spec_id() < old(solver).map().num_cells(),
    ensures
        final(solver).wf(),
        final(solver).spec_puzzle() == old(solver).spec_puzzle(),
        old(solver).map().keeps(&final(solver).map()),
        r matches Ok(b) ==> b == (final(solver).map().spec_revision() != old(solver).map().spec_revision()),
        r is Err ==> r->Err_0 == Error::spec_invalid_board(),
{
    let ghost s0 = solver.map();
    proof {
        solver.lemma_wf();
        lemma_same_view_refl(s0);
    }
    let rev = solver.revision();
    let mut k: usize = 0;
    while k < pts.len()
        invariant
            k <= pts@.len(),
            solver.wf(),
            solver.spec_puzzle() == old(solver).spec_puzzle(),
            s0 == old(solver).map(),
            rev == s0.spec_revision(),
            s0.keeps(&solver.map()),
            forall|i: int| 0 <= i < pts@.len() ==> (#[trigger] pts@[i]).spec_id() < s0.num_cells(),
        decreases pts@.len() - k,
    {
        let p = pts[k];
        k = k + 1;
        let ghost m0 = solver.map();
        let st = solver.get_side(p);
        proof {
            lemma_same_view_keeps(m0, solver.map());
            s0.lemma_keeps_transitive(&m0, &solver.map());
        }
        match st {
            State::Fixed(_) => {
                continue;
            },
            State::Unknown => {},
            State::Conflict => {
                return Err(Error::invalid_board());
            },
        }
        let ghost m1 = solver.map();
        let mut solver_in = solver.duplicate();
        let ghost d1 = solver_in.map();
        solver_in.set_inside(p);
        proof {
            lemma_same_view_keeps(m1, d1);
            m1.lemma_keeps_transitive(&d1, &solver_in.map());
        }
        let ghost d2 = solver_in.map();
        if fill_absolutely_fixed(&mut solver_in).is_err() {
            let ghost m2 = solver.map();
            solver.set_outside(p);
            proof {
                s0.lemma_keeps_transitive(&m2, &solver.map());
            }
            let ghost m3 = solver.map();
            match fill_absolutely_fixed(solver) {
                Ok(()) => {},
                Err(e) => {
                    proof {
                        s0.lemma_keeps_transitive(&m3, &solver.map());
                    }
                    return Err(e);
                },
            }
            proof {
                s0.lemma_keeps_transitive(&m3, &solver.map());
            }
            continue;
        }
        let mut solver_out = solver.duplicate();
        solver_out.set_outside(p);
        if fill_absolutely_fixed(&mut solver_out).is_err() {
            proof {
                m1.lemma_keeps_transitive(&d2, &solver_in.map());
                s0.lemma_keeps_transitive(&m1, &solver_in.map());
            }
            *solver = solver_in;
        }
    }
    Ok(solver.revision() != rev)
}

/// Fills what follows for certain, then what shallow trials decide, until the board is
/// filled or nothing more changes.
fn fill<'a>(init: Solver<'a>) -> (r: SolverResult<FillResult<'a>>)
    requires
        init.wf(),
    ensures
        r matches Ok(FillResult::Completed(s)) ==> s.wf() && s.spec_puzzle() == init.spec_puzzle() && init.map().keeps(
            &s.map(),
        ) && s.map().spec_revision() == s.map().spec_max_revision(),
        r matches Ok(FillResult::Partial(s, pts)) ==> s.wf() && s.spec_puzzle() == init.spec_puzzle()
            && init.map().keeps(&s.map()) && forall|i: int|
            0 <= i < pts@.len() ==> (#[trigger] pts@[i]).spec_id() < s.map().num_cells(),
        r is Err ==> r->Err_0 == Error::spec_invalid_board(),
{
    let mut solver = init;
    let ghost s0 = solver.map();
    match fill_absolutely_fixed(&mut solver) {
        Ok(()) => {},
        Err(e) => {
            return Err(e);
        },
    }
    assert(init.map().keeps(&solver.map()));
    if solver.all_filled() {
        return Ok(FillResult::Completed(solver));
    }
    let ghost m0 = solver.map();
    let mut pts = solver.get_unknown_points();
    proof {
        lemma_same_view_keeps(m0, solver.map());
        s0.lemma_keeps_transitive(&m0, &solver.map());
    }
    loop
        invariant
            solver.wf(),
            solver.spec_puzzle() == init.spec_puzzle(),
            s0 == init.map(),
            s0.keeps(&solver.map()),
            forall|i: int| 0 <= i < pts@.len() ==> (#[trigger] pts@[i]).spec_id() < solver.map().num_cells(),
        decreases solver.map().classes(),
    {
        let ghost m1 = solver.map();
        let changed = match fill_by_shallow_backtracking(&mut solver, &pts) {
            Ok(b) => b,
            Err(e) => {
                return Err(e);
            },
        };
        proof {
            s0.lemma_keeps_transitive(&m1, &solver.map());
        }
        if !changed {
            break;
        }
        if solver.all_filled() {
            return Ok(FillResult::Completed(solver));
        }
        let ghost m2 = solver.map();
        pts = solver.get_unknown_points();
        proof {
            lemma_same_view_keeps(m2, solver.map());
            s0.lemma_keeps_transitive(&m2, &solver.map());
            m1.lemma_keeps_transitive(&m2, &solver.map());
        }
    }
    Ok(FillResult::Partial(solver, pts))
}

/// Every theorem definition parses, and every theorem it gives fits the puzzle.
pub open spec fn definitions_fit(puzzle: Puzzle) -> bool {
    forall|i: int|
        0 <= i < definition_texts().len() ==> #[trigger] theorem_result(definition_texts()[i]@) is Ok && {
            let d = theorem_result(definition_texts()[i]@)->Ok_0;
            2 * (d.0.0 + d.0.1) + puzzle.spec_size().0 + puzzle.spec_size().1 + 4 < i32::MAX
        }
}

/// The theorems `ts` are those the definitions give, in order.
pub open spec fn shows_definitions(ts: Seq<Theorem>) -> bool {
    &&& ts.len() == definition_texts().len()
    &&& forall|i: int| 0 <= i < ts.len() ==> #[trigger] shows_theorem(ts[i], theorem_result(definition_texts()[i]@)->Ok_0)
}

/// The solutions of a puzzle, found one by one.
pub struct Solutions<'a> {
    queue: Vec<Solver<'a>>,
    puzzle: Ghost<Puzzle>,
}

impl<'a> Solutions<'a> {
    /// The puzzle whose solutions these are.
    pub closed spec fn spec_puzzle(&self) -> Puzzle {
        self.puzzle@
    }

    /// The number of boards still waiting to be searched.
    pub closed spec fn waiting(&self) -> nat {
        self.queue@.len()
    }

    /// Every waiting solver is consistent and works on the puzzle.
    pub closed spec fn wf(&self) -> bool {
        forall|i: int|
            0 <= i < self.queue@.len() ==> (#[trigger] self.queue@[i]).wf() && self.queue@[i].spec_puzzle() == self.puzzle@
    }

    /// The search over the solutions of `puzzle`, with the theorem definitions; fails when
    /// what the puzzle states contradicts itself (or a definition does not apply to it).
    pub fn new(puzzle: &'a Puzzle) -> (r: SolverResult<Solutions<'a>>)
        requires
            puzzle.wf(),
        ensures
            r matches Ok(s) ==> s.wf() && s.spec_puzzle() == *puzzle,
            r is Err ==> r->Err_0 == Error::spec_invalid_board(),
            definitions_fit(*puzzle) && (forall|ts: Seq<Theorem>|
                #[trigger] shows_definitions(ts) ==> exists|a: Seq<bool>|
                    agrees(a, *puzzle) && all_true(ts, *puzzle, puzzle.spec_sum_of_hint() as u32, a)) ==> r is Ok,
    {
        let defs = theorem_define();
        let mut theorems: Vec<Theorem> = Vec::new();
        let mut i: usize = 0;
        while i < defs.len()
            invariant
                i <= defs@.len(),
                puzzle.wf(),
                defs@ == definition_texts(),
                theorems@.len() == i,
                forall|j: int| 0 <= j < theorems@.len() ==> theorem_fits(#[trigger] theorems@[j], *puzzle),
                forall|j: int|
                    0 <= j < i ==> #[trigger] shows_theorem(theorems@[j], theorem_result(definition_texts()[j]@)->Ok_0),
            decreases defs@.len() - i,
        {
            match Theorem::parse(defs[i]) {
                Ok(t) => {
                    if !fits_puzzle(&t, puzzle) {
                        proof {
                            assert(!(theorem_result(definition_texts()[i as int]@) is Ok && {
                                let d = theorem_result(definition_texts()[i as int]@)->Ok_0;
                                2 * (d.0.0 + d.0.1) + puzzle.spec_size().0 + puzzle.spec_size().1 + 4 < i32::MAX
                            }));
                        }
                        return Err(Error::invalid_board());
                    }
                    let ghost before = theorems@;
                    theorems.push(t);
                    proof {
                        assert forall|j: int|
                            0 <= j < i + 1 implies #[trigger] shows_theorem(theorems@[j], theorem_result(definition_texts()[j]@)->Ok_0) by {
                            if j < i {
                                assert(theorems@[j] == before[j]);
                            }
                        }
                    }
                },
                Err(_) => {
                    proof {
                        assert(!(theorem_result(definition_texts()[i as int]@) is Ok));
                    }
                    return Err(Error::invalid_board());
                },
            }
            i = i + 1;
        }
        proof {
            assert(shows_definitions(theorems@));
        }
        let solver = match Solver::new(puzzle, theorems) {
            Ok(s) => s,
            Err(e) => {
                return Err(e);
            },
        };
        let mut queue: Vec<Solver<'a>> = Vec::new();
        queue.push(solver);
        Ok(Solutions { queue: queue, puzzle: Ghost(*puzzle) })
    }

    /// The next solution: the puzzle with every side and edge filled, or `None` when no
    /// other is left.
    pub fn next(&mut self) -> (r: Option<Puzzle>)
        requires
            old(self).wf(),
        ensures
            final(self).wf(),
            final(self).spec_puzzle() == old(self).spec_puzzle(),
            r matches Some(p) ==> p.wf() && respects(old(self).spec_puzzle(), p),
            r is None ==> final(self).waiting() == 0,
            old(self).waiting() == 0 ==> r is None,
    {
        loop
            invariant
                self.wf(),
                self.spec_puzzle() == old(self).spec_puzzle(),
                old(self).waiting() == 0 ==> self.queue@.len() == 0,
            decreases queue_measure(self.queue@),
        {
            let ghost q0 = self.queue@;
            let popped = self.queue.pop();
            let solver = match popped {
                Some(s) => s,
                None => {
                    return None;
                },
            };
            let ghost c0 = solver.map().classes();
            proof {
                assert(self.queue@ == q0.drop_last());
                assert(solver == q0.last());
                assert(self.queue@.len() + 1 == q0.len());
                assert forall|i: int| 0 <= i < self.queue@.len() implies (#[trigger] self.queue@[i]).wf()
                    && self.queue@[i].spec_puzzle() == self.puzzle@ by {
                    assert(self.queue@[i] == q0[i]);
                }
                assert(solver.wf()) by {
                    assert(q0[q0.len() - 1].wf());
                }
                lemma_pow3_mono(0, c0);
            }
            let (solver, pts) = match fill(solver) {
                Ok(FillResult::Completed(s)) => {
                    let mut s = s;
                    if s.validate_result().is_err() {
                        continue;
                    }
                    match s.into_puzzle() {
                        Ok(result) => {
                            return Some(result);
                        },
                        Err(_) => {
                            continue;
                        },
                    }
                },
                Ok(FillResult::Partial(s, pts)) => (s, pts),
                Err(_) => {
                    continue;
                },
            };
            let ghost c1 = solver.map().classes();
            if pts.len() == 0 {
                continue;
            }
            let p = pts[pts.len() - 1];
            let mut solver_in = solver.duplicate();
            let ghost d_in = solver_in.map();
            let mut solver_out = solver;
            let ghost d_out = solver_out.map();
            let changed_in = solver_in.set_inside(p);
            let changed_out = solver_out.set_outside(p);
            let ghost c_in = solver_in.map().classes();
            let ghost c_out = solver_out.map().classes();
            let ghost before_push = self.queue@;
            if changed_in {
                self.queue.push(solver_in);
                proof {
                    assert(self.queue@.drop_last() == before_push);
                }
            }
            let ghost mid = self.queue@;
            if changed_out {
                self.queue.push(solver_out);
                proof {
                    assert(self.queue@.drop_last() == mid);
                }
            }
            proof {
                assert forall|i: int| 0 <= i < self.queue@.len() implies (#[trigger] self.queue@[i]).wf()
                    && self.queue@[i].spec_puzzle() == self.puzzle@ by {
                    if i < before_push.len() {
                        assert(self.queue@[i] == before_push[i]);
                    } else if i < mid.len() {
                        assert(self.queue@[i] == mid[i]);
                    }
                }
                assert(d_in.classes() == c1 && d_out.classes() == c1);
                assert(queue_measure(q0) == queue_measure(q0.drop_last()) + pow3(c0));
                assert(before_push == q0.drop_last());
                if changed_in {
                    assert(c_in < c1);
                    lemma_pow3_mono(c_in, (c1 - 1) as nat);
                    assert(queue_measure(mid) == queue_measure(before_push) + pow3(c_in));
                } else {
                    assert(mid == before_push);
                }
                if changed_out {
                    assert(c_out < c1);
                    lemma_pow3_mono(c_out, (c1 - 1) as nat);
                    assert(queue_measure(self.queue@) == queue_measure(mid) + pow3(c_out));
                } else {
                    assert(self.queue@ == mid);
                }
                if c1 > 0 {
                    lemma_pow3_mono((c1 - 1) as nat, (c1 - 1) as nat);
                    assert(pow3(c1) == 3 * pow3((c1 - 1) as nat));
                }
                lemma_pow3_mono(c1, c0);
            }
        }
    }
}

/// The first solution of the puzzle; fails when there is none.
pub fn solve(puzzle: &Puzzle) -> (r: SolverResult<Puzzle>)
    requires
        puzzle.wf(),
    ensures
        r matches Ok(p) ==> p.wf() && respects(*puzzle, p),
        r is Err ==> r->Err_0 == Error::spec_invalid_board(),
{
    let mut it = match Solutions::new(puzzle) {
        Ok(it) => it,
        Err(e) => {
            return Err(e);
        },
    };
    match it.next() {
        Some(solution) => Ok(solution),
        None => Err(Error::invalid_board()),
    }
}

} // verus!
