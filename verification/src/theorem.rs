//! Theorems: local patterns of hints and edges, and the edges they imply.
use vstd::prelude::*;

use crate::geom::{fits_i32, is_symmetry, CellId, Move, Point, Rotation, Size};
use crate::model::{Error, SolverResult, State};
use crate::pattern::{
    edge_match_result, rotatable, rotate_point, shift_point, shiftable, EdgePattern, HintPattern,
    PatternMatchResult, Transform,
};
use crate::puzzle::{Edge, Puzzle};
use crate::side_map::SideMap;
use crate::sorted::{lemma_seq_lt_order, lemma_sorted_unique, seq_less, seq_lt, seq_same, sort_dedup, sorted_set_of, strictly_sorted};

verus! {

/// A theorem: where the hints of `hint_matcher` and the edges of `edge_matcher` are seen,
/// the edges of `result` hold. With `closed_hint`, the theorem does not apply where the
/// listed hints are all the hints of the puzzle, as their sum tells.
#[derive(Clone, Debug, PartialEq, Eq, PartialOrd, Ord)]
pub struct Theorem {
    size: Size,
    hint_matcher: Vec<HintPattern>,
    edge_matcher: Vec<EdgePattern<Point>>,
    result: Vec<EdgePattern<Point>>,
    closed_hint: Option<(u32, Vec<HintPattern>)>,
}

/// `p` lies in the box of a theorem of size `s`, the border cells around it included.
pub open spec fn in_box(s: Size, p: Point) -> bool {
    -1 <= p.0 <= s.0 && -1 <= p.1 <= s.1
}

/// Both cells of an edge pattern lie in the box.
pub open spec fn edge_in_box(s: Size, e: EdgePattern<Point>) -> bool {
    in_box(s, e.spec_points().0) && in_box(s, e.spec_points().1)
}

/// The sum of the hints of hint patterns.
pub open spec fn pattern_hint_sum(hs: Seq<HintPattern>) -> int
    decreases hs.len(),
{
    if hs.len() == 0 {
        0
    } else {
        pattern_hint_sum(hs.drop_last()) + hs.last().spec_hint()
    }
}

impl Theorem {
    /// The size of the theorem's box.
    pub closed spec fn spec_size(&self) -> Size {
        self.size
    }

    /// The hints the theorem expects.
    pub closed spec fn hints(&self) -> Seq<HintPattern> {
        self.hint_matcher@
    }

    /// The edges the theorem expects.
    pub closed spec fn edges(&self) -> Seq<EdgePattern<Point>> {
        self.edge_matcher@
    }

    /// The edges the theorem concludes.
    pub closed spec fn results(&self) -> Seq<EdgePattern<Point>> {
        self.result@
    }

    /// The hints that must not be all the puzzle's hints, with their sum.
    pub closed spec fn closed(&self) -> Option<(u32, Seq<HintPattern>)> {
        match self.closed_hint {
            Some((n, v)) => Some((n, v@)),
            None => None,
        }
    }

    /// The sizes leave room to move, every pattern lies in the box, and each list is
    /// sorted without repeats.
    pub open spec fn wf(&self) -> bool {
        let s = self.spec_size();
        &&& 0 < s.0 < i32::MAX && 0 < s.1 < i32::MAX
        &&& forall|i: int| 0 <= i < self.hints().len() ==> in_box(s, #[trigger] self.hints()[i].spec_point())
        &&& forall|i: int| 0 <= i < self.edges().len() ==> edge_in_box(s, #[trigger] self.edges()[i])
        &&& forall|i: int| 0 <= i < self.results().len() ==> edge_in_box(s, #[trigger] self.results()[i])
        &&& strictly_sorted(self.hints())
        &&& strictly_sorted(self.edges())
        &&& strictly_sorted(self.results())
        &&& (self.closed() matches Some((n, hs)) ==> {
            &&& strictly_sorted(hs)
            &&& forall|i: int| 0 <= i < hs.len() ==> in_box(s, #[trigger] hs[i].spec_point())
        })
    }

    /// Assembles a theorem from its parts.
    pub(crate) fn assemble(
        size: Size,
        hint_matcher: Vec<HintPattern>,
        edge_matcher: Vec<EdgePattern<Point>>,
        result: Vec<EdgePattern<Point>>,
        closed_hint: Option<(u32, Vec<HintPattern>)>,
    ) -> (r: Theorem)
        ensures
            r.spec_size() == size,
            r.hints() == hint_matcher@,
            r.edges() == edge_matcher@,
            r.results() == result@,
            r.closed() == match closed_hint {
                Some((n, v)) => Some((n, v@)),
                None => None::<(u32, Seq<HintPattern>)>,
            },
    {
        Theorem { size, hint_matcher, edge_matcher, result, closed_hint }
    }

    /// The hints the theorem expects.
    pub fn hint_matcher(&self) -> (r: &[HintPattern])
        ensures
            r@ == self.hints(),
    {
        self.hint_matcher.as_slice()
    }

    /// The edges the theorem expects.
    pub fn edge_matcher(&self) -> (r: &[EdgePattern<Point>])
        ensures
            r@ == self.edges(),
    {
        self.edge_matcher.as_slice()
    }

    /// The edges the theorem concludes.
    pub fn result(&self) -> (r: &[EdgePattern<Point>])
        ensures
            r@ == self.results(),
    {
        self.result.as_slice()
    }

    /// The sum of the closing hints, if the theorem has closing hints.
    pub fn closed_sum(&self) -> (r: Option<u32>)
        ensures
            r == match self.closed() {
                Some((n, _)) => Some(n),
                None => None::<u32>,
            },
    {
        match &self.closed_hint {
            Some((n, _)) => Some(*n),
            None => None,
        }
    }

    /// The size of the theorem's box.
    pub fn size(&self) -> (r: Size)
        ensures
            r == self.spec_size(),
    {
        self.size
    }

    /// The first expected hint, if any.
    pub fn head(&self) -> (r: Option<HintPattern>)
        ensures
            r == if self.hints().len() > 0 {
                Some(self.hints()[0])
            } else {
                None::<HintPattern>
            },
    {
        if self.hint_matcher.len() > 0 {
            Some(self.hint_matcher[0])
        } else {
            None
        }
    }

    /// Every point of the theorem can be moved by `d`.
    pub open spec fn can_shift_by(&self, d: Move) -> bool {
        &&& fits_i32(d.0 - 1) && fits_i32(self.spec_size().0 + d.0)
        &&& fits_i32(d.1 - 1) && fits_i32(self.spec_size().1 + d.1)
    }
}

/// A theorem met at some place of the board, with the expected edges still unknown there.
#[derive(Clone, Debug, PartialEq, Eq, PartialOrd, Ord)]
pub struct PartialTheorem {
    matcher: Vec<EdgePattern<CellId>>,
    result: Vec<EdgePattern<CellId>>,
}

/// What matching a theorem at some place of the board found.
#[derive(Clone, Debug)]
pub enum MatchResult {
    /// Everything expected is there: the edges concluded.
    Complete(Vec<EdgePattern<CellId>>),
    /// Some expected edges are unknown yet.
    Partial(PartialTheorem),
    /// The board contradicts the theorem there.
    Conflict,
}

/// Every pattern fits a side map of `n` cells.
pub open spec fn all_fit(ps: Seq<EdgePattern<CellId>>, n: nat) -> bool {
    forall|i: int| 0 <= i < ps.len() ==> (#[trigger] ps[i]).fits(n)
}

/// How a cell edge pattern matches what the side map knows: complete, partial,
/// conflict, or an error.
pub open spec fn pattern_status(sm: SideMap, c: EdgePattern<CellId>) -> int {
    match sm.edge_state(c.spec_points().0.spec_id(), c.spec_points().1.spec_id()) {
        State::Fixed(e) => if e == c.spec_edge() {
            0
        } else {
            2
        },
        State::Unknown => 1,
        State::Conflict => 3,
    }
}

/// The index of the first pattern at or after `k` that conflicts or fails, or the
/// length when there is none.
pub open spec fn first_bad(sm: SideMap, cs: Seq<EdgePattern<CellId>>, k: int) -> int
    decreases cs.len() - k,
{
    if k >= cs.len() {
        cs.len() as int
    } else if pattern_status(sm, cs[k]) >= 2 {
        k
    } else {
        first_bad(sm, cs, k + 1)
    }
}

/// The patterns whose edge is still unknown, in order.
pub open spec fn unknown_patterns(sm: SideMap, cs: Seq<EdgePattern<CellId>>) -> Seq<EdgePattern<CellId>>
    decreases cs.len(),
{
    if cs.len() == 0 {
        Seq::empty()
    } else {
        let rest = unknown_patterns(sm, cs.drop_last());
        if pattern_status(sm, cs.last()) == 1 {
            rest.push(cs.last())
        } else {
            rest
        }
    }
}

/// Under the cell sides `a` (`true`: inside), the edge pattern holds: its cells agree
/// for a cross and differ for a line.
pub open spec fn holds(a: Seq<bool>, c: EdgePattern<CellId>) -> bool {
    (a[c.spec_points().0.spec_id() as int] == a[c.spec_points().1.spec_id() as int]) == (c.spec_edge() == Edge::Cross)
}

/// Every pattern of `cs` holds under `a`.
pub open spec fn all_hold(a: Seq<bool>, cs: Seq<EdgePattern<CellId>>) -> bool {
    forall|i: int| 0 <= i < cs.len() ==> holds(a, #[trigger] cs[i])
}

/// The partial theorem is true of `a`: when the edges it expects hold, so do its
/// conclusions.
pub open spec fn valid_for(t: PartialTheorem, a: Seq<bool>) -> bool {
    all_hold(a, t.matchers()) ==> all_hold(a, t.results())
}

/// Every partial theorem of `ts` is true of `a`.
pub open spec fn all_valid(ts: Seq<PartialTheorem>, a: Seq<bool>) -> bool {
    forall|i: int| 0 <= i < ts.len() ==> valid_for(#[trigger] ts[i], a)
}

/// A pattern whose edge is known and matches holds under admitted cell sides.
pub proof fn lemma_known_holds(sm: SideMap, a: Seq<bool>, c: EdgePattern<CellId>)
    requires
        sm.admits(a),
        c.fits(sm.num_cells()),
        pattern_status(sm, c) == 0,
    ensures
        holds(a, c),
{
    crate::side_map::lemma_edge_admitted(sm, a, c.spec_points().0.spec_id(), c.spec_points().1.spec_id());
}

/// Every pattern still unknown is among the unknown patterns.
pub proof fn lemma_unknown_contains(sm: SideMap, cs: Seq<EdgePattern<CellId>>)
    ensures
        forall|i: int| 0 <= i < cs.len() && pattern_status(sm, #[trigger] cs[i]) == 1 ==> unknown_patterns(sm, cs).contains(cs[i]),
        forall|c: EdgePattern<CellId>| #[trigger] unknown_patterns(sm, cs).contains(c) ==> cs.contains(c),
    decreases cs.len(),
{
    if cs.len() > 0 {
        let rest = cs.drop_last();
        lemma_unknown_contains(sm, rest);
        assert forall|i: int| 0 <= i < cs.len() && pattern_status(sm, #[trigger] cs[i]) == 1 implies unknown_patterns(sm, cs).contains(cs[i]) by {
            if i < cs.len() - 1 {
                assert(rest[i] == cs[i]);
                assert(unknown_patterns(sm, rest).contains(cs[i]));
                let k = choose|k: int| 0 <= k < unknown_patterns(sm, rest).len() && unknown_patterns(sm, rest)[k] == cs[i];
                if pattern_status(sm, cs.last()) == 1 {
                    assert(unknown_patterns(sm, cs) == unknown_patterns(sm, rest).push(cs.last()));
                    assert(unknown_patterns(sm, cs)[k] == cs[i]);
                } else {
                    assert(unknown_patterns(sm, cs) == unknown_patterns(sm, rest));
                }
            } else {
                assert(cs.last() == cs[i]);
                assert(unknown_patterns(sm, cs) == unknown_patterns(sm, rest).push(cs.last()));
                assert(unknown_patterns(sm, cs)[unknown_patterns(sm, rest).len() as int] == cs[i]);
            }
        }
        assert forall|c: EdgePattern<CellId>| #[trigger] unknown_patterns(sm, cs).contains(c) implies cs.contains(c) by {
            if pattern_status(sm, cs.last()) == 1 && c == cs.last() {
                assert(cs[cs.len() - 1] == c);
            } else {
                if pattern_status(sm, cs.last()) == 1 {
                    assert(unknown_patterns(sm, cs) == unknown_patterns(sm, rest).push(cs.last()));
                    let j = choose|j: int| 0 <= j < unknown_patterns(sm, cs).len() && unknown_patterns(sm, cs)[j] == c;
                    assert(j < unknown_patterns(sm, rest).len());
                    assert(unknown_patterns(sm, rest).contains(c));
                } else {
                    assert(unknown_patterns(sm, cs) == unknown_patterns(sm, rest));
                }
                assert(rest.contains(c));
                let j = choose|j: int| 0 <= j < rest.len() && rest[j] == c;
                assert(cs[j] == c);
            }
        }
    }
}

/// A theorem is true of admitted cell sides when what it still waits for is: the
/// expected edges already known hold.
pub proof fn lemma_partial_valid(sm: SideMap, a: Seq<bool>, t: PartialTheorem, u: PartialTheorem)
    requires
        sm.admits(a),
        all_fit(t.matchers(), sm.num_cells()),
        valid_for(t, a),
        first_bad(sm, t.matchers(), 0) == t.matchers().len(),
        u.matchers() == unknown_patterns(sm, t.matchers()),
        u.results() == t.results(),
    ensures
        valid_for(u, a),
{
    let cs = t.matchers();
    lemma_first_bad(sm, cs, 0);
    lemma_unknown_contains(sm, cs);
    if all_hold(a, u.matchers()) {
        assert forall|i: int| 0 <= i < cs.len() implies holds(a, #[trigger] cs[i]) by {
            if pattern_status(sm, cs[i]) == 1 {
                assert(unknown_patterns(sm, cs).contains(cs[i]));
                let j = choose|j: int| 0 <= j < u.matchers().len() && u.matchers()[j] == cs[i];
                assert(holds(a, u.matchers()[j]));
            } else {
                assert(pattern_status(sm, cs[i]) < 2);
                lemma_known_holds(sm, a, cs[i]);
            }
        }
    }
}

/// When nothing is unknown and nothing is bad, every expected edge holds.
pub proof fn lemma_complete_holds(sm: SideMap, a: Seq<bool>, cs: Seq<EdgePattern<CellId>>)
    requires
        sm.admits(a),
        all_fit(cs, sm.num_cells()),
        first_bad(sm, cs, 0) == cs.len(),
        unknown_patterns(sm, cs).len() == 0,
    ensures
        all_hold(a, cs),
{
    lemma_first_bad(sm, cs, 0);
    lemma_unknown_contains(sm, cs);
    assert forall|i: int| 0 <= i < cs.len() implies holds(a, #[trigger] cs[i]) by {
        if pattern_status(sm, cs[i]) == 1 {
            assert(unknown_patterns(sm, cs).contains(cs[i]));
        }
        lemma_known_holds(sm, a, cs[i]);
    }
}

/// The first bad pattern lies between `k` and the end, and all before it are fine.
pub proof fn lemma_first_bad(sm: SideMap, cs: Seq<EdgePattern<CellId>>, k: int)
    requires
        0 <= k <= cs.len(),
    ensures
        k <= first_bad(sm, cs, k) <= cs.len(),
        forall|j: int| k <= j < first_bad(sm, cs, k) ==> pattern_status(sm, #[trigger] cs[j]) < 2,
        first_bad(sm, cs, k) < cs.len() ==> pattern_status(sm, cs[first_bad(sm, cs, k)]) >= 2,
    decreases cs.len() - k,
{
    if k < cs.len() && pattern_status(sm, cs[k]) < 2 {
        lemma_first_bad(sm, cs, k + 1);
    }
}

impl PartialTheorem {
    /// The expected edges still unknown.
    pub closed spec fn matchers(&self) -> Seq<EdgePattern<CellId>> {
        self.matcher@
    }

    /// The edges concluded.
    pub closed spec fn results(&self) -> Seq<EdgePattern<CellId>> {
        self.result@
    }

    /// A partial theorem that expects nothing and concludes nothing.
    pub fn dummy() -> (r: PartialTheorem)
        ensures
            r.matchers() == Seq::<EdgePattern<CellId>>::empty(),
            r.results() == Seq::<EdgePattern<CellId>>::empty(),
    {
        PartialTheorem { matcher: Vec::new(), result: Vec::new() }
    }

    /// The number of expected edges still unknown.
    pub fn num_matcher(&self) -> (r: usize)
        ensures
            r == self.matchers().len(),
    {
        self.matcher.len()
    }

    /// The expected edges still unknown.
    pub fn matcher_edges(&self) -> (r: &[EdgePattern<CellId>])
        ensures
            r@ == self.matchers(),
    {
        self.matcher.as_slice()
    }

    /// The edges concluded.
    pub fn result_edges(self) -> (r: Vec<EdgePattern<CellId>>)
        ensures
            r@ == self.results(),
    {
        self.result
    }

    /// Adds the conclusions of `other` when it expects the same unknown edges; fails,
    /// changing nothing, otherwise.
    pub fn merge(&mut self, other: &PartialTheorem) -> (r: Result<(), ()>)
        ensures
            r is Ok <==> old(self).matchers() == other.matchers(),
            final(self).matchers() == old(self).matchers(),
            r is Ok ==> strictly_sorted(final(self).results()) && forall|e: EdgePattern<CellId>|
                #[trigger] final(self).results().contains(e) <==> old(self).results().contains(e)
                    || other.results().contains(e),
            r is Err ==> final(self).results() == old(self).results(),
    {
        if self.matcher.len() != other.matcher.len() {
            return Err(());
        }
        let mut i: usize = 0;
        while i < self.matcher.len()
            invariant
                i <= self.matcher.len(),
                self.matcher.len() == other.matcher.len(),
                self.matchers() == old(self).matchers(),
                self.results() == old(self).results(),
                forall|j: int| 0 <= j < i ==> self.matcher@[j] == other.matcher@[j],
            decreases self.matcher.len() - i,
        {
            if !self.matcher[i].equal_to(&other.matcher[i]) {
                return Err(());
            }
            i = i + 1;
        }
        assert(self.matcher@ =~= other.matcher@);
        let mut all: Vec<EdgePattern<CellId>> = Vec::new();
        let mut k: usize = 0;
        while k < self.result.len()
            invariant
                k <= self.result.len(),
                all@ == self.result@.take(k as int),
            decreases self.result.len() - k,
        {
            all.push(self.result[k]);
            k = k + 1;
            assert(all@ =~= self.result@.take(k as int));
        }
        let mut k: usize = 0;
        while k < other.result.len()
            invariant
                k <= other.result.len(),
                all@ == self.result@ + other.result@.take(k as int),
            decreases other.result.len() - k,
        {
            all.push(other.result[k]);
            k = k + 1;
            assert(all@ =~= self.result@ + other.result@.take(k as int));
        }
        assert(other.result@.take(other.result.len() as int) =~= other.result@);
        let merged = sort_dedup(&all);
        proof {
            assert forall|e: EdgePattern<CellId>| #[trigger] all@.contains(e) <==> self.result@.contains(e)
                || other.result@.contains(e) by {
                if all@.contains(e) {
                    let j = choose|j: int| 0 <= j < all@.len() && all@[j] == e;
                    if j < self.result@.len() {
                        assert(self.result@[j] == e);
                    } else {
                        assert(other.result@[j - self.result@.len()] == e);
                    }
                }
                if self.result@.contains(e) {
                    let j = choose|j: int| 0 <= j < self.result@.len() && self.result@[j] == e;
                    assert(all@[j] == e);
                }
                if other.result@.contains(e) {
                    let j = choose|j: int| 0 <= j < other.result@.len() && other.result@[j] == e;
                    assert(all@[j + self.result@.len()] == e);
                }
            }
        }
        self.result = merged;
        Ok(())
    }

    /// Matches the unknown expected edges again: a conflict when one is contradicted,
    /// an error when the side map contradicts itself at one, the conclusions when all are
    /// known, and what is still unknown otherwise.
    pub fn matches(self, side_map: &mut SideMap) -> (r: SolverResult<MatchResult>)
        requires
            old(side_map).wf(),
            all_fit(self.matchers(), old(side_map).num_cells()),
        ensures
            final(side_map).wf(),
            final(side_map).same_view(*old(side_map)),
            ({
                let cs = self.matchers();
                let i = first_bad(*old(side_map), cs, 0);
                if i < cs.len() {
                    if pattern_status(*old(side_map), cs[i]) == 2 {
                        r matches Ok(MatchResult::Conflict)
                    } else {
                        r == Err::<MatchResult, Error>(Error::spec_invalid_board())
                    }
                } else if unknown_patterns(*old(side_map), cs).len() == 0 {
                    r matches Ok(MatchResult::Complete(v)) && v@ == self.results()
                } else {
                    r matches Ok(MatchResult::Partial(t)) && t.matchers() == unknown_patterns(*old(side_map), cs)
                        && t.results() == self.results()
                }
            }),
    {
        let ghost sm = *old(side_map);
        let ghost cs = self.matchers();
        proof {
            lemma_first_bad(sm, cs, 0);
        }
        let mut kept: Vec<EdgePattern<CellId>> = Vec::new();
        let mut k: usize = 0;
        while k < self.matcher.len()
            invariant
                k <= self.matcher.len(),
                cs == self.matcher@,
                sm == *old(side_map),
                side_map.wf(),
                side_map.same_view(sm),
                sm.wf(),
                all_fit(cs, sm.num_cells()),
                first_bad(sm, cs, 0) >= k,
                forall|j: int| 0 <= j < first_bad(sm, cs, 0) ==> pattern_status(sm, #[trigger] cs[j]) < 2,
                first_bad(sm, cs, 0) < cs.len() ==> pattern_status(sm, cs[first_bad(sm, cs, 0)]) >= 2,
                kept@ == unknown_patterns(sm, cs.take(k as int)),
            decreases self.matcher.len() - k,
        {
            let pat = self.matcher[k];
            let ghost mid = *side_map;
            proof {
                assert(pat.fits(sm.num_cells()));
                lemma_same_view_edge(sm, *side_map, pat);
                assert(cs.take(k as int + 1).drop_last() =~= cs.take(k as int));
            }
            let res = pat.matches(side_map);
            proof {
                lemma_same_view_trans(sm, mid, *side_map);
                if pattern_status(sm, cs[k as int]) >= 2 {
                    assert(first_bad(sm, cs, 0) == k);
                }
            }
            match res {
                Ok(PatternMatchResult::Complete) => {},
                Ok(PatternMatchResult::Partial(e)) => {
                    kept.push(e);
                },
                Ok(PatternMatchResult::Conflict) => {
                    return Ok(MatchResult::Conflict);
                },
                Err(e) => {
                    return Err(e);
                },
            }
            k = k + 1;
        }
        assert(cs.take(cs.len() as int) =~= cs);
        if kept.len() == 0 {
            Ok(MatchResult::Complete(self.result))
        } else {
            Ok(MatchResult::Partial(PartialTheorem { matcher: kept, result: self.result }))
        }
    }
    /// A copy of the partial theorem.
    pub fn duplicate(&self) -> (r: PartialTheorem)
        ensures
            r.matchers() == self.matchers(),
            r.results() == self.results(),
    {
        let mut matcher: Vec<EdgePattern<CellId>> = Vec::new();
        let mut i: usize = 0;
        while i < self.matcher.len()
            invariant
                i <= self.matcher@.len(),
                matcher@ == self.matcher@.take(i as int),
            decreases self.matcher@.len() - i,
        {
            matcher.push(self.matcher[i]);
            i = i + 1;
            assert(matcher@ =~= self.matcher@.take(i as int));
        }
        assert(matcher@ =~= self.matcher@);
        let mut result: Vec<EdgePattern<CellId>> = Vec::new();
        i = 0;
        while i < self.result.len()
            invariant
                i <= self.result@.len(),
                result@ == self.result@.take(i as int),
            decreases self.result@.len() - i,
        {
            result.push(self.result[i]);
            i = i + 1;
            assert(result@ =~= self.result@.take(i as int));
        }
        assert(result@ =~= self.result@);
        PartialTheorem { matcher: matcher, result: result }
    }

}

/// Two side maps that know the same see the same edges.
pub proof fn lemma_same_view_edge(a: SideMap, b: SideMap, c: EdgePattern<CellId>)
    requires
        b.same_view(a),
    ensures
        pattern_status(a, c) == pattern_status(b, c),
        a.edge_state(c.spec_points().0.spec_id(), c.spec_points().1.spec_id()) == b.edge_state(
            c.spec_points().0.spec_id(),
            c.spec_points().1.spec_id(),
        ),
{
}

impl PartialTheorem {
    /// Whether `self` comes before `other`: by expected edges, then by concluded edges.
    pub fn less_than(&self, other: &PartialTheorem) -> (r: bool)
        ensures
            r == (seq_lt(self.matchers(), other.matchers()) || (self.matchers() == other.matchers() && seq_lt(
                self.results(),
                other.results(),
            ))),
    {
        proof {
            lemma_seq_lt_order(self.matchers(), self.matchers(), self.matchers());
        }
        if seq_same(&self.matcher, &other.matcher) {
            seq_less(&self.result, &other.result)
        } else {
            seq_less(&self.matcher, &other.matcher)
        }
    }
}

impl EdgePattern<CellId> {
    /// Whether the two patterns are the same.
    pub fn equal_to(&self, other: &EdgePattern<CellId>) -> (r: bool)
        ensures
            r == (*self == *other),
    {
        self.same(other)
    }
}

impl MatchResult {
    /// Applies the result: records the concluded edges of a complete match, and keeps a
    /// partial match in `new_theorem`.
    pub fn update(self, side_map: &mut SideMap, new_theorem: &mut Vec<PartialTheorem>)
        requires
            old(side_map).wf(),
            self matches MatchResult::Complete(v) ==> all_fit(v@, old(side_map).num_cells()),
        ensures
            final(side_map).wf(),
            final(side_map).num_cells() == old(side_map).num_cells(),
            old(side_map).keeps(&*final(side_map)),
            match self {
                MatchResult::Complete(v) => {
                    &&& final(new_theorem)@ == old(new_theorem)@
                    &&& forall|i: int| 0 <= i < v@.len() ==> final(side_map).knows_edge(
                        (#[trigger] v@[i]).spec_points().0.spec_id(),
                        v@[i].spec_points().1.spec_id(),
                        v@[i].spec_edge(),
                    )
                },
                MatchResult::Partial(t) => {
                    &&& final(new_theorem)@ == old(new_theorem)@.push(t)
                    &&& final(side_map).same_view(*old(side_map))
                },
                MatchResult::Conflict => {
                    &&& final(new_theorem)@ == old(new_theorem)@
                    &&& final(side_map).same_view(*old(side_map))
                },
            },
            forall|a: Seq<bool>|
                old(side_map).admits(a) && (self matches MatchResult::Complete(v) ==> all_hold(a, v@))
                    ==> #[trigger] final(side_map).admits(a),
    {
        match self {
            MatchResult::Complete(result) => {
                let mut i: usize = 0;
                while i < result.len()
                    invariant
                        i <= result.len(),
                        side_map.wf(),
                        side_map.num_cells() == old(side_map).num_cells(),
                        old(side_map).wf(),
                        all_fit(result@, old(side_map).num_cells()),
                        old(side_map).keeps(&*side_map),
                        forall|j: int| 0 <= j < i ==> side_map.knows_edge(
                            (#[trigger] result@[j]).spec_points().0.spec_id(),
                            result@[j].spec_points().1.spec_id(),
                            result@[j].spec_edge(),
                        ),
                        forall|a: Seq<bool>|
                            old(side_map).admits(a) && all_hold(a, result@) ==> #[trigger] side_map.admits(a),
                    decreases result.len() - i,
                {
                    let ghost before = *side_map;
                    assert(result@[i as int].fits(side_map.num_cells()));
                    result[i].apply(side_map);
                    proof {
                        let c = result@[i as int];
                        assert forall|a: Seq<bool>| old(side_map).admits(a) && all_hold(a, result@) implies #[trigger] side_map.admits(a) by {
                            assert(before.admits(a));
                            assert(holds(a, result@[i as int]));
                            if before.set_result(*side_map, c.spec_points().0.spec_id(), c.spec_points().1.spec_id(), c.spec_edge() == Edge::Cross, true) {
                                before.lemma_set_result_admits(*side_map, c.spec_points().0.spec_id(), c.spec_points().1.spec_id(), c.spec_edge() == Edge::Cross, true, a);
                            } else {
                                before.lemma_set_result_admits(*side_map, c.spec_points().0.spec_id(), c.spec_points().1.spec_id(), c.spec_edge() == Edge::Cross, false, a);
                            }
                        }
                        lemma_apply_knows(before, *side_map, result@[i as int]);
                        old(side_map).lemma_keeps_transitive(&before, &*side_map);
                        assert forall|j: int| 0 <= j <= i implies side_map.knows_edge(
                            (#[trigger] result@[j]).spec_points().0.spec_id(),
                            result@[j].spec_points().1.spec_id(),
                            result@[j].spec_edge(),
                        ) by {
                            if j < i {
                                lemma_keeps_knows_edge(before, *side_map, result@[j]);
                            }
                        }
                    }
                    i = i + 1;
                }
            },
            MatchResult::Partial(theo) => {
                new_theorem.push(theo);
                proof {
                    lemma_same_view_refl(*side_map);
                }
            },
            MatchResult::Conflict => {
                proof {
                    lemma_same_view_refl(*side_map);
                }
            },
        }
    }
}

/// Knowing the same is transitive.
pub proof fn lemma_same_view_trans(a: SideMap, b: SideMap, c: SideMap)
    requires
        b.same_view(a),
        c.same_view(b),
    ensures
        c.same_view(a),
{
    assert forall|i: nat, j: nat| #[trigger] c.together(i, j) == a.together(i, j) by {
        assert(c.together(i, j) == b.together(i, j));
        assert(b.together(i, j) == a.together(i, j));
    }
}

/// A side map knows the same as itself.
pub proof fn lemma_same_view_refl(a: SideMap)
    requires
        a.wf(),
    ensures
        a.same_view(a),
        a.keeps(&a),
{
}

/// After recording an edge, the side map knows it and keeps what it knew.
pub proof fn lemma_apply_knows(before: SideMap, after: SideMap, c: EdgePattern<CellId>)
    requires
        before.wf(),
        c.fits(before.num_cells()),
        before.set_result(after, c.spec_points().0.spec_id(), c.spec_points().1.spec_id(), c.spec_edge() == Edge::Cross, true)
            || before.set_result(after, c.spec_points().0.spec_id(), c.spec_points().1.spec_id(), c.spec_edge() == Edge::Cross, false),
    ensures
        after.knows_edge(c.spec_points().0.spec_id(), c.spec_points().1.spec_id(), c.spec_edge()),
        before.keeps(&after),
        after.num_cells() == before.num_cells(),
{
}

/// What a side map knows of an edge it still knows after any change that keeps.
pub proof fn lemma_keeps_knows_edge(before: SideMap, after: SideMap, c: EdgePattern<CellId>)
    requires
        before.keeps(&after),
        c.fits(before.num_cells()),
        before.knows_edge(c.spec_points().0.spec_id(), c.spec_points().1.spec_id(), c.spec_edge()),
    ensures
        after.knows_edge(c.spec_points().0.spec_id(), c.spec_points().1.spec_id(), c.spec_edge()),
{
    let p0 = c.spec_points().0.spec_id();
    let p1 = c.spec_points().1.spec_id();
    assert(before.together(crate::side_map::key0(p0), if c.spec_edge() == Edge::Cross {
        crate::side_map::key0(p1)
    } else {
        crate::side_map::key1(p1)
    }));
}

/// The hints of the puzzle at the patterns' points moved by `d`, summed where present.
pub open spec fn present_sum(puzzle: Puzzle, hs: Seq<HintPattern>, d: Move) -> int
    decreases hs.len(),
{
    if hs.len() == 0 {
        0
    } else {
        present_sum(puzzle, hs.drop_last(), d) + match puzzle.hint_at(shift_point(hs.last().spec_point(), d)) {
            Some(n) => n as int,
            None => 0,
        }
    }
}

/// The hints `hs` moved by `d` are all the hints of the puzzle: no hint there differs,
/// the sum of those present is the puzzle's whole sum, which is at most theirs.
pub open spec fn closes(puzzle: Puzzle, hs: Seq<HintPattern>, d: Move, sum_of_hint: u32, sum_of_hpat: u32) -> bool {
    &&& sum_of_hint <= sum_of_hpat
    &&& forall|i: int| 0 <= i < hs.len() ==> match puzzle.hint_at(shift_point((#[trigger] hs[i]).spec_point(), d)) {
        Some(n) => n == hs[i].spec_hint(),
        None => true,
    }
    &&& present_sum(puzzle, hs, d) == sum_of_hint
}

/// Every expected hint, moved by `d`, is the puzzle's hint there.
pub open spec fn hints_hold(puzzle: Puzzle, hs: Seq<HintPattern>, d: Move) -> bool {
    forall|i: int| 0 <= i < hs.len() ==> puzzle.hint_at(shift_point((#[trigger] hs[i]).spec_point(), d)) == Some(hs[i].spec_hint())
}

/// The edge patterns moved by `d`, on the cells of a puzzle of size `size`.
pub open spec fn moved_cells(es: Seq<EdgePattern<Point>>, d: Move, size: Size) -> Seq<EdgePattern<CellId>> {
    Seq::new(es.len(), |i: int| es[i].spec_shift(d).spec_to_cellid(size))
}

/// What matching theorem `t` moved by `d` against the puzzle and the side map gives: a
/// conflict when a hint differs; else the first edge that is contradicted gives a
/// conflict, or an error when the side map contradicts itself there; else a conflict
/// when the closing hints are all the puzzle's hints; else the concluded edges when every
/// expected edge is known, and otherwise the expected edges still unknown.
pub open spec fn shift_match_result(t: Theorem, d: Move, puzzle: Puzzle, sum_of_hint: u32, sm: SideMap, r: SolverResult<MatchResult>) -> bool {
    let size = puzzle.spec_size();
    let cs = moved_cells(t.edges(), d, size);
    let results = moved_cells(t.results(), d, size);
    let i = first_bad(sm, cs, 0);
    if !hints_hold(puzzle, t.hints(), d) {
        r matches Ok(MatchResult::Conflict)
    } else if i < cs.len() {
        if pattern_status(sm, cs[i]) == 2 {
            r matches Ok(MatchResult::Conflict)
        } else {
            r == Err::<MatchResult, Error>(Error::spec_invalid_board())
        }
    } else if t.closed() matches Some((n, hs)) && closes(puzzle, hs, d, sum_of_hint, n) {
        r matches Ok(MatchResult::Conflict)
    } else if unknown_patterns(sm, cs).len() == 0 {
        r matches Ok(MatchResult::Complete(v)) && v@ == results
    } else {
        r matches Ok(MatchResult::Partial(p)) && p.matchers() == unknown_patterns(sm, cs) && p.results() == results
    }
}

/// Theorem `t` moved by `d` is true of the cell sides `a`: where the puzzle has its
/// hints and its closing hints are not all the puzzle's hints, the edges it expects
/// bring the edges it concludes.
pub open spec fn true_at(t: Theorem, d: Move, puzzle: Puzzle, sum_of_hint: u32, a: Seq<bool>) -> bool {
    let size = puzzle.spec_size();
    hints_hold(puzzle, t.hints(), d) && !(t.closed() matches Some((n, hs)) && closes(puzzle, hs, d, sum_of_hint, n))
        && all_hold(a, moved_cells(t.edges(), d, size)) ==> all_hold(a, moved_cells(t.results(), d, size))
}

/// Expected edges hold under admitted cell sides when those still unknown do.
pub proof fn lemma_unknown_suffice(sm: SideMap, a: Seq<bool>, cs: Seq<EdgePattern<CellId>>)
    requires
        sm.admits(a),
        all_fit(cs, sm.num_cells()),
        first_bad(sm, cs, 0) == cs.len(),
        all_hold(a, unknown_patterns(sm, cs)),
    ensures
        all_hold(a, cs),
{
    lemma_first_bad(sm, cs, 0);
    lemma_unknown_contains(sm, cs);
    let u = unknown_patterns(sm, cs);
    assert forall|i: int| 0 <= i < cs.len() implies holds(a, #[trigger] cs[i]) by {
        if pattern_status(sm, cs[i]) == 1 {
            assert(u.contains(cs[i]));
            let j = choose|j: int| 0 <= j < u.len() && u[j] == cs[i];
            assert(holds(a, u[j]));
        } else {
            lemma_known_holds(sm, a, cs[i]);
        }
    }
}

/// The present sum of a prefix is at most the present sum of the whole.
pub proof fn lemma_present_sum_grows(puzzle: Puzzle, hs: Seq<HintPattern>, d: Move, k: int)
    requires
        0 <= k <= hs.len(),
    ensures
        present_sum(puzzle, hs.take(k), d) <= present_sum(puzzle, hs, d),
    decreases hs.len(),
{
    if k == hs.len() {
        assert(hs.take(k) =~= hs);
    } else {
        assert(hs.drop_last().take(k) =~= hs.take(k));
        lemma_present_sum_grows(puzzle, hs.drop_last(), d, k);
    }
}

/// The moved cells of patterns in the box fit the side map of the puzzle.
pub proof fn lemma_moved_cells_fit(es: Seq<EdgePattern<Point>>, d: Move, size: Size)
    requires
        crate::geom::valid_size(size),
    ensures
        all_fit(moved_cells(es, d, size), size.spec_cell_len() as nat),
{
    assert forall|i: int| 0 <= i < es.len() implies (#[trigger] moved_cells(es, d, size)[i]).fits(size.spec_cell_len() as nat) by {
        let e = es[i].spec_shift(d);
        crate::geom::lemma_point_to_cellid_bound(size, e.spec_points().0);
        crate::geom::lemma_point_to_cellid_bound(size, e.spec_points().1);
        CellId::lemma_spec_new(CellId::spec_new(size.spec_point_to_cellid(e.spec_points().0)));
        EdgePattern::<CellId>::lemma_from_parts(
            e.spec_edge(),
            (
                CellId::spec_new(size.spec_point_to_cellid(e.spec_points().0)),
                CellId::spec_new(size.spec_point_to_cellid(e.spec_points().1)),
            ),
        );
    }
}

impl Theorem {
    /// Whether the closing hints moved by `shift` are all the hints of the puzzle.
    fn can_close(shift: Move, puzzle: &Puzzle, sum_of_hint: u32, hpat: &Vec<HintPattern>, sum_of_hpat: u32) -> (r: bool)
        requires
            puzzle.wf(),
            forall|i: int| 0 <= i < hpat@.len() ==> crate::pattern::shiftable((#[trigger] hpat@[i]).spec_point(), shift),
        ensures
            r == closes(*puzzle, hpat@, shift, sum_of_hint, sum_of_hpat),
    {
        if sum_of_hint > sum_of_hpat {
            return false;
        }
        let mut ava_sum: u64 = 0;
        let mut i: usize = 0;
        while i < hpat.len()
            invariant
                i <= hpat.len(),
                puzzle.wf(),
                ava_sum <= sum_of_hint,
                forall|j: int| 0 <= j < hpat@.len() ==> crate::pattern::shiftable((#[trigger] hpat@[j]).spec_point(), shift),
                forall|j: int| 0 <= j < i ==> match puzzle.hint_at(shift_point((#[trigger] hpat@[j]).spec_point(), shift)) {
                    Some(n) => n == hpat@[j].spec_hint(),
                    None => true,
                },
                ava_sum == present_sum(*puzzle, hpat@.take(i as int), shift),
            decreases hpat.len() - i,
        {
            let h = hpat[i];
            let p = h.point().add(shift);
            proof {
                assert(hpat@.take(i as int + 1).drop_last() =~= hpat@.take(i as int));
            }
            match puzzle.hint(p) {
                Some(n) => {
                    if n != h.hint() {
                        return false;
                    }
                    ava_sum = ava_sum + n as u64;
                },
                None => {},
            }
            if ava_sum > sum_of_hint as u64 {
                proof {
                    lemma_present_sum_grows(*puzzle, hpat@, shift, i as int + 1);
                    assert(hpat@.take(hpat.len() as int) =~= hpat@);
                }
                return false;
            }
            i = i + 1;
        }
        assert(hpat@.take(hpat.len() as int) =~= hpat@);
        ava_sum == sum_of_hint as u64
    }

    /// Matches the theorem moved by `shift` against the puzzle's hints and the edges the
    /// side map knows.
    #[verifier::rlimit(40)]
    pub fn shift_matches(&self, shift: Move, puzzle: &Puzzle, sum_of_hint: u32, side_map: &mut SideMap) -> (r: SolverResult<MatchResult>)
        requires
            self.wf(),
            self.can_shift_by(shift),
            puzzle.wf(),
            old(side_map).wf(),
            old(side_map).num_cells() == puzzle.spec_size().spec_cell_len(),
        ensures
            final(side_map).wf(),
            final(side_map).same_view(*old(side_map)),
            shift_match_result(*self, shift, *puzzle, sum_of_hint, *old(side_map), r),
            r matches Ok(MatchResult::Complete(v)) ==> all_fit(v@, old(side_map).num_cells()),
            r matches Ok(MatchResult::Partial(p)) ==> all_fit(p.matchers(), old(side_map).num_cells())
                && all_fit(p.results(), old(side_map).num_cells()),
    {
        let ghost sm = *old(side_map);
        let ghost size = puzzle.spec_size();
        let mut i: usize = 0;
        while i < self.hint_matcher.len()
            invariant
                i <= self.hint_matcher.len(),
                self.wf(),
                self.can_shift_by(shift),
                puzzle.wf(),
                *side_map == *old(side_map),
                old(side_map).wf(),
                forall|j: int| 0 <= j < i ==> puzzle.hint_at(shift_point((#[trigger] self.hints()[j]).spec_point(), shift))
                    == Some(self.hints()[j].spec_hint()),
            decreases self.hint_matcher.len() - i,
        {
            let h = self.hint_matcher[i];
            assert(in_box(self.spec_size(), self.hints()[i as int].spec_point()));
            let moved = h.shift(shift);
            proof {
                HintPattern::lemma_from_parts(h.spec_hint(), shift_point(h.spec_point(), shift));
            }
            match moved.matches::<Point>(puzzle) {
                Ok(PatternMatchResult::Complete) => {},
                _ => {
                    proof {
                        lemma_same_view_refl(*side_map);
                    }
                    return Ok(MatchResult::Conflict);
                },
            }
            i = i + 1;
        }
        let ghost cs = moved_cells(self.edges(), shift, size);
        proof {
            puzzle.lemma_lengths();
            lemma_first_bad(sm, cs, 0);
            lemma_same_view_refl(*side_map);
            lemma_moved_cells_fit(self.edges(), shift, size);
            lemma_moved_cells_fit(self.results(), shift, size);
        }
        let mut kept: Vec<EdgePattern<CellId>> = Vec::new();
        let mut k: usize = 0;
        while k < self.edge_matcher.len()
            invariant
                k <= self.edge_matcher.len(),
                self.wf(),
                self.can_shift_by(shift),
                puzzle.wf(),
                size == puzzle.spec_size(),
                cs == moved_cells(self.edges(), shift, size),
                hints_hold(*puzzle, self.hints(), shift),
                sm == *old(side_map),
                sm.wf(),
                sm.num_cells() == size.spec_cell_len(),
                side_map.wf(),
                side_map.same_view(sm),
                first_bad(sm, cs, 0) >= k,
                forall|j: int| 0 <= j < first_bad(sm, cs, 0) ==> pattern_status(sm, #[trigger] cs[j]) < 2,
                first_bad(sm, cs, 0) < cs.len() ==> pattern_status(sm, cs[first_bad(sm, cs, 0)]) >= 2,
                kept@ == unknown_patterns(sm, cs.take(k as int)),
            decreases self.edge_matcher.len() - k,
        {
            let e = self.edge_matcher[k];
            assert(edge_in_box(self.spec_size(), self.edges()[k as int]));
            let moved = e.shift(shift);
            let ghost mid = *side_map;
            proof {
                assert(cs[k as int] == moved.spec_to_cellid(size));
                lemma_same_view_edge(sm, mid, cs[k as int]);
                assert(cs.take(k as int + 1).drop_last() =~= cs.take(k as int));
            }
            let res = moved.matches(puzzle, side_map);
            proof {
                lemma_same_view_trans(sm, mid, *side_map);
                if pattern_status(sm, cs[k as int]) >= 2 {
                    assert(first_bad(sm, cs, 0) == k);
                }
            }
            match res {
                Ok(PatternMatchResult::Complete) => {},
                Ok(PatternMatchResult::Partial(c)) => {
                    kept.push(c);
                },
                Ok(PatternMatchResult::Conflict) => {
                    return Ok(MatchResult::Conflict);
                },
                Err(err) => {
                    return Err(err);
                },
            }
            k = k + 1;
        }
        assert(cs.take(cs.len() as int) =~= cs);
        match &self.closed_hint {
            Some((sum_of_hpat, hpat)) => {
                proof {
                    assert forall|j: int| 0 <= j < hpat@.len() implies crate::pattern::shiftable((#[trigger] hpat@[j]).spec_point(), shift) by {
                        assert(in_box(self.spec_size(), hpat@[j].spec_point()));
                    }
                }
                if Theorem::can_close(shift, puzzle, sum_of_hint, hpat, *sum_of_hpat) {
                    return Ok(MatchResult::Conflict);
                }
            },
            None => {},
        }
        let ghost results = moved_cells(self.results(), shift, size);
        let mut result: Vec<EdgePattern<CellId>> = Vec::new();
        let mut k: usize = 0;
        while k < self.result.len()
            invariant
                k <= self.result.len(),
                self.wf(),
                self.can_shift_by(shift),
                puzzle.wf(),
                size == puzzle.spec_size(),
                results == moved_cells(self.results(), shift, size),
                result@ == results.take(k as int),
            decreases self.result.len() - k,
        {
            let e = self.result[k];
            assert(edge_in_box(self.spec_size(), self.results()[k as int]));
            result.push(e.shift(shift).to_cellid(puzzle));
            k = k + 1;
            assert(result@ =~= results.take(k as int));
        }
        assert(results.take(results.len() as int) =~= results);
        if kept.len() == 0 {
            Ok(MatchResult::Complete(result))
        } else {
            proof {
                lemma_unknown_fit(sm, cs, sm.num_cells());
            }
            Ok(MatchResult::Partial(PartialTheorem { matcher: kept, result: result }))
        }
    }
}

/// The unknown patterns are some of the patterns, so they fit where those fit.
pub proof fn lemma_unknown_fit(sm: SideMap, cs: Seq<EdgePattern<CellId>>, n: nat)
    requires
        all_fit(cs, n),
    ensures
        all_fit(unknown_patterns(sm, cs), n),
    decreases cs.len(),
{
    if cs.len() > 0 {
        assert(all_fit(cs.drop_last(), n)) by {
            assert forall|i: int| 0 <= i < cs.drop_last().len() implies (#[trigger] cs.drop_last()[i]).fits(n) by {
                assert(cs.drop_last()[i] == cs[i]);
            }
        }
        lemma_unknown_fit(sm, cs.drop_last(), n);
        assert(cs.last() == cs[cs.len() - 1]);
    }
}

/// The box size moved by `rot`, before taking lengths.
pub open spec fn turned_move(rot: Rotation, s: Size) -> (int, int) {
    let (a, b, c, d) = rot.entries();
    (a * s.0 + b * s.1, c * s.0 + d * s.1)
}

/// The absolute value.
pub open spec fn abs(x: int) -> int {
    if x < 0 {
        -x
    } else {
        x
    }
}

/// The size of the box turned by `rot`.
pub open spec fn rotated_size(rot: Rotation, s: Size) -> Size {
    let m = turned_move(rot, s);
    Size(abs(m.0) as i32, abs(m.1) as i32)
}

/// The move that brings the turned box back to the origin.
pub open spec fn rotation_shift(rot: Rotation, s: Size) -> Move {
    let m = turned_move(rot, s);
    Move((if m.0 < 0 {
        -m.0 - 1
    } else {
        0
    }) as i32, (if m.1 < 0 {
        -m.1 - 1
    } else {
        0
    }) as i32)
}

/// Hint patterns turned by `rot` and moved by `d`.
pub open spec fn moved_hints(hs: Seq<HintPattern>, rot: Rotation, d: Move) -> Seq<HintPattern> {
    Seq::new(hs.len(), |i: int| hs[i].spec_rotate(rot).spec_shift(d))
}

/// Edge patterns turned by `rot` and moved by `d`.
pub open spec fn moved_edges(es: Seq<EdgePattern<Point>>, rot: Rotation, d: Move) -> Seq<EdgePattern<Point>> {
    Seq::new(es.len(), |i: int| es[i].spec_rotate(rot).spec_shift(d))
}

/// Multiplying by a unit or by zero.
proof fn lemma_mul_unit(a: int, x: int)
    requires
        a == 1 || a == 0 || a == -1,
    ensures
        a * x == if a == 1 {
            x
        } else if a == -1 {
            -x
        } else {
            0
        },
{
    assert(a * x == if a == 1 {
        x
    } else if a == -1 {
        -x
    } else {
        0
    }) by (nonlinear_arith)
        requires
            a == 1 || a == 0 || a == -1,
    ;
}

/// Turning a point of the box and moving the turned box back to the origin keeps the
/// point in the turned box, without overflow.
proof fn lemma_turn_in_box(rot: Rotation, s: Size, p: Point)
    requires
        is_symmetry(rot.entries().0, rot.entries().1, rot.entries().2, rot.entries().3),
        0 < s.0 < i32::MAX,
        0 < s.1 < i32::MAX,
        in_box(s, p),
    ensures
        rotatable(p),
        0 < rotated_size(rot, s).0 < i32::MAX,
        0 < rotated_size(rot, s).1 < i32::MAX,
        rotated_size(rot, s).0 == abs(turned_move(rot, s).0),
        rotated_size(rot, s).1 == abs(turned_move(rot, s).1),
        fits_i32(turned_move(rot, s).0) && fits_i32(turned_move(rot, s).1),
        fits_i32(-turned_move(rot, s).0 - 1) && fits_i32(-turned_move(rot, s).1 - 1),
        shiftable(rotate_point(rot, p), rotation_shift(rot, s)),
        in_box(rotated_size(rot, s), shift_point(rotate_point(rot, p), rotation_shift(rot, s))),
{
    let (a, b, c, d) = rot.entries();
    lemma_mul_unit(a, p.0 as int);
    lemma_mul_unit(b, p.1 as int);
    lemma_mul_unit(c, p.0 as int);
    lemma_mul_unit(d, p.1 as int);
    lemma_mul_unit(a, s.0 as int);
    lemma_mul_unit(b, s.1 as int);
    lemma_mul_unit(c, s.0 as int);
    lemma_mul_unit(d, s.1 as int);
}

/// Applies `rot` then `d` to each hint pattern.
fn move_hints(v: &Vec<HintPattern>, rot: Rotation, d: Move, s: Size) -> (r: Vec<HintPattern>)
    requires
        is_symmetry(rot.entries().0, rot.entries().1, rot.entries().2, rot.entries().3),
        0 < s.0 < i32::MAX,
        0 < s.1 < i32::MAX,
        d == rotation_shift(rot, s),
        forall|i: int| 0 <= i < v@.len() ==> in_box(s, (#[trigger] v@[i]).spec_point()),
    ensures
        r@ == moved_hints(v@, rot, d),
{
    let mut out: Vec<HintPattern> = Vec::new();
    let mut i: usize = 0;
    while i < v.len()
        invariant
            i <= v.len(),
            is_symmetry(rot.entries().0, rot.entries().1, rot.entries().2, rot.entries().3),
            0 < s.0 < i32::MAX,
            0 < s.1 < i32::MAX,
            d == rotation_shift(rot, s),
            forall|j: int| 0 <= j < v@.len() ==> in_box(s, (#[trigger] v@[j]).spec_point()),
            out@ == moved_hints(v@, rot, d).take(i as int),
        decreases v.len() - i,
    {
        let h = v[i];
        proof {
            assert(in_box(s, v@[i as int].spec_point()));
            lemma_turn_in_box(rot, s, h.spec_point());
            HintPattern::lemma_from_parts(h.spec_hint(), rotate_point(rot, h.spec_point()));
        }
        out.push(h.rotate(rot).shift(d));
        i = i + 1;
        assert(out@ =~= moved_hints(v@, rot, d).take(i as int));
    }
    assert(moved_hints(v@, rot, d).take(v.len() as int) =~= moved_hints(v@, rot, d));
    out
}

/// Applies `rot` then `d` to each edge pattern.
fn move_edges(v: &Vec<EdgePattern<Point>>, rot: Rotation, d: Move, s: Size) -> (r: Vec<EdgePattern<Point>>)
    requires
        is_symmetry(rot.entries().0, rot.entries().1, rot.entries().2, rot.entries().3),
        0 < s.0 < i32::MAX,
        0 < s.1 < i32::MAX,
        d == rotation_shift(rot, s),
        forall|i: int| 0 <= i < v@.len() ==> edge_in_box(s, #[trigger] v@[i]),
    ensures
        r@ == moved_edges(v@, rot, d),
{
    let mut out: Vec<EdgePattern<Point>> = Vec::new();
    let mut i: usize = 0;
    while i < v.len()
        invariant
            i <= v.len(),
            is_symmetry(rot.entries().0, rot.entries().1, rot.entries().2, rot.entries().3),
            0 < s.0 < i32::MAX,
            0 < s.1 < i32::MAX,
            d == rotation_shift(rot, s),
            forall|j: int| 0 <= j < v@.len() ==> edge_in_box(s, #[trigger] v@[j]),
            out@ == moved_edges(v@, rot, d).take(i as int),
        decreases v.len() - i,
    {
        let e = v[i];
        proof {
            assert(edge_in_box(s, v@[i as int]));
            lemma_turn_in_box(rot, s, e.spec_points().0);
            lemma_turn_in_box(rot, s, e.spec_points().1);
            let q0 = rotate_point(rot, e.spec_points().0);
            let q1 = rotate_point(rot, e.spec_points().1);
            EdgePattern::<Point>::lemma_from_parts(e.spec_edge(), crate::pattern::ordered_points(q0, q1));
        }
        out.push(e.rotate(rot).shift(d));
        i = i + 1;
        assert(out@ =~= moved_edges(v@, rot, d).take(i as int));
    }
    assert(moved_edges(v@, rot, d).take(v.len() as int) =~= moved_edges(v@, rot, d));
    out
}

/// Turned and moved hint patterns of the box lie in the turned box.
proof fn lemma_moved_hints_in_box(hs: Seq<HintPattern>, rot: Rotation, s: Size, r: Seq<HintPattern>)
    requires
        is_symmetry(rot.entries().0, rot.entries().1, rot.entries().2, rot.entries().3),
        0 < s.0 < i32::MAX,
        0 < s.1 < i32::MAX,
        forall|i: int| 0 <= i < hs.len() ==> in_box(s, (#[trigger] hs[i]).spec_point()),
        forall|y: HintPattern| #[trigger] r.contains(y) ==> moved_hints(hs, rot, rotation_shift(rot, s)).contains(y),
    ensures
        forall|i: int| 0 <= i < r.len() ==> in_box(rotated_size(rot, s), (#[trigger] r[i]).spec_point()),
{
    let d = rotation_shift(rot, s);
    let m = moved_hints(hs, rot, d);
    assert forall|i: int| 0 <= i < r.len() implies in_box(rotated_size(rot, s), (#[trigger] r[i]).spec_point()) by {
        assert(r.contains(r[i]));
        let j = choose|j: int| 0 <= j < m.len() && m[j] == r[i];
        let h = hs[j];
        assert(in_box(s, h.spec_point()));
        lemma_turn_in_box(rot, s, h.spec_point());
        HintPattern::lemma_from_parts(h.spec_hint(), rotate_point(rot, h.spec_point()));
        HintPattern::lemma_from_parts(h.spec_hint(), shift_point(rotate_point(rot, h.spec_point()), d));
    }
}

/// Turned and moved edge patterns of the box lie in the turned box.
proof fn lemma_moved_edges_in_box(es: Seq<EdgePattern<Point>>, rot: Rotation, s: Size, r: Seq<EdgePattern<Point>>)
    requires
        is_symmetry(rot.entries().0, rot.entries().1, rot.entries().2, rot.entries().3),
        0 < s.0 < i32::MAX,
        0 < s.1 < i32::MAX,
        forall|i: int| 0 <= i < es.len() ==> edge_in_box(s, #[trigger] es[i]),
        forall|y: EdgePattern<Point>| #[trigger] r.contains(y) ==> moved_edges(es, rot, rotation_shift(rot, s)).contains(y),
    ensures
        forall|i: int| 0 <= i < r.len() ==> edge_in_box(rotated_size(rot, s), #[trigger] r[i]),
{
    let d = rotation_shift(rot, s);
    let m = moved_edges(es, rot, d);
    assert forall|i: int| 0 <= i < r.len() implies edge_in_box(rotated_size(rot, s), #[trigger] r[i]) by {
        assert(r.contains(r[i]));
        let j = choose|j: int| 0 <= j < m.len() && m[j] == r[i];
        let e = es[j];
        assert(edge_in_box(s, e));
        lemma_turn_in_box(rot, s, e.spec_points().0);
        lemma_turn_in_box(rot, s, e.spec_points().1);
        let q0 = rotate_point(rot, e.spec_points().0);
        let q1 = rotate_point(rot, e.spec_points().1);
        let o = crate::pattern::ordered_points(q0, q1);
        EdgePattern::<Point>::lemma_from_parts(e.spec_edge(), o);
        EdgePattern::<Point>::lemma_from_parts(
            e.spec_edge(),
            crate::pattern::ordered_points(shift_point(o.0, d), shift_point(o.1, d)),
        );
    }
}

/// `r` is theorem `t` turned by `rot` and moved back so that its box starts at the
/// origin: each list turned, moved, sorted and without repeats.
pub open spec fn rotation_result(t: Theorem, rot: Rotation, r: Theorem) -> bool {
    let d = rotation_shift(rot, t.spec_size());
    &&& r.wf()
    &&& r.spec_size() == rotated_size(rot, t.spec_size())
    &&& sorted_set_of(r.hints(), moved_hints(t.hints(), rot, d))
    &&& sorted_set_of(r.edges(), moved_edges(t.edges(), rot, d))
    &&& sorted_set_of(r.results(), moved_edges(t.results(), rot, d))
    &&& match t.closed() {
        Some((n, hs)) => r.closed() matches Some((m, rs)) && m == n && sorted_set_of(rs, moved_hints(hs, rot, d)),
        None => r.closed() is None,
    }
}

impl Theorem {
    /// The theorem turned by `rot` and moved back so that its box starts at the origin.
    pub fn rotate(&self, rot: Rotation) -> (r: Theorem)
        requires
            self.wf(),
        ensures
            rotation_result(*self, rot, r),
    {
        let coef = rot.coefficients();
        let ghost s = self.spec_size();
        proof {
            lemma_turn_in_box(rot, s, Point(0, 0));
            lemma_mul_unit(coef.0 as int, s.0 as int);
            lemma_mul_unit(coef.1 as int, s.1 as int);
            lemma_mul_unit(coef.2 as int, s.0 as int);
            lemma_mul_unit(coef.3 as int, s.1 as int);
        }
        let mv = rot.mul(Move(self.size.0, self.size.1));
        let mut d = Move(0, 0);
        if mv.0 < 0 {
            d = d.add(Move(-mv.0 - 1, 0));
        }
        if mv.1 < 0 {
            d = d.add(Move(0, -mv.1 - 1));
        }
        let size = Size(if mv.0 < 0 { -mv.0 } else { mv.0 }, if mv.1 < 0 { -mv.1 } else { mv.1 });
        assert(d == rotation_shift(rot, s));
        assert(size == rotated_size(rot, s));
        let hint_matcher = sort_dedup(&move_hints(&self.hint_matcher, rot, d, self.size));
        let edge_matcher = sort_dedup(&move_edges(&self.edge_matcher, rot, d, self.size));
        let result = sort_dedup(&move_edges(&self.result, rot, d, self.size));
        proof {
            lemma_moved_hints_in_box(self.hints(), rot, s, hint_matcher@);
            lemma_moved_edges_in_box(self.edges(), rot, s, edge_matcher@);
            lemma_moved_edges_in_box(self.results(), rot, s, result@);
        }
        let closed_hint = match &self.closed_hint {
            Some((sum, pat)) => {
                assert(forall|i: int| 0 <= i < pat@.len() ==> in_box(s, (#[trigger] pat@[i]).spec_point()));
                let moved = sort_dedup(&move_hints(pat, rot, d, self.size));
                proof {
                    lemma_moved_hints_in_box(pat@, rot, s, moved@);
                }
                Some((*sum, moved))
            },
            None => None,
        };
        Theorem {
            size: size,
            hint_matcher: hint_matcher,
            edge_matcher: edge_matcher,
            result: result,
            closed_hint: closed_hint,
        }
    }
}

/// Order on sizes: rows first.
pub open spec fn size_lt(a: Size, b: Size) -> bool {
    a.0 < b.0 || (a.0 == b.0 && a.1 < b.1)
}

/// Order on closing hints: none first, then by sum, then by the hints.
pub open spec fn closed_lt(a: Option<(u32, Seq<HintPattern>)>, b: Option<(u32, Seq<HintPattern>)>) -> bool {
    match (a, b) {
        (None, Some(_)) => true,
        (Some((x, xs)), Some((y, ys))) => x < y || (x == y && seq_lt(xs, ys)),
        _ => false,
    }
}

/// The two theorems have the same size and the same lists.
pub open spec fn same_theorem(a: Theorem, b: Theorem) -> bool {
    &&& a.spec_size() == b.spec_size()
    &&& a.hints() == b.hints()
    &&& a.edges() == b.edges()
    &&& a.results() == b.results()
    &&& a.closed() == b.closed()
}

/// The order of theorems: by size, then hints, expected edges, concluded edges and
/// closing hints, each list in lexicographic order.
pub open spec fn theorem_lt(a: Theorem, b: Theorem) -> bool {
    ||| size_lt(a.spec_size(), b.spec_size())
    ||| a.spec_size() == b.spec_size() && seq_lt(a.hints(), b.hints())
    ||| a.spec_size() == b.spec_size() && a.hints() == b.hints() && seq_lt(a.edges(), b.edges())
    ||| a.spec_size() == b.spec_size() && a.hints() == b.hints() && a.edges() == b.edges() && seq_lt(a.results(), b.results())
    ||| a.spec_size() == b.spec_size() && a.hints() == b.hints() && a.edges() == b.edges() && a.results() == b.results()
        && closed_lt(a.closed(), b.closed())
}

/// The order of theorems is irreflexive, transitive and total up to sameness.
pub proof fn lemma_theorem_order(a: Theorem, b: Theorem, c: Theorem)
    ensures
        !theorem_lt(a, a),
        theorem_lt(a, b) && theorem_lt(b, c) ==> theorem_lt(a, c),
        !same_theorem(a, b) ==> theorem_lt(a, b) || theorem_lt(b, a),
{
    lemma_seq_lt_order(a.hints(), b.hints(), c.hints());
    lemma_seq_lt_order(a.edges(), b.edges(), c.edges());
    lemma_seq_lt_order(a.results(), b.results(), c.results());
    match (a.closed(), b.closed(), c.closed()) {
        (Some((x, xs)), Some((y, ys)), Some((z, zs))) => {
            lemma_seq_lt_order(xs, ys, zs);
        },
        (Some((x, xs)), Some((y, ys)), None) => {
            lemma_seq_lt_order(xs, ys, ys);
        },
        (Some((x, xs)), None, _) => {
            lemma_seq_lt_order(xs, xs, xs);
        },
        _ => {},
    }
}

/// Theorems sorted by the order, every one before every later one.
pub open spec fn theorems_sorted(s: Seq<Theorem>) -> bool {
    forall|i: int, j: int| 0 <= i < j < s.len() ==> theorem_lt(#[trigger] s[i], #[trigger] s[j])
}

/// Some theorem of `s` is the same as `x`.
pub open spec fn has_same(s: Seq<Theorem>, x: Theorem) -> bool {
    exists|i: int| 0 <= i < s.len() && #[trigger] same_theorem(s[i], x)
}

/// Whether the closing hints come before the other closing hints.
fn closed_less(a: &Option<(u32, Vec<HintPattern>)>, b: &Option<(u32, Vec<HintPattern>)>) -> (r: bool)
    ensures
        r == closed_lt(
            match a {
                Some((n, v)) => Some((*n, v@)),
                None => None,
            },
            match b {
                Some((n, v)) => Some((*n, v@)),
                None => None,
            },
        ),
{
    match (a, b) {
        (None, Some(_)) => true,
        (Some((x, xs)), Some((y, ys))) => *x < *y || (*x == *y && seq_less(xs, ys)),
        _ => false,
    }
}

/// Whether the closing hints are the same.
fn closed_same(a: &Option<(u32, Vec<HintPattern>)>, b: &Option<(u32, Vec<HintPattern>)>) -> (r: bool)
    ensures
        r == (match a {
            Some((n, v)) => Some((*n, v@)),
            None => None::<(u32, Seq<HintPattern>)>,
        } == match b {
            Some((n, v)) => Some((*n, v@)),
            None => None::<(u32, Seq<HintPattern>)>,
        }),
{
    match (a, b) {
        (None, None) => true,
        (Some((x, xs)), Some((y, ys))) => *x == *y && seq_same(xs, ys),
        _ => false,
    }
}

impl Theorem {
    /// Whether `self` comes before `other` in the order of theorems.
    pub fn less_than(&self, other: &Theorem) -> (r: bool)
        ensures
            r == theorem_lt(*self, *other),
    {
        proof {
            lemma_seq_lt_order(self.hints(), self.hints(), self.hints());
            lemma_seq_lt_order(self.edges(), self.edges(), self.edges());
            lemma_seq_lt_order(self.results(), self.results(), self.results());
        }
        if self.size.0 != other.size.0 || self.size.1 != other.size.1 {
            return self.size.0 < other.size.0 || (self.size.0 == other.size.0 && self.size.1 < other.size.1);
        }
        if !seq_same(&self.hint_matcher, &other.hint_matcher) {
            return seq_less(&self.hint_matcher, &other.hint_matcher);
        }
        if !seq_same(&self.edge_matcher, &other.edge_matcher) {
            return seq_less(&self.edge_matcher, &other.edge_matcher);
        }
        if !seq_same(&self.result, &other.result) {
            return seq_less(&self.result, &other.result);
        }
        closed_less(&self.closed_hint, &other.closed_hint)
    }

    /// Whether the two theorems have the same size and lists.
    pub fn same_as(&self, other: &Theorem) -> (r: bool)
        ensures
            r == same_theorem(*self, *other),
    {
        self.size.0 == other.size.0 && self.size.1 == other.size.1
            && seq_same(&self.hint_matcher, &other.hint_matcher)
            && seq_same(&self.edge_matcher, &other.edge_matcher)
            && seq_same(&self.result, &other.result)
            && closed_same(&self.closed_hint, &other.closed_hint)
    }
}

/// Inserts `t` at its place among sorted theorems, unless the same theorem is there.
fn insert_theorem(v: &mut Vec<Theorem>, t: Theorem)
    requires
        theorems_sorted(old(v)@),
    ensures
        theorems_sorted(final(v)@),
        forall|x: Theorem| #[trigger] has_same(final(v)@, x) <==> has_same(old(v)@, x) || same_theorem(t, x),
        forall|i: int| 0 <= i < final(v)@.len() ==> (exists|j: int| 0 <= j < old(v)@.len() && #[trigger] final(v)@[i] == old(v)@[j])
            || final(v)@[i] == t,
{
    let n = v.len();
    let mut k: usize = 0;
    while k < n && v[k].less_than(&t)
        invariant
            k <= n,
            n == v@.len(),
            forall|i: int| 0 <= i < k ==> theorem_lt(#[trigger] v@[i], t),
        decreases n - k,
    {
        k = k + 1;
    }
    let ghost old_v = v@;
    if k < n && v[k].same_as(&t) {
        proof {
            assert forall|x: Theorem| #[trigger] has_same(old_v, x) <==> has_same(old_v, x) || same_theorem(t, x) by {
                if same_theorem(t, x) {
                    assert(same_theorem(old_v[k as int], x));
                }
            }
        }
        return;
    }
    proof {
        if k < n {
            lemma_theorem_order(t, old_v[k as int], t);
        }
        assert forall|j: int| k <= j < n implies theorem_lt(t, #[trigger] old_v[j]) by {
            if j > k {
                lemma_theorem_order(t, old_v[k as int], old_v[j]);
            }
        }
    }
    v.insert(k, t);
    proof {
        let nv = v@;
        assert forall|i: int, j: int| 0 <= i < j < nv.len() implies theorem_lt(#[trigger] nv[i], #[trigger] nv[j]) by {
            if j < k {
                assert(nv[i] == old_v[i] && nv[j] == old_v[j]);
            } else if j == k {
                assert(nv[i] == old_v[i]);
            } else if i < k {
                assert(nv[i] == old_v[i] && nv[j] == old_v[j - 1]);
                lemma_theorem_order(old_v[i], t, old_v[j - 1]);
            } else if i == k {
                assert(nv[j] == old_v[j - 1]);
            } else {
                assert(nv[i] == old_v[i - 1] && nv[j] == old_v[j - 1]);
            }
        }
        assert forall|x: Theorem| #[trigger] has_same(nv, x) <==> has_same(old_v, x) || same_theorem(t, x) by {
            if has_same(nv, x) {
                let i = choose|i: int| 0 <= i < nv.len() && #[trigger] same_theorem(nv[i], x);
                if i < k {
                    assert(same_theorem(old_v[i], x));
                } else if i > k {
                    assert(same_theorem(old_v[i - 1], x));
                }
            }
            if has_same(old_v, x) {
                let i = choose|i: int| 0 <= i < old_v.len() && #[trigger] same_theorem(old_v[i], x);
                if i < k {
                    assert(same_theorem(nv[i], x));
                } else {
                    assert(same_theorem(nv[i + 1], x));
                }
            }
            if same_theorem(t, x) {
                assert(same_theorem(nv[k as int], x));
            }
        }
        assert forall|i: int| 0 <= i < nv.len() implies (exists|j: int| 0 <= j < old_v.len() && #[trigger] nv[i] == old_v[j])
            || nv[i] == t by {
            if i < k {
                assert(nv[i] == old_v[i]);
            } else if i > k {
                assert(nv[i] == old_v[i - 1]);
            }
        }
    }
}

/// Turning a box swaps or keeps its two sides, so their sum is kept.
proof fn lemma_rotation_size_sum(rot: Rotation, s: Size)
    requires
        is_symmetry(rot.entries().0, rot.entries().1, rot.entries().2, rot.entries().3),
        0 < s.0 < i32::MAX,
        0 < s.1 < i32::MAX,
    ensures
        rotated_size(rot, s).0 + rotated_size(rot, s).1 == s.0 + s.1,
{
    let (a, b, c, d) = rot.entries();
    lemma_turn_in_box(rot, s, Point(0, 0));
    lemma_mul_unit(a, s.0 as int);
    lemma_mul_unit(b, s.1 as int);
    lemma_mul_unit(c, s.0 as int);
    lemma_mul_unit(d, s.1 as int);
}

/// `r` is theorem `t` turned by a rotation with the matrix entries `e`.
pub open spec fn turned_by(t: Theorem, e: (int, int, int, int), r: Theorem) -> bool {
    exists|rot: Rotation| rot.entries() == e && #[trigger] rotation_result(t, rot, r)
}

/// `imgs` are the eight images of `t` under the symmetries of the square: `t`, its
/// three turns, its mirror image, and the three turns of the mirror image.
pub open spec fn rotation_images(t: Theorem, imgs: Seq<Theorem>) -> bool {
    &&& imgs.len() == 8
    &&& same_theorem(imgs[0], t)
    &&& turned_by(t, (0, -1, 1, 0), imgs[1])
    &&& turned_by(t, (-1, 0, 0, -1), imgs[2])
    &&& turned_by(t, (0, 1, -1, 0), imgs[3])
    &&& turned_by(t, (1, 0, 0, -1), imgs[4])
    &&& turned_by(imgs[4], (0, -1, 1, 0), imgs[5])
    &&& turned_by(imgs[4], (-1, 0, 0, -1), imgs[6])
    &&& turned_by(imgs[4], (0, 1, -1, 0), imgs[7])
}

/// Turning one theorem, or two alike, by the same rotation gives alike theorems.
pub proof fn lemma_rotation_result_unique(t: Theorem, u: Theorem, rot: Rotation, r1: Theorem, r2: Theorem)
    requires
        same_theorem(t, u),
        rotation_result(t, rot, r1),
        rotation_result(u, rot, r2),
    ensures
        same_theorem(r1, r2),
{
    lemma_sorted_unique(r1.hints(), r2.hints());
    lemma_sorted_unique(r1.edges(), r2.edges());
    lemma_sorted_unique(r1.results(), r2.results());
    if t.closed() is Some {
        let (m1, rs1) = r1.closed()->0;
        let (m2, rs2) = r2.closed()->0;
        lemma_sorted_unique(rs1, rs2);
    }
}

/// What `turned_by` relates is determined up to likeness.
pub proof fn lemma_turned_by_unique(t: Theorem, u: Theorem, e: (int, int, int, int), r1: Theorem, r2: Theorem)
    requires
        same_theorem(t, u),
        turned_by(t, e, r1),
        turned_by(u, e, r2),
    ensures
        same_theorem(r1, r2),
{
    let rot1 = choose|rot: Rotation| rot.entries() == e && #[trigger] rotation_result(t, rot, r1);
    let rot2 = choose|rot: Rotation| rot.entries() == e && #[trigger] rotation_result(u, rot, r2);
    rot1.lemma_entries_injective(rot2);
    lemma_rotation_result_unique(t, u, rot1, r1, r2);
}

/// Two lists of the images of a theorem hold alike theorems at each place.
pub proof fn lemma_rotation_images_unique(t: Theorem, a: Seq<Theorem>, b: Seq<Theorem>)
    requires
        rotation_images(t, a),
        rotation_images(t, b),
    ensures
        forall|k: int| 0 <= k < 8 ==> #[trigger] same_theorem(a[k], b[k]),
{
    lemma_turned_by_unique(t, t, (0, -1, 1, 0), a[1], b[1]);
    lemma_turned_by_unique(t, t, (-1, 0, 0, -1), a[2], b[2]);
    lemma_turned_by_unique(t, t, (0, 1, -1, 0), a[3], b[3]);
    lemma_turned_by_unique(t, t, (1, 0, 0, -1), a[4], b[4]);
    lemma_turned_by_unique(a[4], b[4], (0, -1, 1, 0), a[5], b[5]);
    lemma_turned_by_unique(a[4], b[4], (-1, 0, 0, -1), a[6], b[6]);
    lemma_turned_by_unique(a[4], b[4], (0, 1, -1, 0), a[7], b[7]);
}

impl Theorem {
    /// The distinct images of the theorem under the eight symmetries of the square, in
    /// order.
    pub fn all_rotations(self) -> (r: Vec<Theorem>)
        requires
            self.wf(),
        ensures
            theorems_sorted(r@),
            forall|i: int| 0 <= i < r@.len() ==> (#[trigger] r@[i]).wf(),
            exists|imgs: Seq<Theorem>| #[trigger] rotation_images(self, imgs) && forall|x: Theorem|
                #[trigger] has_same(r@, x) <==> has_same(imgs, x),
            forall|i: int| 0 <= i < r@.len() ==> (#[trigger] r@[i]).spec_size().0 + r@[i].spec_size().1
                == self.spec_size().0 + self.spec_size().1,
    {
        let r90 = Rotation::ucw90();
        let r180 = Rotation::ucw180();
        let r270 = Rotation::ucw270();
        let flip = Rotation::h_flip();
        let deg90 = self.rotate(r90);
        let deg180 = self.rotate(r180);
        let deg270 = self.rotate(r270);
        let h_deg0 = self.rotate(flip);
        let h_deg90 = h_deg0.rotate(r90);
        let h_deg180 = h_deg0.rotate(r180);
        let h_deg270 = h_deg0.rotate(r270);
        let ghost imgs = seq![self, deg90, deg180, deg270, h_deg0, h_deg90, h_deg180, h_deg270];
        let ghost total = self.spec_size().0 + self.spec_size().1;
        proof {
            lemma_rotation_size_sum(r90, self.spec_size());
            lemma_rotation_size_sum(r180, self.spec_size());
            lemma_rotation_size_sum(r270, self.spec_size());
            lemma_rotation_size_sum(flip, self.spec_size());
            lemma_rotation_size_sum(r90, h_deg0.spec_size());
            lemma_rotation_size_sum(r180, h_deg0.spec_size());
            lemma_rotation_size_sum(r270, h_deg0.spec_size());
            assert(rotation_result(imgs[0], r90, imgs[1]));
            assert(rotation_images(self, imgs));
        }
        let mut list: Vec<Theorem> = vec![self, deg90, deg180, deg270, h_deg0, h_deg90, h_deg180, h_deg270];
        assert(list@ =~= imgs);
        let mut rots: Vec<Theorem> = Vec::new();
        while list.len() > 0
            invariant
                theorems_sorted(rots@),
                forall|i: int| 0 <= i < rots@.len() ==> (#[trigger] rots@[i]).wf(),
                forall|i: int| 0 <= i < list@.len() ==> (#[trigger] list@[i]).wf(),
                forall|i: int| 0 <= i < rots@.len() ==> (#[trigger] rots@[i]).spec_size().0 + rots@[i].spec_size().1 == total,
                forall|i: int| 0 <= i < list@.len() ==> (#[trigger] list@[i]).spec_size().0 + list@[i].spec_size().1 == total,
                forall|x: Theorem| has_same(rots@, x) || has_same(list@, x) <==> #[trigger] has_same(imgs, x),
            decreases list.len(),
        {
            let ghost before_list = list@;
            let ghost before_rots = rots@;
            let t = list.pop().unwrap();
            proof {
                assert(before_list.last() == t);
                assert(list@ =~= before_list.drop_last());
            }
            insert_theorem(&mut rots, t);
            proof {
                assert forall|i: int| 0 <= i < rots@.len() implies (#[trigger] rots@[i]).wf() && rots@[i].spec_size().0
                    + rots@[i].spec_size().1 == total by {
                    if rots@[i] != t {
                        let j = choose|j: int| 0 <= j < before_rots.len() && #[trigger] rots@[i] == before_rots[j];
                        assert(before_rots[j].wf());
                    }
                }
                assert forall|x: Theorem| has_same(rots@, x) || has_same(list@, x) <==> #[trigger] has_same(imgs, x) by {
                    if has_same(before_list, x) {
                        let i = choose|i: int| 0 <= i < before_list.len() && #[trigger] same_theorem(before_list[i], x);
                        if i < list@.len() {
                            assert(same_theorem(list@[i], x));
                        }
                    }
                    if has_same(list@, x) {
                        let i = choose|i: int| 0 <= i < list@.len() && #[trigger] same_theorem(list@[i], x);
                        assert(same_theorem(before_list[i], x));
                    }
                    if same_theorem(t, x) {
                        assert(same_theorem(before_list[before_list.len() - 1], x));
                    }
                }
            }
        }
        rots
    }
}

} // verus!
