//! Patterns of a theorem: a hint at a point, or an edge between two cells.
use vstd::prelude::*;

use crate::geom::{fits_i32, point_lt, valid_size, CellId, Move, Point, Rotation, Size};
use crate::model::{Error, ErrorKind, SolverResult, State};
use crate::puzzle::{Edge, Puzzle};
use crate::side_map::SideMap;
use crate::sorted::Ordered;

verus! {

/// What matching a pattern against the board found.
#[derive(Copy, Clone, Debug, PartialEq, Eq, Structural)]
pub enum PatternMatchResult<T> {
    /// The board shows the pattern.
    Complete,
    /// Nothing is known yet; what is left to match.
    Partial(T),
    /// The board contradicts the pattern.
    Conflict,
}

/// `p` turned by `rot` around the origin.
pub open spec fn rotate_point(rot: Rotation, p: Point) -> Point {
    let (a, b, c, d) = rot.entries();
    Point((a * p.0 + b * p.1) as i32, (c * p.0 + d * p.1) as i32)
}

/// `p` moved by `d`.
pub open spec fn shift_point(p: Point, d: Move) -> Point {
    Point((p.0 + d.0) as i32, (p.1 + d.1) as i32)
}

/// `p` can be turned around the origin without overflow.
pub open spec fn rotatable(p: Point) -> bool {
    p.0 != i32::MIN && p.1 != i32::MIN
}

/// `p` can be moved by `d` without overflow.
pub open spec fn shiftable(p: Point, d: Move) -> bool {
    fits_i32(p.0 + d.0) && fits_i32(p.1 + d.1)
}

/// Turns `p` around the origin.
pub fn rotate_around_origin(p: Point, rot: Rotation) -> (r: Point)
    requires
        rotatable(p),
    ensures
        r == rotate_point(rot, p),
{
    let o = Point(0, 0);
    let m = rot.mul(p.sub(o));
    o.add(m)
}

/// Values that can be turned around the origin and moved.
pub trait Transform: Sized {
    /// Turning does not overflow.
    spec fn can_rotate(self) -> bool;

    /// Moving by `d` does not overflow.
    spec fn can_shift(self, d: Move) -> bool;

    /// The value turned by `rot`.
    spec fn spec_rotate(self, rot: Rotation) -> Self;

    /// The value moved by `d`.
    spec fn spec_shift(self, d: Move) -> Self;

    /// Turns the value by `rot` around the origin.
    fn rotate(self, rot: Rotation) -> (r: Self)
        requires
            self.can_rotate(),
        ensures
            r == self.spec_rotate(rot),
    ;

    /// Moves the value by `d`.
    fn shift(self, d: Move) -> (r: Self)
        requires
            self.can_shift(d),
        ensures
            r == self.spec_shift(d),
    ;
}

/// A hint that a theorem expects at a point.
#[derive(Copy, Clone, Debug, PartialEq, Eq, Structural, PartialOrd, Ord)]
pub struct HintPattern {
    hint: u8,
    point: Point,
}

/// The order of hint patterns: by hint, then by point.
pub open spec fn hint_pattern_lt(a: HintPattern, b: HintPattern) -> bool {
    a.spec_hint() < b.spec_hint() || (a.spec_hint() == b.spec_hint() && point_lt(a.spec_point(), b.spec_point()))
}

impl HintPattern {
    /// The hint expected.
    pub closed spec fn spec_hint(self) -> u8 {
        self.hint
    }

    /// The point where the hint is expected.
    pub closed spec fn spec_point(self) -> Point {
        self.point
    }

    /// The pattern of hint `h` at `p`.
    pub open spec fn spec_new(h: u8, p: Point) -> HintPattern {
        HintPattern::from_parts(h, p)
    }

    /// The pattern with hint `h` at `p`.
    pub closed spec fn from_parts(h: u8, p: Point) -> HintPattern {
        HintPattern { hint: h, point: p }
    }

    /// The parts of a pattern made from parts are those parts.
    pub proof fn lemma_from_parts(h: u8, p: Point)
        ensures
            HintPattern::from_parts(h, p).spec_hint() == h,
            HintPattern::from_parts(h, p).spec_point() == p,
    {
    }

    /// The pattern of hint `h` at `p`.
    pub fn new(h: u8, p: Point) -> (r: HintPattern)
        ensures
            r.spec_hint() == h,
            r.spec_point() == p,
            r == HintPattern::spec_new(h, p),
    {
        HintPattern { hint: h, point: p }.normalized()
    }

    /// The hint expected.
    pub fn hint(&self) -> (r: u8)
        ensures
            r == self.spec_hint(),
    {
        self.hint
    }

    /// The point where the hint is expected.
    pub fn point(&self) -> (r: Point)
        ensures
            r == self.spec_point(),
    {
        self.point
    }

    /// The canonical form; a hint pattern is always canonical.
    pub fn normalized(self) -> (r: HintPattern)
        ensures
            r == self,
    {
        self
    }

    /// Whether `self` comes before `other`: by hint, then by point.
    pub fn less_than(&self, other: &HintPattern) -> (r: bool)
        ensures
            r == hint_pattern_lt(*self, *other),
    {
        self.hint < other.hint || (self.hint == other.hint && self.point.less_than(other.point))
    }

    /// Whether the two patterns are the same.
    pub fn same(&self, other: &HintPattern) -> (r: bool)
        ensures
            r == (*self == *other),
    {
        self.hint == other.hint && self.point.0 == other.point.0 && self.point.1 == other.point.1
    }

    /// Complete when the puzzle shows the hint at the point, a conflict otherwise.
    pub fn matches<T>(self, puzzle: &Puzzle) -> (r: SolverResult<PatternMatchResult<T>>)
        requires
            puzzle.wf(),
        ensures
            r == if puzzle.hint_at(self.spec_point()) == Some(self.spec_hint()) {
                Ok::<PatternMatchResult<T>, Error>(PatternMatchResult::Complete)
            } else {
                Ok::<PatternMatchResult<T>, Error>(PatternMatchResult::Conflict)
            },
    {
        let h = puzzle.hint(self.point);
        let found = match h {
            Some(n) => n == self.hint,
            None => false,
        };
        if found {
            Ok(PatternMatchResult::Complete)
        } else {
            Ok(PatternMatchResult::Conflict)
        }
    }
}

impl Transform for HintPattern {
    open spec fn can_rotate(self) -> bool {
        rotatable(self.spec_point())
    }

    open spec fn can_shift(self, d: Move) -> bool {
        shiftable(self.spec_point(), d)
    }

    open spec fn spec_rotate(self, rot: Rotation) -> HintPattern {
        HintPattern::from_parts(self.spec_hint(), rotate_point(rot, self.spec_point()))
    }

    open spec fn spec_shift(self, d: Move) -> HintPattern {
        HintPattern::from_parts(self.spec_hint(), shift_point(self.spec_point(), d))
    }

    fn rotate(self, rot: Rotation) -> (r: HintPattern) {
        let p = rotate_around_origin(self.point, rot);
        HintPattern { hint: self.hint, point: p }.normalized()
    }

    fn shift(self, d: Move) -> (r: HintPattern) {
        let p = self.point.add(d);
        HintPattern { hint: self.hint, point: p }.normalized()
    }
}

/// The rank of an edge in the order of edges: lines first.
pub open spec fn edge_rank(e: Edge) -> int {
    match e {
        Edge::Line => 0,
        Edge::Cross => 1,
    }
}

/// An edge that a theorem expects or concludes between two cells.
#[derive(Copy, Clone, Debug, PartialEq, Eq, Structural, PartialOrd, Ord)]
pub struct EdgePattern<P> {
    edge: Edge,
    first: P,
    second: P,
}

/// The two points in order, the smaller first.
pub open spec fn ordered_points(a: Point, b: Point) -> (Point, Point) {
    if point_lt(b, a) {
        (b, a)
    } else {
        (a, b)
    }
}

/// The order of edge patterns on points: by edge, then by first point, then by second.
pub open spec fn edge_pattern_lt(a: EdgePattern<Point>, b: EdgePattern<Point>) -> bool {
    let (a0, a1) = a.spec_points();
    let (b0, b1) = b.spec_points();
    ||| edge_rank(a.spec_edge()) < edge_rank(b.spec_edge())
    ||| edge_rank(a.spec_edge()) == edge_rank(b.spec_edge()) && point_lt(a0, b0)
    ||| edge_rank(a.spec_edge()) == edge_rank(b.spec_edge()) && a0 == b0 && point_lt(a1, b1)
}

/// The order of edge patterns on cells: by edge, then by first cell, then by second.
pub open spec fn cell_pattern_lt(a: EdgePattern<CellId>, b: EdgePattern<CellId>) -> bool {
    let (a0, a1) = a.spec_points();
    let (b0, b1) = b.spec_points();
    ||| edge_rank(a.spec_edge()) < edge_rank(b.spec_edge())
    ||| edge_rank(a.spec_edge()) == edge_rank(b.spec_edge()) && a0.spec_id() < b0.spec_id()
    ||| edge_rank(a.spec_edge()) == edge_rank(b.spec_edge()) && a0 == b0 && a1.spec_id() < b1.spec_id()
}

/// Whether `a` comes before `b` in the order of edges.
fn edge_before(a: Edge, b: Edge) -> (r: bool)
    ensures
        r == (edge_rank(a) < edge_rank(b)),
{
    match (a, b) {
        (Edge::Line, Edge::Cross) => true,
        _ => false,
    }
}

/// Whether two edges are the same.
fn same_edge(a: Edge, b: Edge) -> (r: bool)
    ensures
        r == (a == b),
{
    match (a, b) {
        (Edge::Line, Edge::Line) => true,
        (Edge::Cross, Edge::Cross) => true,
        _ => false,
    }
}

impl<P> EdgePattern<P> {
    /// The edge expected.
    pub closed spec fn spec_edge(self) -> Edge {
        self.edge
    }

    /// The two cells on either side of the edge.
    pub closed spec fn spec_points(self) -> (P, P) {
        (self.first, self.second)
    }

    /// The pattern of edge `e` between the two cells, in the order given.
    pub closed spec fn from_parts(e: Edge, points: (P, P)) -> EdgePattern<P> {
        EdgePattern { edge: e, first: points.0, second: points.1 }
    }

    /// The parts of a pattern made from parts are those parts.
    pub proof fn lemma_from_parts(e: Edge, points: (P, P))
        ensures
            EdgePattern::from_parts(e, points).spec_edge() == e,
            EdgePattern::from_parts(e, points).spec_points() == points,
    {
    }

    /// The edge expected.
    pub fn edge(&self) -> (r: Edge)
        ensures
            r == self.spec_edge(),
    {
        self.edge
    }

    /// The two cells on either side of the edge.
    pub fn points(&self) -> (r: (P, P))
        where
            P: Copy,
        ensures
            r == self.spec_points(),
    {
        (self.first, self.second)
    }
}

impl EdgePattern<Point> {
    /// The canonical pattern of edge `e` between `p0` and `p1`: the smaller point first.
    pub open spec fn spec_new(e: Edge, p0: Point, p1: Point) -> EdgePattern<Point> {
        EdgePattern::from_parts(e, ordered_points(p0, p1))
    }

    /// A cross (same side) between `p0` and `p1`.
    pub fn cross(p0: Point, p1: Point) -> (r: EdgePattern<Point>)
        ensures
            r == EdgePattern::spec_new(Edge::Cross, p0, p1),
    {
        EdgePattern { edge: Edge::Cross, first: p0, second: p1 }.normalized()
    }

    /// A line (different sides) between `p0` and `p1`.
    pub fn line(p0: Point, p1: Point) -> (r: EdgePattern<Point>)
        ensures
            r == EdgePattern::spec_new(Edge::Line, p0, p1),
    {
        EdgePattern { edge: Edge::Line, first: p0, second: p1 }.normalized()
    }

    /// The same pattern with the smaller point first.
    pub fn normalized(self) -> (r: EdgePattern<Point>)
        ensures
            r == EdgePattern::spec_new(self.spec_edge(), self.spec_points().0, self.spec_points().1),
    {
        if self.second.less_than(self.first) {
            EdgePattern { edge: self.edge, first: self.second, second: self.first }
        } else {
            self
        }
    }

    /// Whether `self` comes before `other`.
    pub fn less_than(&self, other: &EdgePattern<Point>) -> (r: bool)
        ensures
            r == edge_pattern_lt(*self, *other),
    {
        let (a0, a1) = (self.first, self.second);
        let (b0, b1) = (other.first, other.second);
        if edge_before(self.edge, other.edge) {
            return true;
        }
        if !same_edge(self.edge, other.edge) {
            return false;
        }
        a0.less_than(b0) || (a0.0 == b0.0 && a0.1 == b0.1 && a1.less_than(b1))
    }

    /// Whether the two patterns are the same.
    pub fn same(&self, other: &EdgePattern<Point>) -> (r: bool)
        ensures
            r == (*self == *other),
    {
        let (a0, a1) = (self.first, self.second);
        let (b0, b1) = (other.first, other.second);
        same_edge(self.edge, other.edge) && a0.0 == b0.0 && a0.1 == b0.1 && a1.0 == b1.0 && a1.1 == b1.1
    }

    /// The pattern on the cells of `size` that the two points fall in.
    pub open spec fn spec_to_cellid(self, size: Size) -> EdgePattern<CellId> {
        EdgePattern::from_parts(
            self.spec_edge(),
            (
                CellId::spec_new(size.spec_point_to_cellid(self.spec_points().0)),
                CellId::spec_new(size.spec_point_to_cellid(self.spec_points().1)),
            ),
        )
    }

    /// The pattern on the cells of the puzzle.
    pub fn to_cellid(self, puzzle: &Puzzle) -> (r: EdgePattern<CellId>)
        requires
            puzzle.wf(),
        ensures
            r == self.spec_to_cellid(puzzle.spec_size()),
            r.spec_points().0.spec_id() < puzzle.spec_size().spec_cell_len(),
            r.spec_points().1.spec_id() < puzzle.spec_size().spec_cell_len(),
    {
        let size = puzzle.size();
        let p0 = size.point_to_cellid(self.first);
        let p1 = size.point_to_cellid(self.second);
        proof {
            CellId::lemma_spec_new(p0);
            CellId::lemma_spec_new(p1);
        }
        EdgePattern { edge: self.edge, first: p0, second: p1 }
    }

    /// Matches the pattern on the cells of the puzzle against what the side map knows.
    pub fn matches(self, puzzle: &Puzzle, side_map: &mut SideMap) -> (r: SolverResult<PatternMatchResult<EdgePattern<CellId>>>)
        requires
            puzzle.wf(),
            old(side_map).wf(),
            old(side_map).num_cells() == puzzle.spec_size().spec_cell_len(),
        ensures
            final(side_map).wf(),
            final(side_map).same_view(*old(side_map)),
            r == edge_match_result(self.spec_to_cellid(puzzle.spec_size()), old(side_map).edge_state(
                self.spec_to_cellid(puzzle.spec_size()).spec_points().0.spec_id(),
                self.spec_to_cellid(puzzle.spec_size()).spec_points().1.spec_id(),
            )),
    {
        self.to_cellid(puzzle).matches(side_map)
    }
}

/// What matching the edge pattern `pat` finds when the side map knows `st` of its edge.
pub open spec fn edge_match_result(pat: EdgePattern<CellId>, st: State<Edge>) -> SolverResult<PatternMatchResult<EdgePattern<CellId>>> {
    match st {
        State::Fixed(e) => if e == pat.spec_edge() {
            Ok(PatternMatchResult::Complete)
        } else {
            Ok(PatternMatchResult::Conflict)
        },
        State::Unknown => Ok(PatternMatchResult::Partial(pat)),
        State::Conflict => Err(Error::spec_invalid_board()),
    }
}

impl EdgePattern<CellId> {
    /// The pattern fits a side map of `n` cells.
    pub open spec fn fits(self, n: nat) -> bool {
        self.spec_points().0.spec_id() < n && self.spec_points().1.spec_id() < n
    }

    /// Whether `self` comes before `other`.
    pub fn less_than(&self, other: &EdgePattern<CellId>) -> (r: bool)
        ensures
            r == cell_pattern_lt(*self, *other),
    {
        let (a0, a1) = (self.first, self.second);
        let (b0, b1) = (other.first, other.second);
        if edge_before(self.edge, other.edge) {
            return true;
        }
        if !same_edge(self.edge, other.edge) {
            return false;
        }
        proof {
            CellId::lemma_id_injective(a0, b0);
        }
        a0.id() < b0.id() || (a0.id() == b0.id() && a1.id() < b1.id())
    }

    /// Whether the two patterns are the same.
    pub fn same(&self, other: &EdgePattern<CellId>) -> (r: bool)
        ensures
            r == (*self == *other),
    {
        let (a0, a1) = (self.first, self.second);
        let (b0, b1) = (other.first, other.second);
        proof {
            CellId::lemma_id_injective(a0, b0);
            CellId::lemma_id_injective(a1, b1);
        }
        same_edge(self.edge, other.edge) && a0.id() == b0.id() && a1.id() == b1.id()
    }

    /// Complete when the side map knows the edge, a conflict when it knows the other
    /// edge, the pattern itself when nothing is known, and an error when the side map
    /// contradicts itself there.
    pub fn matches(self, side_map: &mut SideMap) -> (r: SolverResult<PatternMatchResult<EdgePattern<CellId>>>)
        requires
            old(side_map).wf(),
            self.fits(old(side_map).num_cells()),
        ensures
            final(side_map).wf(),
            final(side_map).same_view(*old(side_map)),
            r == edge_match_result(self, old(side_map).edge_state(
                self.spec_points().0.spec_id(),
                self.spec_points().1.spec_id(),
            )),
    {
        match side_map.get_edge(self.first, self.second) {
            State::Fixed(edg) => {
                if same_edge(self.edge, edg) {
                    Ok(PatternMatchResult::Complete)
                } else {
                    Ok(PatternMatchResult::Conflict)
                }
            },
            State::Unknown => Ok(PatternMatchResult::Partial(self)),
            State::Conflict => Err(Error::invalid_board()),
        }
    }

    /// Records the edge in the side map.
    pub fn apply(&self, side_map: &mut SideMap)
        requires
            old(side_map).wf(),
            self.fits(old(side_map).num_cells()),
        ensures
            final(side_map).wf(),
            old(side_map).set_result(
                *final(side_map),
                self.spec_points().0.spec_id(),
                self.spec_points().1.spec_id(),
                self.spec_edge() == Edge::Cross,
                true,
            ) || old(side_map).set_result(
                *final(side_map),
                self.spec_points().0.spec_id(),
                self.spec_points().1.spec_id(),
                self.spec_edge() == Edge::Cross,
                false,
            ),
    {
        let _ = side_map.set_edge(self.first, self.second, self.edge);
    }
}

/// Moving or turning a hint pattern keeps its hint; moving adds the move to its point,
/// turning turns its point around the origin.
pub proof fn lemma_hint_transform(h: HintPattern, rot: Rotation, d: Move)
    ensures
        h.spec_rotate(rot).spec_hint() == h.spec_hint(),
        h.spec_shift(d).spec_hint() == h.spec_hint(),
        h.spec_rotate(rot).spec_point() == rotate_point(rot, h.spec_point()),
        h.spec_shift(d).spec_point() == shift_point(h.spec_point(), d),
{
    HintPattern::lemma_from_parts(h.spec_hint(), rotate_point(rot, h.spec_point()));
    HintPattern::lemma_from_parts(h.spec_hint(), shift_point(h.spec_point(), d));
}

/// An edge pattern made of two points keeps its edge and holds the smaller point first.
pub proof fn lemma_edge_new(e: Edge, p0: Point, p1: Point)
    ensures
        EdgePattern::spec_new(e, p0, p1).spec_edge() == e,
        EdgePattern::spec_new(e, p0, p1).spec_points() == ordered_points(p0, p1),
        !point_lt(EdgePattern::spec_new(e, p0, p1).spec_points().1, EdgePattern::spec_new(e, p0, p1).spec_points().0),
{
    EdgePattern::<Point>::lemma_from_parts(e, ordered_points(p0, p1));
}

/// Moving or turning an edge pattern keeps its edge, and the result holds the smaller
/// point first.
pub proof fn lemma_edge_transform(e: EdgePattern<Point>, rot: Rotation, d: Move)
    ensures
        e.spec_rotate(rot).spec_edge() == e.spec_edge(),
        e.spec_shift(d).spec_edge() == e.spec_edge(),
        !point_lt(e.spec_rotate(rot).spec_points().1, e.spec_rotate(rot).spec_points().0),
        !point_lt(e.spec_shift(d).spec_points().1, e.spec_shift(d).spec_points().0),
{
    lemma_edge_new(e.spec_edge(), rotate_point(rot, e.spec_points().0), rotate_point(rot, e.spec_points().1));
    lemma_edge_new(e.spec_edge(), shift_point(e.spec_points().0, d), shift_point(e.spec_points().1, d));
}

impl Transform for EdgePattern<Point> {
    open spec fn can_rotate(self) -> bool {
        rotatable(self.spec_points().0) && rotatable(self.spec_points().1)
    }

    open spec fn can_shift(self, d: Move) -> bool {
        shiftable(self.spec_points().0, d) && shiftable(self.spec_points().1, d)
    }

    open spec fn spec_rotate(self, rot: Rotation) -> EdgePattern<Point> {
        EdgePattern::spec_new(
            self.spec_edge(),
            rotate_point(rot, self.spec_points().0),
            rotate_point(rot, self.spec_points().1),
        )
    }

    open spec fn spec_shift(self, d: Move) -> EdgePattern<Point> {
        EdgePattern::spec_new(
            self.spec_edge(),
            shift_point(self.spec_points().0, d),
            shift_point(self.spec_points().1, d),
        )
    }

    fn rotate(self, rot: Rotation) -> (r: EdgePattern<Point>) {
        let q0 = rotate_around_origin(self.first, rot);
        let q1 = rotate_around_origin(self.second, rot);
        EdgePattern { edge: self.edge, first: q0, second: q1 }.normalized()
    }

    fn shift(self, d: Move) -> (r: EdgePattern<Point>) {
        EdgePattern { edge: self.edge, first: self.first.add(d), second: self.second.add(d) }.normalized()
    }
}

/// A pattern of a theorem: a hint or an edge.
#[derive(Copy, Clone, Debug, PartialEq, Eq, Structural, PartialOrd, Ord)]
pub enum Pattern {
    /// A hint at a point.
    Hint(HintPattern),
    /// An edge between two points.
    Edge(EdgePattern<Point>),
}

impl Pattern {
    /// The hint pattern of `h` at `p`.
    pub fn hint(h: u8, p: Point) -> (r: Pattern)
        ensures
            r matches Pattern::Hint(hp) && hp.spec_hint() == h && hp.spec_point() == p,
    {
        Pattern::Hint(HintPattern::new(h, p))
    }

    /// The cross pattern between `p0` and `p1`.
    pub fn cross(p0: Point, p1: Point) -> (r: Pattern)
        ensures
            r == Pattern::Edge(EdgePattern::spec_new(Edge::Cross, p0, p1)),
    {
        Pattern::Edge(EdgePattern::cross(p0, p1))
    }

    /// The line pattern between `p0` and `p1`.
    pub fn line(p0: Point, p1: Point) -> (r: Pattern)
        ensures
            r == Pattern::Edge(EdgePattern::spec_new(Edge::Line, p0, p1)),
    {
        Pattern::Edge(EdgePattern::line(p0, p1))
    }

    /// Matches the pattern against the puzzle's hints or the side map's edges.
    pub fn matches(self, puzzle: &Puzzle, side_map: &mut SideMap) -> (r: SolverResult<PatternMatchResult<EdgePattern<CellId>>>)
        requires
            puzzle.wf(),
            old(side_map).wf(),
            old(side_map).num_cells() == puzzle.spec_size().spec_cell_len(),
        ensures
            final(side_map).wf(),
            final(side_map).same_view(*old(side_map)),
            match self {
                Pattern::Hint(h) => r == if puzzle.hint_at(h.spec_point()) == Some(h.spec_hint()) {
                    Ok::<PatternMatchResult<EdgePattern<CellId>>, Error>(PatternMatchResult::Complete)
                } else {
                    Ok::<PatternMatchResult<EdgePattern<CellId>>, Error>(PatternMatchResult::Conflict)
                },
                Pattern::Edge(e) => r == edge_match_result(e.spec_to_cellid(puzzle.spec_size()), old(side_map).edge_state(
                    e.spec_to_cellid(puzzle.spec_size()).spec_points().0.spec_id(),
                    e.spec_to_cellid(puzzle.spec_size()).spec_points().1.spec_id(),
                )),
            },
    {
        match self {
            Pattern::Hint(h) => h.matches(puzzle),
            Pattern::Edge(e) => e.matches(puzzle, side_map),
        }
    }
}

impl Transform for Pattern {
    open spec fn can_rotate(self) -> bool {
        match self {
            Pattern::Hint(h) => h.can_rotate(),
            Pattern::Edge(e) => e.can_rotate(),
        }
    }

    open spec fn can_shift(self, d: Move) -> bool {
        match self {
            Pattern::Hint(h) => h.can_shift(d),
            Pattern::Edge(e) => e.can_shift(d),
        }
    }

    open spec fn spec_rotate(self, rot: Rotation) -> Pattern {
        match self {
            Pattern::Hint(h) => Pattern::Hint(h.spec_rotate(rot)),
            Pattern::Edge(e) => Pattern::Edge(e.spec_rotate(rot)),
        }
    }

    open spec fn spec_shift(self, d: Move) -> Pattern {
        match self {
            Pattern::Hint(h) => Pattern::Hint(h.spec_shift(d)),
            Pattern::Edge(e) => Pattern::Edge(e.spec_shift(d)),
        }
    }

    fn rotate(self, rot: Rotation) -> (r: Pattern) {
        match self {
            Pattern::Hint(h) => Pattern::Hint(h.rotate(rot)),
            Pattern::Edge(e) => Pattern::Edge(e.rotate(rot)),
        }
    }

    fn shift(self, d: Move) -> (r: Pattern) {
        match self {
            Pattern::Hint(h) => Pattern::Hint(h.shift(d)),
            Pattern::Edge(e) => Pattern::Edge(e.shift(d)),
        }
    }
}

impl Ordered for HintPattern {
    open spec fn spec_lt(self, other: HintPattern) -> bool {
        hint_pattern_lt(self, other)
    }

    proof fn lemma_order(a: HintPattern, b: HintPattern, c: HintPattern) {
    }

    fn lt(&self, other: &HintPattern) -> (r: bool) {
        self.less_than(other)
    }

    fn equal(&self, other: &HintPattern) -> (r: bool) {
        self.same(other)
    }
}

impl Ordered for EdgePattern<Point> {
    open spec fn spec_lt(self, other: EdgePattern<Point>) -> bool {
        edge_pattern_lt(self, other)
    }

    proof fn lemma_order(a: EdgePattern<Point>, b: EdgePattern<Point>, c: EdgePattern<Point>) {
    }

    fn lt(&self, other: &EdgePattern<Point>) -> (r: bool) {
        self.less_than(other)
    }

    fn equal(&self, other: &EdgePattern<Point>) -> (r: bool) {
        self.same(other)
    }
}

impl Ordered for EdgePattern<CellId> {
    open spec fn spec_lt(self, other: EdgePattern<CellId>) -> bool {
        cell_pattern_lt(self, other)
    }

    proof fn lemma_order(a: EdgePattern<CellId>, b: EdgePattern<CellId>, c: EdgePattern<CellId>) {
        CellId::lemma_id_injective(a.first, b.first);
        CellId::lemma_id_injective(a.second, b.second);
    }

    fn lt(&self, other: &EdgePattern<CellId>) -> (r: bool) {
        self.less_than(other)
    }

    fn equal(&self, other: &EdgePattern<CellId>) -> (r: bool) {
        self.same(other)
    }
}

} // verus!
