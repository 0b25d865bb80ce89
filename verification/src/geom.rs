//! Grid geometry: points, sizes, moves, rotations, cell ids and tables.
use vstd::prelude::*;

verus! {

/// A point on the grid: `(row, column)`.
#[derive(Clone, Copy, Debug, PartialEq, Eq, Structural, Hash, PartialOrd, Ord)]
pub struct Point(pub i32, pub i32);

/// The size of a grid: `(rows, columns)`.
#[derive(Clone, Copy, Debug, PartialEq, Eq, Structural, Hash, PartialOrd, Ord)]
pub struct Size(pub i32, pub i32);

/// A displacement between two points: `(rows, columns)`.
#[derive(Clone, Copy, Debug, PartialEq, Eq, Structural, Hash)]
pub struct Move(pub i32, pub i32);

/// A 2x2 integer matrix `| a b ; c d |` that is one of the eight symmetries of the square.
#[derive(Clone, Copy, Debug, PartialEq, Eq, Structural, Hash)]
pub struct Rotation(i32, i32, i32, i32);

/// Strict lexicographic order on points (row first, then column).
pub open spec fn point_lt(a: Point, b: Point) -> bool {
    a.0 < b.0 || (a.0 == b.0 && a.1 < b.1)
}

/// The value `x` fits in an `i32`.
pub open spec fn fits_i32(x: int) -> bool {
    i32::MIN <= x <= i32::MAX
}

impl Point {
    /// The point standing for everything outside the grid.
    pub fn outside() -> (r: Point)
        ensures
            r == Point(-1i32, -1i32),
    {
        Point(-1, -1)
    }

    /// Compares two points in lexicographic order.
    pub fn less_than(self, other: Point) -> (r: bool)
        ensures
            r == point_lt(self, other),
    {
        self.0 < other.0 || (self.0 == other.0 && self.1 < other.1)
    }

    /// The point moved by `d`.
    pub fn add(self, d: Move) -> (r: Point)
        requires
            fits_i32(self.0 + d.0),
            fits_i32(self.1 + d.1),
        ensures
            r == Point((self.0 + d.0) as i32, (self.1 + d.1) as i32),
    {
        Point(self.0 + d.0, self.1 + d.1)
    }

    /// The move that leads from `other` to `self`.
    pub fn sub(self, other: Point) -> (r: Move)
        requires
            fits_i32(self.0 - other.0),
            fits_i32(self.1 - other.1),
        ensures
            r == Move((self.0 - other.0) as i32, (self.1 - other.1) as i32),
    {
        Move(self.0 - other.0, self.1 - other.1)
    }
}

impl Move {
    /// One row up.
    pub fn up() -> (r: Move)
        ensures
            r == Move(-1i32, 0i32),
    {
        Move(-1, 0)
    }
    /// One column right.
    pub fn right() -> (r: Move)
        ensures
            r == Move(0, 1),
    {
        Move(0, 1)
    }
    /// One row down.
    pub fn down() -> (r: Move)
        ensures
            r == Move(1, 0),
    {
        Move(1, 0)
    }
    /// One column left.
    pub fn left() -> (r: Move)
        ensures
            r == Move(0i32, -1i32),
    {
        Move(0, -1)
    }

    /// The four directions, clockwise from up.
    pub fn all_directions() -> (r: [Move; 4])
        ensures
            r@ == seq![Move(-1i32, 0i32), Move(0i32, 1i32), Move(1i32, 0i32), Move(0i32, -1i32)],
    {
        [Move(-1, 0), Move(0, 1), Move(1, 0), Move(0, -1)]
    }

    /// Component-wise sum.
    pub fn add(self, other: Move) -> (r: Move)
        requires
            fits_i32(self.0 + other.0),
            fits_i32(self.1 + other.1),
        ensures
            r == Move((self.0 + other.0) as i32, (self.1 + other.1) as i32),
    {
        Move(self.0 + other.0, self.1 + other.1)
    }

    /// Component-wise difference.
    pub fn sub(self, other: Move) -> (r: Move)
        requires
            fits_i32(self.0 - other.0),
            fits_i32(self.1 - other.1),
        ensures
            r == Move((self.0 - other.0) as i32, (self.1 - other.1) as i32),
    {
        Move(self.0 - other.0, self.1 - other.1)
    }

    /// The opposite move.
    pub fn neg(self) -> (r: Move)
        requires
            self.0 != i32::MIN,
            self.1 != i32::MIN,
        ensures
            r == Move(-self.0 as i32, -self.1 as i32),
    {
        Move(-self.0, -self.1)
    }

    /// The move scaled by `k`.
    pub fn scale(self, k: i32) -> (r: Move)
        requires
            fits_i32(self.0 * k),
            fits_i32(self.1 * k),
        ensures
            r == Move((self.0 * k) as i32, (self.1 * k) as i32),
    {
        Move(self.0 * k, self.1 * k)
    }
}

/// Entries of a symmetry of the square.
pub open spec fn is_symmetry(a: int, b: int, c: int, d: int) -> bool {
    ||| (a == 1 && b == 0 && c == 0 && d == 1)
    ||| (a == 0 && b == -1 && c == 1 && d == 0)
    ||| (a == -1 && b == 0 && c == 0 && d == -1)
    ||| (a == 0 && b == 1 && c == -1 && d == 0)
    ||| (a == 1 && b == 0 && c == 0 && d == -1)
    ||| (a == -1 && b == 0 && c == 0 && d == 1)
    ||| (a == 0 && b == 1 && c == 1 && d == 0)
    ||| (a == 0 && b == -1 && c == -1 && d == 0)
}

impl Rotation {
    /// Identity.
    pub fn ucw0() -> (r: Rotation)
        ensures
            r.entries() == (1int, 0int, 0int, 1int),
    {
        Rotation(1, 0, 0, 1)
    }
    /// Quarter turn.
    pub fn ucw90() -> (r: Rotation)
        ensures
            r.entries() == (0int, -1int, 1int, 0int),
    {
        Rotation(0, -1, 1, 0)
    }
    /// Half turn.
    pub fn ucw180() -> (r: Rotation)
        ensures
            r.entries() == (-1int, 0int, 0int, -1int),
    {
        Rotation(-1, 0, 0, -1)
    }
    /// Three quarter turn.
    pub fn ucw270() -> (r: Rotation)
        ensures
            r.entries() == (0int, 1int, -1int, 0int),
    {
        Rotation(0, 1, -1, 0)
    }
    /// Mirror that negates the column.
    pub fn h_flip() -> (r: Rotation)
        ensures
            r.entries() == (1int, 0int, 0int, -1int),
    {
        Rotation(1, 0, 0, -1)
    }
    /// Mirror that negates the row.
    pub fn v_flip() -> (r: Rotation)
        ensures
            r.entries() == (-1int, 0int, 0int, 1int),
    {
        Rotation(-1, 0, 0, 1)
    }

    #[verifier::type_invariant]
    spec fn inv(self) -> bool {
        is_symmetry(self.0 as int, self.1 as int, self.2 as int, self.3 as int)
    }

    /// Matrix entries `(a, b, c, d)`.
    pub closed spec fn entries(self) -> (int, int, int, int) {
        (self.0 as int, self.1 as int, self.2 as int, self.3 as int)
    }

    /// A rotation is determined by its entries.
    pub proof fn lemma_entries_injective(self, other: Rotation)
        requires
            self.entries() == other.entries(),
        ensures
            self == other,
    {
    }

    /// The matrix entries, row by row.
    pub fn coefficients(self) -> (r: (i32, i32, i32, i32))
        ensures
            (r.0 as int, r.1 as int, r.2 as int, r.3 as int) == self.entries(),
            is_symmetry(r.0 as int, r.1 as int, r.2 as int, r.3 as int),
    {
        proof {
            use_type_invariant(self);
        }
        (self.0, self.1, self.2, self.3)
    }

    /// Matrix product `self * other`.
    pub fn mul_mat(self, other: Rotation) -> (r: Rotation)
        ensures
            r.entries() == ({
                let (a, b, c, d) = self.entries();
                let (e, f, g, h) = other.entries();
                (a * e + b * g, a * f + b * h, c * e + d * g, c * f + d * h)
            }),
    {
        proof {
            use_type_invariant(self);
            use_type_invariant(other);
        }
        Rotation(
            self.0 * other.0 + self.1 * other.2,
            self.0 * other.1 + self.1 * other.3,
            self.2 * other.0 + self.3 * other.2,
            self.2 * other.1 + self.3 * other.3,
        )
    }

    /// Matrix times column vector: `self * m`.
    pub fn mul(self, m: Move) -> (r: Move)
        requires
            m.0 != i32::MIN,
            m.1 != i32::MIN,
        ensures
            r.0 == self.entries().0 * m.0 + self.entries().1 * m.1,
            r.1 == self.entries().2 * m.0 + self.entries().3 * m.1,
    {
        proof {
            use_type_invariant(self);
            let (x, y) = (m.0 as int, m.1 as int);
            assert(fits_i32(self.0 * x) && fits_i32(self.1 * y) && fits_i32(self.2 * x)
                && fits_i32(self.3 * y) && fits_i32(self.0 * x + self.1 * y)
                && fits_i32(self.2 * x + self.3 * y)) by (nonlinear_arith)
                requires
                    is_symmetry(self.0 as int, self.1 as int, self.2 as int, self.3 as int),
                    i32::MIN < x <= i32::MAX,
                    i32::MIN < y <= i32::MAX,
            ;
        }
        Move(self.0 * m.0 + self.1 * m.1, self.2 * m.0 + self.3 * m.1)
    }
}

/// The identifier of a cell: `0` is the outside, cells inside are numbered from `1`.
#[derive(Clone, Copy, Debug, PartialEq, Eq, Structural, Hash, PartialOrd, Ord)]
pub struct CellId(usize);


impl CellId {
    /// The cell id standing for everything outside the grid.
    pub fn outside() -> (r: CellId)
        ensures
            r.spec_id() == 0,
    {
        CellId(0)
    }

    /// The number of the cell.
    pub closed spec fn spec_id(self) -> nat {
        self.0 as nat
    }

    /// The cell id of number `n`.
    pub closed spec fn spec_new(n: nat) -> CellId {
        CellId(n as usize)
    }

    /// A cell id is the one of its number, and the number of `spec_new(n)` is `n` when
    /// `n` fits a `usize`.
    pub proof fn lemma_spec_new(c: CellId)
        ensures
            c == CellId::spec_new(c.spec_id()),
            forall|n: nat| n <= usize::MAX ==> #[trigger] CellId::spec_new(n).spec_id() == n,
    {
    }

    /// Makes a cell id from its number.
    pub fn new(id: usize) -> (r: CellId)
        ensures
            r.spec_id() == id,
    {
        CellId(id)
    }

    /// The number of the cell.
    pub fn id(self) -> (r: usize)
        ensures
            r == self.spec_id(),
    {
        self.0
    }

    /// Whether the id is the one of the outside.
    pub fn is_outside(self) -> (r: bool)
        ensures
            r == (self.spec_id() == 0),
    {
        self.0 == 0
    }

    /// Two ids are equal exactly when their numbers are.
    pub proof fn lemma_id_injective(a: CellId, b: CellId)
        ensures
            (a.spec_id() == b.spec_id()) == (a == b),
    {
    }
}

/// A size with non-negative dimensions whose cell count fits in an `i32`.
pub open spec fn valid_size(s: Size) -> bool {
    0 <= s.0 && 0 <= s.1 && s.0 * s.1 < i32::MAX
}

/// The points of a grid of size `s` in row-major order.
pub open spec fn row_major(s: Size) -> Seq<Point>
    recommends
        valid_size(s),
{
    Seq::new((s.0 * s.1) as nat, |i: int| Point((i / s.1 as int) as i32, (i % s.1 as int) as i32))
}

impl Size {
    /// Whether `p` lies inside the grid.
    pub open spec fn spec_contains(self, p: Point) -> bool {
        0 <= p.0 < self.0 && 0 <= p.1 < self.1
    }

    /// The number of cells, the outside included.
    pub open spec fn spec_cell_len(self) -> int {
        self.0 * self.1 + 1
    }

    /// The cell id of a point: `0` outside, `p.0 * columns + p.1 + 1` inside.
    pub open spec fn spec_point_to_cellid(self, p: Point) -> nat {
        if self.spec_contains(p) {
            (p.0 * self.1 + p.1 + 1) as nat
        } else {
            0
        }
    }

    /// The point of a cell id: `OUTSIDE_POINT` for `0`.
    pub open spec fn spec_cellid_to_point(self, id: nat) -> Point {
        if id == 0 {
            Point(-1i32, -1i32)
        } else {
            Point((((id - 1) as int) / self.1 as int) as i32, (((id - 1) as int) % self.1 as int) as i32)
        }
    }

    /// Number of rows.
    pub fn row(&self) -> (r: i32)
        ensures
            r == self.0,
    {
        self.0
    }

    /// Number of columns.
    pub fn column(&self) -> (r: i32)
        ensures
            r == self.1,
    {
        self.1
    }

    /// Number of cells, the outside cell included.
    pub fn cell_len(&self) -> (r: usize)
        requires
            valid_size(*self),
        ensures
            r == self.spec_cell_len(),
    {
        (self.0 * self.1 + 1) as usize
    }

    /// Whether `p` lies inside the grid.
    pub fn contains(&self, p: Point) -> (r: bool)
        ensures
            r == self.spec_contains(p),
    {
        0 <= p.0 && p.0 < self.0 && 0 <= p.1 && p.1 < self.1
    }

    /// The cell id of `p`; the outside id for points outside the grid.
    pub fn point_to_cellid(&self, p: Point) -> (r: CellId)
        requires
            valid_size(*self),
        ensures
            r.spec_id() == self.spec_point_to_cellid(p),
            r.spec_id() < self.spec_cell_len(),
    {
        if self.contains(p) {
            proof {
                lemma_index_in_grid(*self, p);
            }
            CellId((p.0 * self.1 + p.1 + 1) as usize)
        } else {
            CellId(0)
        }
    }

    /// The point of cell `id`; `OUTSIDE_POINT` for the outside id.
    pub fn cellid_to_point(&self, id: CellId) -> (r: Point)
        requires
            valid_size(*self),
            id.spec_id() < self.spec_cell_len(),
        ensures
            r == self.spec_cellid_to_point(id.spec_id()),
            id.spec_id() != 0 ==> self.spec_contains(r),
            id.spec_id() != 0 ==> self.spec_point_to_cellid(r) == id.spec_id(),
    {
        if id.0 == 0 {
            Point(-1, -1)
        } else {
            let idx = (id.0 - 1) as i32;
            proof {
                lemma_cellid_roundtrip(*self, idx as int);
            }
            Point(idx / self.1, idx % self.1)
        }
    }

    /// An iterator over all points of the grid in row-major order.
    pub fn points(&self) -> (r: Points)
        requires
            valid_size(*self),
        ensures
            r.remaining() == row_major(*self),
    {
        if self.0 > 0 && self.1 > 0 {
            let r = Points { point: Some(Point(0, 0)), size: *self };
            proof {
                assert(r.spec_pos() == 0) by (nonlinear_arith)
                    requires
                        r.point == Some(Point(0, 0)),
                        r.size == *self,
                ;
            }
            r
        } else {
            let r = Points { point: None, size: *self };
            proof {
                lemma_empty_grid(*self);
            }
            r
        }
    }

    /// An iterator over the points of row `row`.
    pub fn points_in_row(&self, row: i32) -> (r: PointsInRow)
        ensures
            r.remaining() == Seq::new(
                if self.1 > 0 { self.1 as nat } else { 0 },
                |c: int| Point(row, c as i32),
            ),
    {
        PointsInRow { row: row, next: 0, end: self.1 }
    }

    /// An iterator over the points of column `column`.
    pub fn points_in_column(&self, column: i32) -> (r: PointsInColumn)
        ensures
            r.remaining() == Seq::new(
                if self.0 > 0 { self.0 as nat } else { 0 },
                |rw: int| Point(rw as i32, column),
            ),
    {
        PointsInColumn { column: column, next: 0, end: self.0 }
    }
}

/// Inside points get ids between `1` and `rows * columns`.
pub proof fn lemma_point_to_cellid_bound(s: Size, p: Point)
    requires
        valid_size(s),
    ensures
        s.spec_point_to_cellid(p) < s.spec_cell_len(),
        s.spec_cell_len() <= i32::MAX,
{
    if s.spec_contains(p) {
        lemma_index_in_grid(s, p);
    }
}

/// Row-major indices of inside points lie inside the grid.
pub proof fn lemma_index_in_grid(s: Size, p: Point)
    requires
        valid_size(s),
        s.spec_contains(p),
    ensures
        0 <= p.0 * s.1 + p.1 < s.0 * s.1,
{
    assert(0 <= p.0 * s.1 + p.1 < s.0 * s.1) by (nonlinear_arith)
        requires
            0 <= p.0 < s.0,
            0 <= p.1 < s.1,
    ;
}

/// Quotient and remainder by the column count give back a point with that index.
pub proof fn lemma_cellid_roundtrip(s: Size, idx: int)
    requires
        valid_size(s),
        0 <= idx < s.0 * s.1,
    ensures
        s.1 > 0,
        s.spec_contains(Point((idx / s.1 as int) as i32, (idx % s.1 as int) as i32)),
        (idx / s.1 as int) * s.1 + idx % s.1 as int == idx,
{
    let c = s.1 as int;
    assert(c > 0) by (nonlinear_arith)
        requires
            0 <= idx < s.0 * s.1,
            c == s.1,
            0 <= s.0,
    ;
    assert(idx / c < s.0) by (nonlinear_arith)
        requires
            0 <= idx < s.0 * c,
            c > 0,
    ;
    assert(0 <= idx / c) by (nonlinear_arith)
        requires
            0 <= idx,
            c > 0,
    ;
    assert((idx / c) * c + idx % c == idx) by (nonlinear_arith)
        requires
            c > 0,
    ;
}

/// A grid with no rows or no columns has no points.
pub proof fn lemma_empty_grid(s: Size)
    requires
        valid_size(s),
        !(s.0 > 0 && s.1 > 0),
    ensures
        s.0 * s.1 == 0,
{
    assert(s.0 * s.1 == 0) by (nonlinear_arith)
        requires
            0 <= s.0,
            0 <= s.1,
            !(s.0 > 0 && s.1 > 0),
    ;
}

/// Iterator over the points of a grid in row-major order.
#[derive(Clone, Copy, Debug)]
pub struct Points {
    point: Option<Point>,
    size: Size,
}

impl Points {
    /// Index of the next point in row-major order.
    pub closed spec fn spec_pos(self) -> int {
        match self.point {
            Some(p) => p.0 * self.size.1 + p.1,
            None => self.size.0 * self.size.1,
        }
    }

    /// Internal consistency: the next point lies in the grid.
    pub closed spec fn wf(self) -> bool {
        &&& valid_size(self.size)
        &&& match self.point {
            Some(p) => self.size.spec_contains(p),
            None => true,
        }
    }

    /// The points that are still to come.
    pub closed spec fn remaining(self) -> Seq<Point> {
        if self.wf() {
            row_major(self.size).skip(self.spec_pos())
        } else {
            Seq::empty()
        }
    }

    /// Yields the next point.
    pub fn next(&mut self) -> (r: Option<Point>)
        ensures
            old(self).remaining().len() == 0 ==> r is None && final(self).remaining().len() == 0,
            old(self).remaining().len() > 0 ==> r == Some(old(self).remaining()[0])
                && final(self).remaining() == old(self).remaining().drop_first(),
    {
        if !self.wf_exec() {
            return None;
        }
        let ghost old_pos = self.spec_pos();
        let ghost size = self.size;
        proof {
            if self.point is Some {
                lemma_index_in_grid(size, self.point->0);
            }
        }
        if let Some(cur) = self.point {
            let mut next = cur;
            let mut end = false;
            next.1 = next.1 + 1;
            if next.1 >= self.size.1 {
                next.0 = next.0 + 1;
                next.1 = 0;
                if next.0 >= self.size.0 {
                    end = true;
                }
            }
            if !end {
                self.point = Some(next);
            } else {
                self.point = None;
            }
            proof {
                let c = size.1 as int;
                let k = old_pos;
                assert(k == cur.0 * c + cur.1);
                lemma_row_major_at(size, k);
                lemma_div_mod_point(c, cur.0 as int, cur.1 as int);
                if next.1 == 0 {
                    assert(next.0 * c == cur.0 * c + c) by (nonlinear_arith)
                        requires
                            next.0 == cur.0 + 1,
                    ;
                    if end {
                        assert(next.0 == size.0);
                    }
                }
                assert(self.spec_pos() == k + 1);
                assert(self.wf());
                assert(row_major(size).skip(k + 1) =~= row_major(size).skip(k).drop_first());
            }
            Some(cur)
        } else {
            None
        }
    }

    fn wf_exec(&self) -> (r: bool)
        ensures
            r == self.wf(),
    {
        let s = self.size;
        if !(0 <= s.0 && 0 <= s.1) {
            return false;
        }
        proof {
            assert(s.0 * s.1 <= i32::MAX * i32::MAX) by (nonlinear_arith)
                requires
                    0 <= s.0 <= i32::MAX,
                    0 <= s.1 <= i32::MAX,
            ;
        }
        if (s.0 as i64) * (s.1 as i64) >= i32::MAX as i64 {
            return false;
        }
        match self.point {
            Some(p) => s.contains(p),
            None => true,
        }
    }

    /// Collects the remaining points.
    pub fn to_vec(self) -> (r: Vec<Point>)
        ensures
            r@ == self.remaining(),
    {
        let mut it = self;
        let mut v: Vec<Point> = Vec::new();
        loop
            invariant
                v@ + it.remaining() == self.remaining(),
            ensures
                v@ == self.remaining(),
            decreases it.remaining().len(),
        {
            let ghost before = it.remaining();
            let p = it.next();
            match p {
                Some(q) => {
                    proof {
                        assert(before =~= seq![before[0]] + before.drop_first());
                    }
                    v.push(q);
                    assert(v@ + it.remaining() =~= self.remaining());
                },
                None => {
                    assert(v@ =~= self.remaining());
                    break;
                },
            }
        }
        v
    }
}

/// Row-major index arithmetic: `(r * c + col) / c == r` and `(r * c + col) % c == col`.
pub proof fn lemma_div_mod_point(c: int, r: int, col: int)
    requires
        0 <= col < c,
        0 <= r,
    ensures
        (r * c + col) / c == r,
        (r * c + col) % c == col,
{
    vstd::arithmetic::div_mod::lemma_fundamental_div_mod_converse(r * c + col, c, r, col);
}

/// Distinct inside points have distinct row-major indices.
pub proof fn lemma_grid_index_injective(s: Size, p: Point, q: Point)
    requires
        s.spec_contains(p),
        s.spec_contains(q),
        grid_index(s, p) == grid_index(s, q),
    ensures
        p == q,
{
    lemma_div_mod_point(s.1 as int, p.0 as int, p.1 as int);
    lemma_div_mod_point(s.1 as int, q.0 as int, q.1 as int);
}

/// The point of row-major index `k`.
pub proof fn lemma_row_major_at(s: Size, k: int)
    requires
        valid_size(s),
        0 <= k < s.0 * s.1,
    ensures
        row_major(s).len() == s.0 * s.1,
        row_major(s)[k] == Point((k / s.1 as int) as i32, (k % s.1 as int) as i32),
{
    lemma_cellid_roundtrip(s, k);
}

/// Iterator over the points of one row.
#[derive(Clone, Copy, Debug)]
pub struct PointsInRow {
    row: i32,
    next: i32,
    end: i32,
}

impl PointsInRow {
    /// The points that are still to come.
    pub closed spec fn remaining(self) -> Seq<Point> {
        Seq::new(
            if self.end > self.next { (self.end - self.next) as nat } else { 0 },
            |c: int| Point(self.row, (self.next + c) as i32),
        )
    }

    /// Yields the next point.
    pub fn next(&mut self) -> (r: Option<Point>)
        ensures
            old(self).remaining().len() == 0 ==> r is None && final(self).remaining().len() == 0,
            old(self).remaining().len() > 0 ==> r == Some(old(self).remaining()[0])
                && final(self).remaining() == old(self).remaining().drop_first(),
    {
        if self.next < self.end {
            let c = self.next;
            self.next = self.next + 1;
            assert(self.remaining() =~= old(self).remaining().drop_first());
            Some(Point(self.row, c))
        } else {
            None
        }
    }

    /// Collects the remaining points.
    pub fn to_vec(self) -> (r: Vec<Point>)
        ensures
            r@ == self.remaining(),
    {
        let mut it = self;
        let mut v: Vec<Point> = Vec::new();
        loop
            invariant
                v@ + it.remaining() == self.remaining(),
            ensures
                v@ == self.remaining(),
            decreases it.remaining().len(),
        {
            let ghost before = it.remaining();
            let p = it.next();
            match p {
                Some(q) => {
                    proof {
                        assert(before =~= seq![before[0]] + before.drop_first());
                    }
                    v.push(q);
                    assert(v@ + it.remaining() =~= self.remaining());
                },
                None => {
                    assert(v@ =~= self.remaining());
                    break;
                },
            }
        }
        v
    }
}

/// Iterator over the points of one column.
#[derive(Clone, Copy, Debug)]
pub struct PointsInColumn {
    column: i32,
    next: i32,
    end: i32,
}

impl PointsInColumn {
    /// The points that are still to come.
    pub closed spec fn remaining(self) -> Seq<Point> {
        Seq::new(
            if self.end > self.next { (self.end - self.next) as nat } else { 0 },
            |r: int| Point((self.next + r) as i32, self.column),
        )
    }

    /// Yields the next point.
    pub fn next(&mut self) -> (r: Option<Point>)
        ensures
            old(self).remaining().len() == 0 ==> r is None && final(self).remaining().len() == 0,
            old(self).remaining().len() > 0 ==> r == Some(old(self).remaining()[0])
                && final(self).remaining() == old(self).remaining().drop_first(),
    {
        if self.next < self.end {
            let r = self.next;
            self.next = self.next + 1;
            assert(self.remaining() =~= old(self).remaining().drop_first());
            Some(Point(r, self.column))
        } else {
            None
        }
    }

    /// Collects the remaining points.
    pub fn to_vec(self) -> (r: Vec<Point>)
        ensures
            r@ == self.remaining(),
    {
        let mut it = self;
        let mut v: Vec<Point> = Vec::new();
        loop
            invariant
                v@ + it.remaining() == self.remaining(),
            ensures
                v@ == self.remaining(),
            decreases it.remaining().len(),
        {
            let ghost before = it.remaining();
            let p = it.next();
            match p {
                Some(q) => {
                    proof {
                        assert(before =~= seq![before[0]] + before.drop_first());
                    }
                    v.push(q);
                    assert(v@ + it.remaining() =~= self.remaining());
                },
                None => {
                    assert(v@ =~= self.remaining());
                    break;
                },
            }
        }
        v
    }
}

/// Whether `p` and `q` address the same slot of a table of size `s`: the same inside
/// point, or both outside.
pub open spec fn same_slot(s: Size, p: Point, q: Point) -> bool {
    if s.spec_contains(p) {
        s.spec_contains(q) && grid_index(s, q) == grid_index(s, p)
    } else {
        !s.spec_contains(q)
    }
}

/// A grid of values with one extra value standing for every point outside the grid.
#[derive(Clone, Debug, PartialEq, Eq)]
pub struct Table<T> {
    size: Size,
    data: Vec<T>,
}

/// Row-major index of an inside point.
pub open spec fn grid_index(s: Size, p: Point) -> int {
    p.0 * s.1 + p.1
}

impl<T> Table<T> {
    /// A consistent table has a valid size and one value per inside point.
    pub proof fn lemma_len(&self)
        requires
            self.wf(),
        ensures
            valid_size(self.spec_size()),
            self.cells().len() == self.spec_size().0 * self.spec_size().1,
    {
    }

    /// The size is valid and there is one value per inside point.
    pub closed spec fn wf(&self) -> bool {
        valid_size(self.size) && self.data.len() == self.size.0 * self.size.1 + 1
    }

    /// The size of the grid.
    pub closed spec fn spec_size(&self) -> Size {
        self.size
    }

    /// The value of every point outside the grid.
    pub closed spec fn outside(&self) -> T {
        self.data@[0]
    }

    /// The values of the inside points in row-major order.
    pub closed spec fn cells(&self) -> Seq<T> {
        self.data@.skip(1)
    }

    /// The value at `p`.
    pub open spec fn at(&self, p: Point) -> T {
        if self.spec_size().spec_contains(p) {
            self.cells()[grid_index(self.spec_size(), p)]
        } else {
            self.outside()
        }
    }

    /// Creates a table from the row-major values of the inside points.
    pub fn new(size: Size, outside: T, data: Vec<T>) -> (r: Table<T>)
        requires
            valid_size(size),
            data.len() == size.0 * size.1,
        ensures
            r.wf(),
            r.spec_size() == size,
            r.outside() == outside,
            r.cells() == data@,
    {
        let ghost given = data@;
        let mut data = data;
        data.insert(0, outside);
        let r = Table { size: size, data: data };
        assert(r.data@.skip(1) =~= given);
        r
    }

    /// Creates a table whose inside points all hold `init`.
    pub fn new_empty(size: Size, outside: T, init: T) -> (r: Table<T>)
        where
            T: Copy,
        requires
            valid_size(size),
        ensures
            r.wf(),
            r.spec_size() == size,
            r.outside() == outside,
            r.cells() == Seq::new((size.0 * size.1) as nat, |_i: int| init),
    {
        let n = (size.0 * size.1) as usize;
        let mut data: Vec<T> = Vec::new();
        let mut i: usize = 0;
        while i < n
            invariant
                i <= n,
                data@ == Seq::new(i as nat, |_i: int| init),
            decreases n - i,
        {
            data.push(init);
            i = i + 1;
            assert(data@ =~= Seq::new(i as nat, |_i: int| init));
        }
        Table::new(size, outside, data)
    }

    /// The size of the grid.
    pub fn size(&self) -> (r: Size)
        requires
            self.wf(),
        ensures
            r == self.spec_size(),
            valid_size(r),
            self.cells().len() == r.0 * r.1,
    {
        self.size
    }

    /// The value at `p`; the outside value for points outside the grid.
    pub fn index(&self, p: Point) -> (r: &T)
        requires
            self.wf(),
        ensures
            *r == self.at(p),
    {
        let idx = self.size.point_to_cellid(p).id();
        proof {
            if self.size.spec_contains(p) {
                lemma_index_in_grid(self.size, p);
            }
        }
        &self.data[idx]
    }

    /// Stores `v` at `p`; a point outside the grid stores it as the outside value.
    pub fn set(&mut self, p: Point, v: T)
        requires
            old(self).wf(),
        ensures
            final(self).wf(),
            final(self).spec_size() == old(self).spec_size(),
            old(self).spec_size().spec_contains(p) ==> final(self).outside() == old(self).outside()
                && final(self).cells() == old(self).cells().update(
                grid_index(old(self).spec_size(), p),
                v,
            ),
            !old(self).spec_size().spec_contains(p) ==> final(self).outside() == v
                && final(self).cells() == old(self).cells(),
            forall|q: Point| #[trigger] final(self).at(q) == if same_slot(old(self).spec_size(), p, q) {
                v
            } else {
                old(self).at(q)
            },
    {
        let idx = self.size.point_to_cellid(p).id();
        proof {
            if self.size.spec_contains(p) {
                lemma_index_in_grid(self.size, p);
            }
        }
        let ghost old_data = self.data@;
        self.data.set(idx, v);
        proof {
            if self.size.spec_contains(p) {
                assert(self.data@.skip(1) =~= old_data.skip(1).update(grid_index(self.size, p), v));
            } else {
                assert(self.data@.skip(1) =~= old_data.skip(1));
            }
            assert forall|q: Point| #[trigger] self.at(q) == if same_slot(old(self).spec_size(), p, q) {
                v
            } else {
                old(self).at(q)
            } by {
                if self.size.spec_contains(q) {
                    lemma_index_in_grid(self.size, q);
                }
            }
        }
    }
    /// A copy of the table.
    pub fn duplicate(&self) -> (r: Table<T>)
        where
            T: Copy,
        ensures
            r.wf() == self.wf(),
            r.spec_size() == self.spec_size(),
            r.outside() == self.outside(),
            r.cells() == self.cells(),
    {
        let mut data: Vec<T> = Vec::new();
        let mut i: usize = 0;
        while i < self.data.len()
            invariant
                i <= self.data@.len(),
                data@ == self.data@.take(i as int),
            decreases self.data@.len() - i,
        {
            data.push(self.data[i]);
            i = i + 1;
            assert(data@ =~= self.data@.take(i as int));
        }
        assert(data@ =~= self.data@);
        Table { size: self.size, data: data }
    }

}

/// A grid of values with a separate value returned for points outside the grid.
#[derive(Clone, Debug, PartialEq, Eq)]
pub struct Matrix<T> {
    size: Size,
    outside: T,
    data: Vec<T>,
}

impl<T> Matrix<T> {
    /// A consistent table has a valid size and one value per inside point.
    pub proof fn lemma_len(&self)
        requires
            self.wf(),
        ensures
            valid_size(self.spec_size()),
            self.cells().len() == self.spec_size().0 * self.spec_size().1,
    {
    }

    /// The size is valid and there is one value per inside point.
    pub closed spec fn wf(&self) -> bool {
        valid_size(self.size) && self.data.len() == self.size.0 * self.size.1
    }

    /// The size of the grid.
    pub closed spec fn spec_size(&self) -> Size {
        self.size
    }

    /// The value of every point outside the grid.
    pub closed spec fn spec_outside(&self) -> T {
        self.outside
    }

    /// The values of the inside points in row-major order.
    pub closed spec fn cells(&self) -> Seq<T> {
        self.data@
    }

    /// The value at `p`.
    pub open spec fn at(&self, p: Point) -> T {
        if self.spec_size().spec_contains(p) {
            self.cells()[grid_index(self.spec_size(), p)]
        } else {
            self.spec_outside()
        }
    }

    /// Creates a matrix from the row-major values of the inside points.
    pub fn new(size: Size, outside: T, data: Vec<T>) -> (r: Matrix<T>)
        requires
            valid_size(size),
            data.len() == size.0 * size.1,
        ensures
            r.wf(),
            r.spec_size() == size,
            r.spec_outside() == outside,
            r.cells() == data@,
    {
        Matrix { size: size, outside: outside, data: data }
    }

    /// Creates a matrix whose inside points all hold `init`.
    pub fn new_empty(size: Size, outside: T, init: T) -> (r: Matrix<T>)
        where
            T: Copy,
        requires
            valid_size(size),
        ensures
            r.wf(),
            r.spec_size() == size,
            r.spec_outside() == outside,
            r.cells() == Seq::new((size.0 * size.1) as nat, |_i: int| init),
    {
        let n = (size.0 * size.1) as usize;
        let mut data: Vec<T> = Vec::new();
        let mut i: usize = 0;
        while i < n
            invariant
                i <= n,
                data@ == Seq::new(i as nat, |_i: int| init),
            decreases n - i,
        {
            data.push(init);
            i = i + 1;
            assert(data@ =~= Seq::new(i as nat, |_i: int| init));
        }
        Matrix::new(size, outside, data)
    }

    /// The size of the grid.
    pub fn size(&self) -> (r: Size)
        requires
            self.wf(),
        ensures
            r == self.spec_size(),
            valid_size(r),
            self.cells().len() == r.0 * r.1,
    {
        self.size
    }

    /// The value at `p`; the outside value for points outside the grid.
    pub fn index(&self, p: Point) -> (r: &T)
        requires
            self.wf(),
        ensures
            *r == self.at(p),
    {
        if self.size.contains(p) {
            proof {
                lemma_index_in_grid(self.size, p);
            }
            &self.data[(p.0 * self.size.1 + p.1) as usize]
        } else {
            &self.outside
        }
    }

    /// Stores `v` at the inside point `p`.
    pub fn set(&mut self, p: Point, v: T)
        requires
            old(self).wf(),
            old(self).spec_size().spec_contains(p),
        ensures
            final(self).wf(),
            final(self).spec_size() == old(self).spec_size(),
            final(self).spec_outside() == old(self).spec_outside(),
            final(self).cells() == old(self).cells().update(grid_index(old(self).spec_size(), p), v),
    {
        proof {
            lemma_index_in_grid(self.size, p);
        }
        let idx = (p.0 * self.size.1 + p.1) as usize;
        self.data.set(idx, v);
    }
}

} // verus!
