//! Positions on the board as `(x, y)` column vectors and the rotations acting on them.
use vstd::prelude::*;

use crate::geom::{fits_i32, is_symmetry};

verus! {

/// A 2x2 integer matrix `| a b ; c d |` acting on `(x, y)` column vectors.
#[derive(Clone, Copy, Debug)]
pub struct Rotation {
    a: i32,
    b: i32,
    c: i32,
    d: i32,
}

/// The matrix-vector product on integers.
pub open spec fn apply(m: (int, int, int, int), v: (int, int)) -> (int, int) {
    (m.0 * v.0 + m.1 * v.1, m.2 * v.0 + m.3 * v.1)
}

/// The unit steps turned by the four quarter turns: turning `right` a quarter
/// anticlockwise gives `up`, turning `up` a quarter clockwise gives `right`, a half turn
/// gives the opposite step, and no turn gives the step itself. So `right_on` and
/// `up_on` move as `up`, `right`, `left` and `down` do under those turns.
pub proof fn lemma_turned_steps(rot: Rotation)
    ensures
        rot.entries() == (1int, 0int, 0int, 1int) ==> apply(rot.entries(), (right_vec().0 as int, right_vec().1 as int)) == (
            right_vec().0 as int,
            right_vec().1 as int,
        ) && apply(rot.entries(), (up_vec().0 as int, up_vec().1 as int)) == (up_vec().0 as int, up_vec().1 as int),
        rot.entries() == (0int, 1int, -1int, 0int) ==> apply(rot.entries(), (right_vec().0 as int, right_vec().1 as int))
            == (up_vec().0 as int, up_vec().1 as int),
        rot.entries() == (-1int, 0int, 0int, -1int) ==> apply(rot.entries(), (right_vec().0 as int, right_vec().1 as int))
            == (left_vec().0 as int, left_vec().1 as int) && apply(rot.entries(), (up_vec().0 as int, up_vec().1 as int)) == (
            down_vec().0 as int,
            down_vec().1 as int,
        ),
        rot.entries() == (0int, -1int, 1int, 0int) ==> apply(rot.entries(), (up_vec().0 as int, up_vec().1 as int)) == (
            right_vec().0 as int,
            right_vec().1 as int,
        ),
{
}

impl Rotation {
    #[verifier::type_invariant]
    spec fn inv(self) -> bool {
        is_symmetry(self.a as int, self.b as int, self.c as int, self.d as int)
    }

    /// Matrix entries `(a, b, c, d)`.
    pub closed spec fn entries(self) -> (int, int, int, int) {
        (self.a as int, self.b as int, self.c as int, self.d as int)
    }

    /// No turn.
    pub fn ucw0_deg() -> (r: Rotation)
        ensures
            r.entries() == (1int, 0int, 0int, 1int),
    {
        Rotation { a: 1, b: 0, c: 0, d: 1 }
    }

    /// A quarter turn anticlockwise.
    pub fn ucw90_deg() -> (r: Rotation)
        ensures
            r.entries() == (0int, 1int, -1int, 0int),
    {
        Rotation { a: 0, b: 1, c: -1, d: 0 }
    }

    /// A half turn.
    pub fn ucw180_deg() -> (r: Rotation)
        ensures
            r.entries() == (-1int, 0int, 0int, -1int),
    {
        Rotation { a: -1, b: 0, c: 0, d: -1 }
    }

    /// Three quarter turns anticlockwise.
    pub fn ucw270_deg() -> (r: Rotation)
        ensures
            r.entries() == (0int, -1int, 1int, 0int),
    {
        Rotation { a: 0, b: -1, c: 1, d: 0 }
    }

    /// The identity, the same as no turn.
    pub fn identity() -> (r: Rotation)
        ensures
            r.entries() == (1int, 0int, 0int, 1int),
    {
        Rotation::ucw0_deg()
    }

    /// No clockwise turn.
    pub fn cw0_deg() -> (r: Rotation)
        ensures
            r.entries() == (1int, 0int, 0int, 1int),
    {
        Rotation::ucw0_deg()
    }

    /// A quarter turn clockwise: three quarter turns anticlockwise.
    pub fn cw90_deg() -> (r: Rotation)
        ensures
            r.entries() == (0int, -1int, 1int, 0int),
    {
        Rotation::ucw270_deg()
    }

    /// A half turn clockwise.
    pub fn cw180_deg() -> (r: Rotation)
        ensures
            r.entries() == (-1int, 0int, 0int, -1int),
    {
        Rotation::ucw180_deg()
    }

    /// Three quarter turns clockwise: a quarter turn anticlockwise.
    pub fn cw270_deg() -> (r: Rotation)
        ensures
            r.entries() == (0int, 1int, -1int, 0int),
    {
        Rotation::ucw90_deg()
    }

    /// Matrix times column vector.
    pub fn mul(self, v: (i32, i32)) -> (r: (i32, i32))
        requires
            v.0 != i32::MIN,
            v.1 != i32::MIN,
        ensures
            (r.0 as int, r.1 as int) == apply(self.entries(), (v.0 as int, v.1 as int)),
    {
        proof {
            use_type_invariant(self);
            let (x, y) = (v.0 as int, v.1 as int);
            assert(fits_i32(self.a * x) && fits_i32(self.b * y) && fits_i32(self.c * x)
                && fits_i32(self.d * y) && fits_i32(self.a * x + self.b * y)
                && fits_i32(self.c * x + self.d * y)) by (nonlinear_arith)
                requires
                    is_symmetry(self.a as int, self.b as int, self.c as int, self.d as int),
                    i32::MIN < x <= i32::MAX,
                    i32::MIN < y <= i32::MAX,
            ;
        }
        let (x, y) = v;
        (self.a * x + self.b * y, self.c * x + self.d * y)
    }

    /// Matrix product `self * m`.
    pub fn mul_mat(self, m: Rotation) -> (r: Rotation)
        ensures
            r.entries() == ({
                let (a, b, c, d) = self.entries();
                let (e, f, g, h) = m.entries();
                (a * e + b * g, a * f + b * h, c * e + d * g, c * f + d * h)
            }),
    {
        proof {
            use_type_invariant(self);
            use_type_invariant(m);
        }
        Rotation {
            a: self.a * m.a + self.b * m.c,
            b: self.a * m.b + self.b * m.d,
            c: self.c * m.a + self.d * m.c,
            d: self.c * m.b + self.d * m.d,
        }
    }
}

/// The four anticlockwise rotations in the order in which `each_rot4` visits them.
pub open spec fn rot4_entries() -> Seq<(int, int, int, int)> {
    seq![(1int, 0int, 0int, 1int), (0int, 1int, -1int, 0int), (-1int, 0int, 0int, -1int), (0int, -1int, 1int, 0int)]
}

/// A call of `f` on the rotation with the entries `e` may return `b`.
pub open spec fn rot_gave<F: Fn(Rotation) -> bool>(f: F, e: (int, int, int, int), b: bool) -> bool {
    exists|rot: Rotation| rot.entries() == e && #[trigger] f.ensures((rot,), b)
}

/// Calls `f` on the four anticlockwise rotations in turn, stopping at the first call that
/// returns `false`; the result tells whether every call returned `true`.
pub fn each_rot4<F: Fn(Rotation) -> bool>(f: F) -> (r: bool)
    requires
        forall|rot: Rotation| #[trigger] f.requires((rot,)),
    ensures
        r ==> forall|rot: Rotation|
            rot4_entries().contains(rot.entries()) ==> #[trigger] f.ensures((rot,), true),
        !r ==> exists|rot: Rotation|
            rot4_entries().contains(rot.entries()) && #[trigger] f.ensures((rot,), false),
        !r ==> {
            let e = rot4_entries();
            ||| rot_gave(f, e[0], false)
            ||| rot_gave(f, e[0], true) && rot_gave(f, e[1], false)
            ||| rot_gave(f, e[0], true) && rot_gave(f, e[1], true) && rot_gave(f, e[2], false)
            ||| rot_gave(f, e[0], true) && rot_gave(f, e[1], true) && rot_gave(f, e[2], true) && rot_gave(f, e[3], false)
        },
{
    let ghost e = rot4_entries();
    let r0 = Rotation::ucw0_deg();
    if !f(r0) {
        assert(rot4_entries()[0] == r0.entries());
        assert(rot_gave(f, e[0], false));
        return false;
    }
    assert(rot_gave(f, e[0], true));
    let r1 = Rotation::ucw90_deg();
    if !f(r1) {
        assert(rot4_entries()[1] == r1.entries());
        assert(rot_gave(f, e[1], false));
        return false;
    }
    assert(rot_gave(f, e[1], true));
    let r2 = Rotation::ucw180_deg();
    if !f(r2) {
        assert(rot4_entries()[2] == r2.entries());
        assert(rot_gave(f, e[2], false));
        return false;
    }
    assert(rot_gave(f, e[2], true));
    let r3 = Rotation::ucw270_deg();
    if !f(r3) {
        assert(rot4_entries()[3] == r3.entries());
        assert(rot_gave(f, e[3], false));
        return false;
    }
    assert forall|rot: Rotation| rot4_entries().contains(rot.entries()) implies #[trigger] f.ensures(
        (rot,),
        true,
    ) by {
        let k = choose|k: int| 0 <= k < 4 && rot4_entries()[k] == rot.entries();
        if k == 0 {
            assert(rot == r0);
        } else if k == 1 {
            assert(rot == r1);
        } else if k == 2 {
            assert(rot == r2);
        } else {
            assert(rot == r3);
        }
    }
    true
}

/// One step up: `(0, -1)`.
pub open spec fn up_vec() -> (i32, i32) {
    (0i32, -1i32)
}

/// One step up and right: `(1, -1)`.
pub open spec fn up_right_vec() -> (i32, i32) {
    (1i32, -1i32)
}

/// One step right: `(1, 0)`.
pub open spec fn right_vec() -> (i32, i32) {
    (1i32, 0i32)
}

/// One step down and right: `(1, 1)`.
pub open spec fn down_right_vec() -> (i32, i32) {
    (1i32, 1i32)
}

/// One step down: `(0, 1)`.
pub open spec fn down_vec() -> (i32, i32) {
    (0i32, 1i32)
}

/// One step down and left: `(-1, 1)`.
pub open spec fn down_left_vec() -> (i32, i32) {
    (-1i32, 1i32)
}

/// One step left: `(-1, 0)`.
pub open spec fn left_vec() -> (i32, i32) {
    (-1i32, 0i32)
}

/// One step up and left: `(-1, -1)`.
pub open spec fn up_left_vec() -> (i32, i32) {
    (-1i32, -1i32)
}

/// The unit step `UP`.
pub fn up_step() -> (r: (i32, i32))
    ensures
        r == up_vec(),
{
    (0, -1)
}

/// The unit step `UP_RIGHT`.
pub fn up_right_step() -> (r: (i32, i32))
    ensures
        r == up_right_vec(),
{
    (1, -1)
}

/// The unit step `RIGHT`.
pub fn right_step() -> (r: (i32, i32))
    ensures
        r == right_vec(),
{
    (1, 0)
}

/// The unit step `DOWN_RIGHT`.
pub fn down_right_step() -> (r: (i32, i32))
    ensures
        r == down_right_vec(),
{
    (1, 1)
}

/// The unit step `DOWN`.
pub fn down_step() -> (r: (i32, i32))
    ensures
        r == down_vec(),
{
    (0, 1)
}

/// The unit step `DOWN_LEFT`.
pub fn down_left_step() -> (r: (i32, i32))
    ensures
        r == down_left_vec(),
{
    (-1, 1)
}

/// The unit step `LEFT`.
pub fn left_step() -> (r: (i32, i32))
    ensures
        r == left_vec(),
{
    (-1, 0)
}

/// The unit step `UP_LEFT`.
pub fn up_left_step() -> (r: (i32, i32))
    ensures
        r == up_left_vec(),
{
    (-1, -1)
}

/// A position `(x, y)` on the board.
#[derive(Clone, Copy, Debug)]
pub struct Position {
    x: i32,
    y: i32,
}

/// The coordinates fit with one unit step of room on every side.
pub open spec fn roomy(p: Position) -> bool {
    i32::MIN < p.spec_x() < i32::MAX && i32::MIN < p.spec_y() < i32::MAX
}

impl Position {
    /// The `x` coordinate.
    pub closed spec fn spec_x(self) -> int {
        self.x as int
    }

    /// The `y` coordinate.
    pub closed spec fn spec_y(self) -> int {
        self.y as int
    }

    /// Both coordinates fit an `i32`.
    pub proof fn lemma_coords_fit(self)
        ensures
            i32::MIN <= self.spec_x() <= i32::MAX,
            i32::MIN <= self.spec_y() <= i32::MAX,
    {
    }

    /// Makes a position from `(x, y)`.
    pub fn new(pos: (i32, i32)) -> (r: Position)
        ensures
            r.spec_x() == pos.0,
            r.spec_y() == pos.1,
    {
        let (x, y) = pos;
        Position { x: x, y: y }
    }

    /// The coordinates `(x, y)`.
    pub fn coords(&self) -> (r: (i32, i32))
        ensures
            r.0 == self.spec_x(),
            r.1 == self.spec_y(),
    {
        (self.x, self.y)
    }

    /// Lexicographic `<` on `(x, y)`.
    pub fn lt(&self, other: &Position) -> (r: bool)
        ensures
            r == (self.spec_x() < other.spec_x() || (self.spec_x() == other.spec_x()
                && self.spec_y() < other.spec_y())),
    {
        if self.x < other.x {
            return true;
        }
        if self.x > other.x {
            return false;
        }
        self.y < other.y
    }

    /// Lexicographic `<=` on `(x, y)`.
    pub fn le(&self, other: &Position) -> (r: bool)
        ensures
            r == (self.spec_x() < other.spec_x() || (self.spec_x() == other.spec_x()
                && self.spec_y() <= other.spec_y())),
    {
        if self.x < other.x {
            return true;
        }
        if self.x > other.x {
            return false;
        }
        self.y <= other.y
    }

    /// Lexicographic `>=` on `(x, y)`.
    pub fn ge(&self, other: &Position) -> (r: bool)
        ensures
            r == (self.spec_x() > other.spec_x() || (self.spec_x() == other.spec_x()
                && self.spec_y() >= other.spec_y())),
    {
        if self.x > other.x {
            return true;
        }
        if self.x < other.x {
            return false;
        }
        self.y >= other.y
    }

    /// Lexicographic `>` on `(x, y)`.
    pub fn gt(&self, other: &Position) -> (r: bool)
        ensures
            r == (self.spec_x() > other.spec_x() || (self.spec_x() == other.spec_x()
                && self.spec_y() > other.spec_y())),
    {
        if self.x > other.x {
            return true;
        }
        if self.x < other.x {
            return false;
        }
        self.y > other.y
    }

    /// Both coordinates are equal.
    pub fn eq(&self, other: &Position) -> (r: bool)
        ensures
            r == (self.spec_x() == other.spec_x() && self.spec_y() == other.spec_y()),
    {
        self.x == other.x && self.y == other.y
    }

    /// Some coordinate differs.
    pub fn ne(&self, other: &Position) -> (r: bool)
        ensures
            r == !(self.spec_x() == other.spec_x() && self.spec_y() == other.spec_y()),
    {
        !self.eq(other)
    }

    /// The position moved by `d`.
    pub fn shift(&self, d: (i32, i32)) -> (r: Position)
        requires
            fits_i32(self.spec_x() + d.0),
            fits_i32(self.spec_y() + d.1),
        ensures
            r.spec_x() == self.spec_x() + d.0,
            r.spec_y() == self.spec_y() + d.1,
    {
        let (dx, dy) = d;
        Position { x: self.x + dx, y: self.y + dy }
    }

    /// The position moved by `d` turned by `rot`.
    pub fn shift_on(&self, d: (i32, i32), rot: Rotation) -> (r: Position)
        requires
            d.0 != i32::MIN,
            d.1 != i32::MIN,
            fits_i32(self.spec_x() + apply(rot.entries(), (d.0 as int, d.1 as int)).0),
            fits_i32(self.spec_y() + apply(rot.entries(), (d.0 as int, d.1 as int)).1),
        ensures
            r.spec_x() == self.spec_x() + apply(rot.entries(), (d.0 as int, d.1 as int)).0,
            r.spec_y() == self.spec_y() + apply(rot.entries(), (d.0 as int, d.1 as int)).1,
    {
        let (dx, dy) = rot.mul(d);
        Position { x: self.x + dx, y: self.y + dy }
    }

    /// One step up.
    pub fn up(&self) -> (r: Position)
        requires
            self.spec_y() > i32::MIN,
        ensures
            r.spec_x() == self.spec_x() + up_vec().0,
            r.spec_y() == self.spec_y() + up_vec().1,
    {
        self.shift(up_step())
    }

    /// One step up and right.
    pub fn up_right(&self) -> (r: Position)
        requires
            self.spec_x() < i32::MAX,
            self.spec_y() > i32::MIN,
        ensures
            r.spec_x() == self.spec_x() + up_right_vec().0,
            r.spec_y() == self.spec_y() + up_right_vec().1,
    {
        self.shift(up_right_step())
    }

    /// One step right.
    pub fn right(&self) -> (r: Position)
        requires
            self.spec_x() < i32::MAX,
        ensures
            r.spec_x() == self.spec_x() + right_vec().0,
            r.spec_y() == self.spec_y() + right_vec().1,
    {
        self.shift(right_step())
    }

    /// One step down and right.
    pub fn down_right(&self) -> (r: Position)
        requires
            self.spec_x() < i32::MAX,
            self.spec_y() < i32::MAX,
        ensures
            r.spec_x() == self.spec_x() + down_right_vec().0,
            r.spec_y() == self.spec_y() + down_right_vec().1,
    {
        self.shift(down_right_step())
    }

    /// One step down.
    pub fn down(&self) -> (r: Position)
        requires
            self.spec_y() < i32::MAX,
        ensures
            r.spec_x() == self.spec_x() + down_vec().0,
            r.spec_y() == self.spec_y() + down_vec().1,
    {
        self.shift(down_step())
    }

    /// One step down and left.
    pub fn down_left(&self) -> (r: Position)
        requires
            self.spec_x() > i32::MIN,
            self.spec_y() < i32::MAX,
        ensures
            r.spec_x() == self.spec_x() + down_left_vec().0,
            r.spec_y() == self.spec_y() + down_left_vec().1,
    {
        self.shift(down_left_step())
    }

    /// One step left.
    pub fn left(&self) -> (r: Position)
        requires
            self.spec_x() > i32::MIN,
        ensures
            r.spec_x() == self.spec_x() + left_vec().0,
            r.spec_y() == self.spec_y() + left_vec().1,
    {
        self.shift(left_step())
    }

    /// One step up and left.
    pub fn up_left(&self) -> (r: Position)
        requires
            self.spec_x() > i32::MIN,
            self.spec_y() > i32::MIN,
        ensures
            r.spec_x() == self.spec_x() + up_left_vec().0,
            r.spec_y() == self.spec_y() + up_left_vec().1,
    {
        self.shift(up_left_step())
    }

    /// One step in the direction `up` turned by `r`.
    pub fn up_on(&self, rot: Rotation) -> (r: Position)
        requires
            roomy(*self),
        ensures
            r.spec_x() == self.spec_x() + apply(rot.entries(), (up_vec().0 as int, up_vec().1 as int)).0,
            r.spec_y() == self.spec_y() + apply(rot.entries(), (up_vec().0 as int, up_vec().1 as int)).1,
    {
        self.shift_rotated(up_step(), rot)
    }

    /// One step in the direction `up_right` turned by `r`.
    pub fn up_right_on(&self, rot: Rotation) -> (r: Position)
        requires
            roomy(*self),
        ensures
            r.spec_x() == self.spec_x() + apply(rot.entries(), (up_right_vec().0 as int, up_right_vec().1 as int)).0,
            r.spec_y() == self.spec_y() + apply(rot.entries(), (up_right_vec().0 as int, up_right_vec().1 as int)).1,
    {
        self.shift_rotated(up_right_step(), rot)
    }

    /// One step in the direction `right` turned by `r`.
    pub fn right_on(&self, rot: Rotation) -> (r: Position)
        requires
            roomy(*self),
        ensures
            r.spec_x() == self.spec_x() + apply(rot.entries(), (right_vec().0 as int, right_vec().1 as int)).0,
            r.spec_y() == self.spec_y() + apply(rot.entries(), (right_vec().0 as int, right_vec().1 as int)).1,
    {
        self.shift_rotated(right_step(), rot)
    }

    /// One step in the direction `down_right` turned by `r`.
    pub fn down_right_on(&self, rot: Rotation) -> (r: Position)
        requires
            roomy(*self),
        ensures
            r.spec_x() == self.spec_x() + apply(rot.entries(), (down_right_vec().0 as int, down_right_vec().1 as int)).0,
            r.spec_y() == self.spec_y() + apply(rot.entries(), (down_right_vec().0 as int, down_right_vec().1 as int)).1,
    {
        self.shift_rotated(down_right_step(), rot)
    }

    /// One step in the direction `down` turned by `r`.
    pub fn down_on(&self, rot: Rotation) -> (r: Position)
        requires
            roomy(*self),
        ensures
            r.spec_x() == self.spec_x() + apply(rot.entries(), (down_vec().0 as int, down_vec().1 as int)).0,
            r.spec_y() == self.spec_y() + apply(rot.entries(), (down_vec().0 as int, down_vec().1 as int)).1,
    {
        self.shift_rotated(down_step(), rot)
    }

    /// One step in the direction `down_left` turned by `r`.
    pub fn down_left_on(&self, rot: Rotation) -> (r: Position)
        requires
            roomy(*self),
        ensures
            r.spec_x() == self.spec_x() + apply(rot.entries(), (down_left_vec().0 as int, down_left_vec().1 as int)).0,
            r.spec_y() == self.spec_y() + apply(rot.entries(), (down_left_vec().0 as int, down_left_vec().1 as int)).1,
    {
        self.shift_rotated(down_left_step(), rot)
    }

    /// One step in the direction `left` turned by `r`.
    pub fn left_on(&self, rot: Rotation) -> (r: Position)
        requires
            roomy(*self),
        ensures
            r.spec_x() == self.spec_x() + apply(rot.entries(), (left_vec().0 as int, left_vec().1 as int)).0,
            r.spec_y() == self.spec_y() + apply(rot.entries(), (left_vec().0 as int, left_vec().1 as int)).1,
    {
        self.shift_rotated(left_step(), rot)
    }

    /// One step in the direction `up_left` turned by `r`.
    pub fn up_left_on(&self, rot: Rotation) -> (r: Position)
        requires
            roomy(*self),
        ensures
            r.spec_x() == self.spec_x() + apply(rot.entries(), (up_left_vec().0 as int, up_left_vec().1 as int)).0,
            r.spec_y() == self.spec_y() + apply(rot.entries(), (up_left_vec().0 as int, up_left_vec().1 as int)).1,
    {
        self.shift_rotated(up_left_step(), rot)
    }

    /// Moves by a unit step `d` (both entries in `-1..=1`) turned by `rot`.
    fn shift_rotated(&self, d: (i32, i32), rot: Rotation) -> (r: Position)
        requires
            roomy(*self),
            -1 <= d.0 <= 1,
            -1 <= d.1 <= 1,
        ensures
            r.spec_x() == self.spec_x() + apply(rot.entries(), (d.0 as int, d.1 as int)).0,
            r.spec_y() == self.spec_y() + apply(rot.entries(), (d.0 as int, d.1 as int)).1,
    {
        let (dx, dy) = rot.mul(d);
        proof {
            use_type_invariant(rot);
            let e = rot.entries();
            assert(-1 <= apply(e, (d.0 as int, d.1 as int)).0 <= 1
                && -1 <= apply(e, (d.0 as int, d.1 as int)).1 <= 1) by (nonlinear_arith)
                requires
                    is_symmetry(e.0, e.1, e.2, e.3),
                    -1 <= d.0 <= 1,
                    -1 <= d.1 <= 1,
            ;
        }
        self.shift((dx, dy))
    }

    /// A call of `f` on the position `d` away from `self` may return `b`.
    pub open spec fn step_gave<F: Fn(Position) -> bool>(&self, f: F, d: (int, int), b: bool) -> bool {
        exists|p: Position|
            (p.spec_x() - self.spec_x(), p.spec_y() - self.spec_y()) == d && #[trigger] f.ensures((p,), b)
    }

    /// Calls `f` on the four neighbours (up, right, down, left) in turn, stopping at the first
    /// call that returns `false`; the result tells whether every call returned `true`.
    pub fn each_around4<F: Fn(Position) -> bool>(&self, f: F) -> (r: bool)
        requires
            roomy(*self),
            forall|p: Position| #[trigger] f.requires((p,)),
        ensures
            r ==> forall|p: Position|
                around4().contains((p.spec_x() - self.spec_x(), p.spec_y() - self.spec_y()))
                    ==> #[trigger] f.ensures((p,), true),
            !r ==> exists|p: Position|
                around4().contains((p.spec_x() - self.spec_x(), p.spec_y() - self.spec_y()))
                    && #[trigger] f.ensures((p,), false),
            !r ==> {
                let o = around4();
                ||| self.step_gave(f, o[0], false)
                ||| self.step_gave(f, o[0], true) && self.step_gave(f, o[1], false)
                ||| self.step_gave(f, o[0], true) && self.step_gave(f, o[1], true) && self.step_gave(f, o[2], false)
                ||| self.step_gave(f, o[0], true) && self.step_gave(f, o[1], true) && self.step_gave(f, o[2], true)
                    && self.step_gave(f, o[3], false)
            },
    {
        let ghost o = around4();
        let p0 = self.up();
        if !f(p0) {
            assert(around4()[0] == (p0.spec_x() - self.spec_x(), p0.spec_y() - self.spec_y()));
            assert(self.step_gave(f, o[0], false));
            return false;
        }
        assert(self.step_gave(f, o[0], true));
        let p1 = self.right();
        if !f(p1) {
            assert(around4()[1] == (p1.spec_x() - self.spec_x(), p1.spec_y() - self.spec_y()));
            assert(self.step_gave(f, o[1], false));
            return false;
        }
        assert(self.step_gave(f, o[1], true));
        let p2 = self.down();
        if !f(p2) {
            assert(around4()[2] == (p2.spec_x() - self.spec_x(), p2.spec_y() - self.spec_y()));
            assert(self.step_gave(f, o[2], false));
            return false;
        }
        assert(self.step_gave(f, o[2], true));
        let p3 = self.left();
        if !f(p3) {
            assert(around4()[3] == (p3.spec_x() - self.spec_x(), p3.spec_y() - self.spec_y()));
            assert(self.step_gave(f, o[3], false));
            return false;
        }
        assert forall|p: Position|
            around4().contains((p.spec_x() - self.spec_x(), p.spec_y() - self.spec_y()))
            implies #[trigger] f.ensures((p,), true) by {
            let d = (p.spec_x() - self.spec_x(), p.spec_y() - self.spec_y());
            let k = choose|k: int| 0 <= k < 4 && around4()[k] == d;
            if k == 0 {
                assert(p == p0);
            } else if k == 1 {
                assert(p == p1);
            } else if k == 2 {
                assert(p == p2);
            } else {
                assert(p == p3);
            }
        }
        true
    }
}

/// The offsets of the four neighbours visited by `each_around4`: up, right, down, left.
pub open spec fn around4() -> Seq<(int, int)> {
    seq![(0int, -1int), (1int, 0int), (0int, 1int), (-1int, 0int)]
}

} // verus!
