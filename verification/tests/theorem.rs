use srither::geom::{Point, Rotation, Size};
use srither::geom::Move;
use srither::pattern::{EdgePattern, HintPattern, Transform};
use srither::theorem::Theorem;
use srither::theorem_parse::TheoremErrorKind;

fn check(
    size: Size,
    mut hint_matcher: Vec<HintPattern>,
    mut edge_matcher: Vec<EdgePattern<Point>>,
    mut result: Vec<EdgePattern<Point>>,
    input: &str,
) {
    hint_matcher.sort();
    hint_matcher.dedup();
    edge_matcher.sort();
    edge_matcher.dedup();
    result.sort();
    result.dedup();
    let theo = input.parse::<Theorem>().unwrap();
    assert_eq!(size, theo.size());
    assert_eq!(&hint_matcher[..], theo.hint_matcher());
    assert_eq!(&edge_matcher[..], theo.edge_matcher());
    assert_eq!(&result[..], theo.result());
    assert_eq!(None, theo.closed_sum());
}

#[test]
fn parse_parse() {
    check(
        Size(1, 1),
        vec![HintPattern::new(0, Point(0, 0))],
        vec![],
        vec![
            EdgePattern::cross(Point(0, 0), Point(0, -1)),
            EdgePattern::cross(Point(0, 0), Point(0, 1)),
            EdgePattern::cross(Point(0, 0), Point(-1, 0)),
            EdgePattern::cross(Point(0, 0), Point(1, 0)),
        ],
        r"
+ + ! +x+
 0  ! x0x
+ + ! +x+
",
    );
    check(
        Size(3, 3),
        vec![HintPattern::new(0, Point(1, 0)), HintPattern::new(3, Point(1, 1))],
        vec![],
        vec![
            EdgePattern::cross(Point(1, 0), Point(1, -1)),
            EdgePattern::cross(Point(1, 0), Point(1, 1)),
            EdgePattern::cross(Point(1, 0), Point(0, 0)),
            EdgePattern::cross(Point(1, 0), Point(2, 0)),
            EdgePattern::cross(Point(0, 1), Point(0, 2)),
            EdgePattern::cross(Point(1, 2), Point(0, 2)),
            EdgePattern::cross(Point(1, 2), Point(2, 2)),
            EdgePattern::cross(Point(2, 1), Point(2, 2)),
            EdgePattern::line(Point(0, 0), Point(0, 1)),
            EdgePattern::line(Point(0, 1), Point(1, 1)),
            EdgePattern::line(Point(1, 1), Point(1, 2)),
            EdgePattern::line(Point(1, 1), Point(2, 1)),
            EdgePattern::line(Point(2, 0), Point(2, 1)),
        ],
        r"
+ + + + ! + + + +
        !   | x
+ + + + ! +x+-+x+
 0 3    ! x0x3|
+ + + + ! +x+-+x+
        !   | x
+ + + + ! + + + +
",
    );
    check(
        Size(2, 2),
        vec![HintPattern::new(1, Point(1, 1))],
        vec![EdgePattern::line(Point(1, 0), Point(0, 1))],
        vec![
            EdgePattern::cross(Point(1, 1), Point(1, 2)),
            EdgePattern::cross(Point(1, 1), Point(2, 1)),
        ],
        r"
+ + + ! + + +
   a  !    a
+ + + ! + + +
 A 1  !  A 1x
+ + + ! + +x+
",
    );
    check(
        Size(3, 3),
        vec![HintPattern::new(3, Point(1, 1))],
        vec![EdgePattern::cross(Point(1, 0), Point(0, 1))],
        vec![
            EdgePattern::cross(Point(0, 0), Point(0, 1)),
            EdgePattern::cross(Point(0, 0), Point(1, 0)),
            EdgePattern::line(Point(0, 1), Point(1, 1)),
            EdgePattern::line(Point(1, 0), Point(1, 1)),
            EdgePattern::line(Point(1, 2), Point(2, 1)),
        ],
        r"
+ + + + ! + + + +
   a    !   xa
+ + + + ! +x+-+ +
 a 3    !  a|3 b
+ + + + ! + + + +
        !    B
+ + + + ! + + + +
",
    );
}

#[test]
fn mod_rotate() {
    let deg0 = r"
+ + + ! + + +
   a  !  bxa
+ + + ! +x+-+
 a 3  !  a|3
+ + + ! + + +
      !    B
+ + + ! + + +
"
    .parse::<Theorem>()
    .unwrap();

    let deg90 = r"
+ + + + ! + + + +
 a 3    !  a|3 B
+ + + + ! +x+-+ +
   a    !  bxa
+ + + + ! + + + +
"
    .parse::<Theorem>()
    .unwrap();

    let deg180 = r"
+ + + ! + + +
      !  B
+ + + ! + + +
 3 a  !  3|a
+ + + ! +-+x+
 a    !  axb
+ + + ! + + +
"
    .parse::<Theorem>()
    .unwrap();

    let deg270 = r"
+ + + + ! + + + +
   a    !    axb
+ + + + ! + +-+x+
   3 a  !  B 3|a
+ + + + ! + + + +
"
    .parse::<Theorem>()
    .unwrap();

    let h_flip = r"
+ + + ! + + +
 a    !  axb
+ + + ! +-+x+
 3 a  !  3|a
+ + + ! + + +
      !  B
+ + + ! + + +
"
    .parse::<Theorem>()
    .unwrap();

    let v_flip = r"
+ + + ! + + +
      !    B
+ + + ! + + +
 a 3  !  a|3
+ + + ! +x+-+
   a  !  bxa
+ + + ! + + +
"
    .parse::<Theorem>()
    .unwrap();

    assert_eq!(deg0.clone(), deg0.clone().rotate(Rotation::ucw0()));
    assert_eq!(deg90.clone(), deg0.clone().rotate(Rotation::ucw90()));
    assert_eq!(deg180.clone(), deg0.clone().rotate(Rotation::ucw180()));
    assert_eq!(deg270.clone(), deg0.clone().rotate(Rotation::ucw270()));
    assert_eq!(h_flip.clone(), deg0.clone().rotate(Rotation::h_flip()));
    assert_eq!(v_flip.clone(), deg0.clone().rotate(Rotation::v_flip()));
    assert_eq!(v_flip.clone(), h_flip.clone().rotate(Rotation::ucw180()));

    let rots = &mut [
        deg0.clone(),
        deg90,
        deg180,
        deg270,
        h_flip.clone(),
        h_flip.clone().rotate(Rotation::ucw90()),
        h_flip.clone().rotate(Rotation::ucw180()),
        h_flip.clone().rotate(Rotation::ucw270()),
    ];
    rots.sort();
    assert_eq!(rots, &deg0.all_rotations()[..]);
}

#[test]
fn mod_all_rotations() {
    let theo = r"
+ + ! +x+
 0  ! x0x
+ + ! +x+
"
    .parse::<Theorem>()
    .unwrap();
    let rots = theo.clone().all_rotations();
    assert_eq!(&[theo], &rots[..]);
}

#[test]
fn theorem_parse_errors() {
    let kind = |s: &str| s.parse::<Theorem>().unwrap_err().kind();
    assert_eq!(TheoremErrorKind::NoSeparator, kind("+ + +\n 0\n+ + +\n"));
    assert_eq!(TheoremErrorKind::SizeMismatch, kind("+ + ! + + +\n 0  !  0\n+ + ! + + +\n"));
    assert_eq!(TheoremErrorKind::MatcherDisappear, kind("+ + ! + +\n 0  !  1\n+ + ! + +\n"));
    assert_eq!(TheoremErrorKind::MatcherDisappear, kind("+x+ ! + +\n    !    \n+ + ! + +\n"));
    assert_eq!(TheoremErrorKind::TooSmallRows, kind("+ + ! + +\n"));
    assert_eq!(TheoremErrorKind::TooSmallColumns, kind("+ ! +\n  !  \n+ ! +\n"));
    match kind("  !  \n") {
        TheoremErrorKind::Lattice(_) => {}
        k => panic!("unexpected kind {:?}", k),
    }
}

#[test]
fn theorem_closed_hints() {
    let theo = "+ + ! + + ! + +\n 2  !  2x !  2 \n+ + ! + + ! + +\n".parse::<Theorem>().unwrap();
    assert_eq!(Some(2), theo.closed_sum());
    assert_eq!(1, theo.result().len());
    assert_eq!(Some(HintPattern::new(2, Point(0, 0))), theo.head());
}

#[test]
fn theorem_parse() {
    parse_parse();
}

#[test]
fn theorem_rotate() {
    mod_rotate();
}

#[test]
fn theorem_all_rotations() {
    mod_all_rotations();
}

#[test]
fn theorem_define_parse() {
    for s in srither::theorem_define::theorem_define() {
        assert!(s.parse::<Theorem>().is_ok(), "{}", s);
    }
}

#[test]
fn transforms_keep_hints_and_edges() {
    let h = HintPattern::new(3, Point(2, 3));
    let r = h.rotate(Rotation::ucw90());
    assert_eq!(3, r.hint());
    assert_eq!(Point(-3, 2), r.point());
    let m = h.shift(Move(1, -1));
    assert_eq!(3, m.hint());
    assert_eq!(Point(3, 2), m.point());
    let e = EdgePattern::cross(Point(0, 0), Point(0, -1));
    assert_eq!((Point(0, -1), Point(0, 0)), e.points());
    let t = e.rotate(Rotation::ucw90());
    assert!(matches!(t.edge(), srither::puzzle::Edge::Cross));
    let (a, b) = t.points();
    assert!(a.0 < b.0 || (a.0 == b.0 && a.1 <= b.1));
}
