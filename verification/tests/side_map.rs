use srither::geom::{CellId, Point, Size};
use srither::model::State;
use srither::puzzle::{Edge, Side};
use srither::side_map::SideMap;

fn cell(size: Size, p: Point) -> CellId {
    size.point_to_cellid(p)
}

fn is_same(map: &mut SideMap, p0: CellId, p1: CellId) -> bool {
    map.get_edge(p0, p1) == State::Fixed(Edge::Cross)
}

fn is_different(map: &mut SideMap, p0: CellId, p1: CellId) -> bool {
    map.get_edge(p0, p1) == State::Fixed(Edge::Line)
}

#[test]
fn set_and_check() {
    let size = Size(10, 10);
    let mut board = SideMap::new(size.cell_len(), 1000);
    let p0 = cell(size, Point(0, 0));
    let p1 = cell(size, Point(1, 1));
    let p2 = cell(size, Point(2, 2));

    board.set_outside(p0);
    board.set_same(p0, p1);

    assert_eq!(State::Fixed(Side::Out), board.get_side(p0));
    assert_eq!(State::Fixed(Side::Out), board.get_side(p1));
    assert!(board.get_side(p0) != State::Fixed(Side::In));
    assert!(board.get_side(p1) != State::Fixed(Side::In));
    assert!(is_same(&mut board, p0, p1));
    assert!(!is_different(&mut board, p0, p1));

    assert!(!is_same(&mut board, p1, p2));
    assert!(!is_different(&mut board, p1, p2));

    board.set_inside(p2);
    assert!(!is_same(&mut board, p1, p2));
    assert!(is_different(&mut board, p1, p2));
}

#[test]
fn test_board() {
    let size = Size(10, 10);
    let mut board = SideMap::new(size.cell_len(), 1000);
    let p0 = cell(size, Point(0, 0));
    let p1 = cell(size, Point(1, 1));
    let p2 = cell(size, Point(2, 2));
    board.set_outside(p0);
    board.set_same(p0, p1);
    assert_eq!(State::Fixed(Side::Out), board.get_side(p0));
    assert_eq!(State::Fixed(Side::Out), board.get_side(p1));
    assert!(is_same(&mut board, p0, p1));
    assert!(!is_different(&mut board, p0, p1));
    assert!(!is_same(&mut board, p1, p2));
    assert!(!is_different(&mut board, p1, p2));
}

#[test]
fn conflicting_sides_are_reported() {
    let mut board = SideMap::new(4, 100);
    let a = CellId::new(1);
    let b = CellId::new(2);
    board.set_inside(a);
    board.set_same(a, b);
    board.set_outside(b);
    assert_eq!(State::Conflict, board.get_side(a));
    assert_eq!(State::Conflict, board.get_edge(a, b));
}
