use srither::geom::{CellId, Point};
use srither::model::State;
use srither::puzzle::{Edge, Puzzle, Side};
use srither::rules::{fill_by_line_nums, fill_by_num_place, fill_by_relation, solve_by_local_property, solve_by_logic};
use srither::search::solve;
use srither::side_map::SideMap;

fn edge(map: &mut SideMap, puzzle: &Puzzle, p: Point, q: Point) -> State<Edge> {
    let s = puzzle.size();
    map.get_edge(s.point_to_cellid(p), s.point_to_cellid(q))
}

#[test]
fn corner_three_has_lines_outside() {
    let puzzle = "3_\n__\n".parse::<Puzzle>().unwrap();
    let mut map = SideMap::from_puzzle(&puzzle);
    fill_by_num_place(&puzzle, &mut map);
    assert_eq!(State::Fixed(Edge::Line), edge(&mut map, &puzzle, Point(0, 0), Point(-1, 0)));
    assert_eq!(State::Fixed(Edge::Line), edge(&mut map, &puzzle, Point(0, 0), Point(0, -1)));
    assert_eq!(State::Unknown, edge(&mut map, &puzzle, Point(1, 1), Point(1, 0)));
}

#[test]
fn zero_has_crosses_around() {
    let puzzle = "_0_\n".parse::<Puzzle>().unwrap();
    let mut map = SideMap::from_puzzle(&puzzle);
    fill_by_line_nums(&puzzle, &mut map).unwrap();
    for q in [Point(-1, 1), Point(1, 1), Point(0, 0), Point(0, 2)] {
        assert_eq!(State::Fixed(Edge::Cross), edge(&mut map, &puzzle, Point(0, 1), q));
    }
}

#[test]
fn four_has_lines_around() {
    let puzzle = "4".parse::<Puzzle>().unwrap();
    let mut map = SideMap::from_puzzle(&puzzle);
    fill_by_line_nums(&puzzle, &mut map).unwrap();
    assert_eq!(State::Fixed(Side::In), map.get_side(CellId::new(1)));
}

#[test]
fn relations_keep_the_map_consistent() {
    let puzzle = "3_\n_1\n".parse::<Puzzle>().unwrap();
    let mut map = SideMap::from_puzzle(&puzzle);
    let before = map.revision();
    fill_by_num_place(&puzzle, &mut map);
    fill_by_relation(&puzzle, &mut map).unwrap();
    assert!(map.revision() >= before);
    solve_by_local_property(&puzzle, &mut map).unwrap();
}

#[test]
fn deductions_agree_with_the_solution() {
    let puzzle = "221\n221\n110\n".parse::<Puzzle>().unwrap();
    let solution = solve(&puzzle).unwrap();
    let mut map = SideMap::from_puzzle(&puzzle);
    fill_by_num_place(&puzzle, &mut map);
    solve_by_logic(&puzzle, &mut map).unwrap();
    assert!(map.revision() > 0);
    let s = puzzle.size();
    for r in 0..s.0 {
        for c in 0..s.1 {
            let p = Point(r, c);
            match map.get_side(s.point_to_cellid(p)) {
                State::Fixed(side) => assert_eq!(Some(side), solution.side(p)),
                State::Unknown => {},
                State::Conflict => panic!("conflict"),
            }
        }
    }
}

#[test]
fn relations_agree_with_the_solution() {
    let puzzle = "3__\n_2_\n__3\n".parse::<Puzzle>().unwrap();
    let solution = solve(&puzzle).unwrap();
    let mut map = SideMap::from_puzzle(&puzzle);
    fill_by_line_nums(&puzzle, &mut map).unwrap();
    fill_by_relation(&puzzle, &mut map).unwrap();
    let s = puzzle.size();
    let side_of = |p: Point| if s.contains(p) { solution.side(p).unwrap() } else { Side::Out };
    for r in -1..=s.0 {
        for c in -1..=s.1 {
            let p = Point(r, c);
            for q in [Point(r, c + 1), Point(r + 1, c), Point(r + 1, c + 1), Point(r + 1, c - 1)] {
                match edge(&mut map, &puzzle, p, q) {
                    State::Fixed(Edge::Cross) => assert_eq!(side_of(p), side_of(q)),
                    State::Fixed(Edge::Line) => assert!(side_of(p) != side_of(q)),
                    State::Unknown => {},
                    State::Conflict => panic!("conflict"),
                }
            }
        }
    }
}

#[test]
fn adjacent_threes_are_split() {
    let puzzle = "____\n_33_\n____\n".parse::<Puzzle>().unwrap();
    let mut map = SideMap::from_puzzle(&puzzle);
    fill_by_num_place(&puzzle, &mut map);
    assert_eq!(State::Fixed(Edge::Line), edge(&mut map, &puzzle, Point(1, 1), Point(1, 2)));
    assert_eq!(State::Fixed(Edge::Line), edge(&mut map, &puzzle, Point(1, 1), Point(1, 0)));
    assert_eq!(State::Fixed(Edge::Line), edge(&mut map, &puzzle, Point(1, 2), Point(1, 3)));
    assert_eq!(State::Fixed(Edge::Cross), edge(&mut map, &puzzle, Point(0, 1), Point(0, 2)));
    assert_eq!(State::Fixed(Edge::Cross), edge(&mut map, &puzzle, Point(2, 1), Point(2, 2)));
    assert_eq!(State::Fixed(Edge::Line), edge(&mut map, &puzzle, Point(0, 1), Point(2, 2)));
}

#[test]
fn adjacent_threes_exclude_the_two_cell_loop() {
    // The only solution of this row is the loop around the two threes, which the
    // pattern of adjacent threes rules out: the map ends in a conflict.
    let puzzle = "_33_\n".parse::<Puzzle>().unwrap();
    let mut map = SideMap::from_puzzle(&puzzle);
    fill_by_num_place(&puzzle, &mut map);
    assert_eq!(State::Conflict, edge(&mut map, &puzzle, Point(-1, 1), Point(1, 2)));
}

#[test]
fn one_between_alike_neighbours() {
    let puzzle = "___\n_1_\n___\n".parse::<Puzzle>().unwrap();
    let mut map = SideMap::from_puzzle(&puzzle);
    let s = puzzle.size();
    map.set_same(s.point_to_cellid(Point(0, 1)), s.point_to_cellid(Point(2, 1)));
    fill_by_relation(&puzzle, &mut map).unwrap();
    assert_eq!(State::Fixed(Edge::Cross), edge(&mut map, &puzzle, Point(1, 1), Point(0, 1)));
    assert_eq!(State::Fixed(Edge::Line), edge(&mut map, &puzzle, Point(1, 0), Point(1, 2)));
}

#[test]
fn adjacent_threes_have_lines_between() {
    let puzzle = "____\n_33_\n____\n".parse::<Puzzle>().unwrap();
    let mut map = SideMap::from_puzzle(&puzzle);
    fill_by_num_place(&puzzle, &mut map);
    assert_eq!(State::Fixed(Edge::Line), edge(&mut map, &puzzle, Point(1, 1), Point(1, 2)));
    assert_eq!(State::Fixed(Edge::Line), edge(&mut map, &puzzle, Point(1, 0), Point(1, 1)));
    assert_eq!(State::Fixed(Edge::Line), edge(&mut map, &puzzle, Point(1, 2), Point(1, 3)));
    assert_eq!(State::Fixed(Edge::Cross), edge(&mut map, &puzzle, Point(0, 1), Point(0, 2)));
}

#[test]
fn three_with_a_line_beyond_its_corner() {
    let puzzle = "___\n_3_\n___\n".parse::<Puzzle>().unwrap();
    let mut map = SideMap::from_puzzle(&puzzle);
    let s = puzzle.size();
    map.set_different(s.point_to_cellid(Point(0, 1)), s.point_to_cellid(Point(0, 2)));
    fill_by_relation(&puzzle, &mut map).unwrap();
    assert_eq!(State::Fixed(Edge::Line), edge(&mut map, &puzzle, Point(1, 1), Point(2, 1)));
    assert_eq!(State::Fixed(Edge::Line), edge(&mut map, &puzzle, Point(1, 1), Point(1, 0)));
    assert_eq!(State::Fixed(Edge::Cross), edge(&mut map, &puzzle, Point(0, 2), Point(1, 2)));
}

#[test]
fn diagonal_threes_have_outer_lines() {
    let puzzle = "____\n_3__\n__3_\n____\n".parse::<Puzzle>().unwrap();
    let mut map = SideMap::from_puzzle(&puzzle);
    fill_by_num_place(&puzzle, &mut map);
    assert_eq!(State::Fixed(Edge::Line), edge(&mut map, &puzzle, Point(1, 1), Point(0, 1)));
    assert_eq!(State::Fixed(Edge::Line), edge(&mut map, &puzzle, Point(1, 1), Point(1, 0)));
    assert_eq!(State::Fixed(Edge::Line), edge(&mut map, &puzzle, Point(2, 2), Point(3, 2)));
    assert_eq!(State::Fixed(Edge::Line), edge(&mut map, &puzzle, Point(2, 2), Point(2, 3)));
}
