use srither::geom::{CellId, Point};
use srither::model::{ErrorKind, State};
use srither::puzzle::{Edge, Puzzle, Side};
use srither::search::{solve, Solutions};
use srither::solver::Solver;
use srither::theorem::Theorem;
use srither::theorem_define::theorem_define;

fn is_line(e: Option<Edge>) -> bool {
    e == Some(Edge::Line)
}

/// Every side and edge is filled, a line stands exactly between cells of different
/// sides, and every hint counts the lines around its cell.
fn check_solution(input: &Puzzle, output: &Puzzle) {
    let size = input.size();
    assert_eq!(size, output.size());
    for r in 0..size.0 {
        for c in 0..size.1 {
            let p = Point(r, c);
            assert_eq!(input.hint(p), output.hint(p));
            let side = output.side(p);
            assert!(side.is_some());
            let up = if r == 0 { Some(Side::Out) } else { output.side(Point(r - 1, c)) };
            let left = if c == 0 { Some(Side::Out) } else { output.side(Point(r, c - 1)) };
            assert_eq!(is_line(output.edge_h(p)), side != up);
            assert_eq!(is_line(output.edge_v(p)), side != left);
            if let Some(h) = input.hint(p) {
                let mut n = 0;
                for e in [
                    output.edge_h(p),
                    output.edge_h(Point(r + 1, c)),
                    output.edge_v(p),
                    output.edge_v(Point(r, c + 1)),
                ] {
                    if is_line(e) {
                        n += 1;
                    }
                }
                assert_eq!(h as i32, n);
            }
        }
    }
}

#[test]
fn solve_single_cell() {
    let puzzle = "4".parse::<Puzzle>().unwrap();
    let solution = solve(&puzzle).unwrap();
    assert_eq!("+-+\n|4|\n+-+\n", solution.to_string());
    check_solution(&puzzle, &solution);
}

#[test]
fn solve_small_grid() {
    let puzzle = "221\n221\n110\n".parse::<Puzzle>().unwrap();
    let solution = solve(&puzzle).unwrap();
    check_solution(&puzzle, &solution);
    assert_eq!(Some(Side::In), solution.side(Point(0, 0)));
    assert_eq!(Some(Side::In), solution.side(Point(1, 1)));
    assert_eq!(Some(Side::Out), solution.side(Point(2, 2)));
}

#[test]
fn solve_lattice_puzzle() {
    let input = "
+ + + + + +
 2 2 2 2 3
+ + + + + +
 2 3 2 2 2
+ + + + + +
 2 2 2 2 3
+ + + + + +
";
    let puzzle = input.parse::<Puzzle>().unwrap();
    let solution = solve(&puzzle).unwrap();
    check_solution(&puzzle, &solution);
}

#[test]
fn solve_keeps_stated_edges() {
    let input = "
+-+ + +
|     
+ + + +
 2 2 3
+ + + +
";
    let puzzle = input.parse::<Puzzle>().unwrap();
    let solution = solve(&puzzle).unwrap();
    check_solution(&puzzle, &solution);
    assert_eq!(Some(Edge::Line), solution.edge_h(Point(0, 0)));
    assert_eq!(Some(Edge::Line), solution.edge_v(Point(0, 0)));
}

#[test]
fn solve_without_solution() {
    let puzzle = "0".parse::<Puzzle>().unwrap();
    let err = solve(&puzzle).unwrap_err();
    assert_eq!(ErrorKind::InvalidBoard, err.kind());
    let puzzle = "33\n33\n".parse::<Puzzle>().unwrap();
    assert!(solve(&puzzle).is_err());
}

#[test]
fn solutions_are_found_one_by_one() {
    let puzzle = "4".parse::<Puzzle>().unwrap();
    let mut it = Solutions::new(&puzzle).unwrap();
    let first = it.next().unwrap();
    check_solution(&puzzle, &first);
    assert!(it.next().is_none());
}

#[test]
fn solver_records_sides() {
    let puzzle = "4".parse::<Puzzle>().unwrap();
    let theorems: Vec<Theorem> = theorem_define().iter().map(|s| s.parse::<Theorem>().unwrap()).collect();
    let mut solver = Solver::new(&puzzle, theorems).unwrap();
    let cell = CellId::new(1);
    assert!(solver.revision() > 0 || solver.get_side(cell) == State::Unknown);
    let mut copy = solver.duplicate();
    copy.set_outside(cell);
    assert_eq!(State::Fixed(Side::Out), copy.get_side(cell));
    let mut unknown = Solver::new(&puzzle, Vec::new()).unwrap();
    assert_eq!(State::Unknown, unknown.get_side(cell));
    assert!(unknown.set_inside(cell));
    assert!(!unknown.set_inside(cell));
    assert_eq!(State::Fixed(Side::In), unknown.get_side(cell));
    assert!(unknown.set_outside(cell));
    assert_eq!(State::Conflict, unknown.get_side(cell));
    assert!(unknown.validate_result().is_err() || unknown.into_puzzle().is_err());
}

#[test]
fn solver_unknown_points_come_sorted() {
    let puzzle = "____\n____\n".parse::<Puzzle>().unwrap();
    let mut solver = Solver::new(&puzzle, Vec::new()).unwrap();
    let pts = solver.get_unknown_points();
    assert_eq!(8, pts.len());
    let ids: Vec<usize> = pts.iter().map(|p| p.id()).collect();
    // The corner cells have two unknown edges inside the grid, the others three.
    assert_eq!(vec![1, 4, 5, 8, 2, 3, 6, 7], ids);
}
