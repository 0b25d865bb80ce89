use srither::lattice_parser::Cells;
use srither::geom::{Point, Size};
use srither::puzzle::{Edge, Puzzle};
use srither::puzzle_text::{ParsePuzzleError, PuzzleErrorKind};

fn check_error(result: Result<Puzzle, ParsePuzzleError>, error: ParsePuzzleError) {
    assert_eq!(result.unwrap_err().description(), error.description());
}

#[test]
fn parse_pattern2() {
    let input = "123___
______
3_____
";
    let puzzle = input.parse::<Puzzle>().unwrap();
    assert_eq!(Size(3, 6), puzzle.size());
    assert_eq!(Some(1), puzzle.hint(Point(0, 0)));
    assert_eq!(Some(2), puzzle.hint(Point(0, 1)));
    assert_eq!(Some(3), puzzle.hint(Point(0, 2)));
    assert_eq!(None, puzzle.hint(Point(0, 3)));
    assert_eq!(None, puzzle.hint(Point(0, 4)));
    assert_eq!(None, puzzle.hint(Point(0, 5)));
    assert_eq!(None, puzzle.hint(Point(1, 0)));
    assert_eq!(None, puzzle.hint(Point(1, 1)));
    assert_eq!(None, puzzle.hint(Point(1, 2)));
    assert_eq!(None, puzzle.hint(Point(1, 3)));
    assert_eq!(None, puzzle.hint(Point(1, 4)));
    assert_eq!(None, puzzle.hint(Point(1, 5)));
    assert_eq!(Some(3), puzzle.hint(Point(2, 0)));
    assert_eq!(None, puzzle.hint(Point(2, 1)));
    assert_eq!(None, puzzle.hint(Point(2, 2)));
    assert_eq!(None, puzzle.hint(Point(2, 3)));
    assert_eq!(None, puzzle.hint(Point(2, 4)));
    assert_eq!(None, puzzle.hint(Point(2, 5)));
    assert_eq!(&puzzle, puzzle.to_string().parse::<Puzzle>().as_ref().unwrap());
}

#[test]
fn parse_pattern2_numonly() {
    let puzzle = "1243".parse::<Puzzle>().unwrap();
    assert_eq!(Size(1, 4), puzzle.size());
    assert_eq!(Some(1), puzzle.hint(Point(0, 0)));
    assert_eq!(Some(2), puzzle.hint(Point(0, 1)));
    assert_eq!(Some(4), puzzle.hint(Point(0, 2)));
    assert_eq!(Some(3), puzzle.hint(Point(0, 3)));
}

#[test]
fn parse_pattern1() {
    let input = "
+--+ +-+!!+asdf
+  + + +xx+
|  |1|    x
|  | |  2 x
+  + + +  +
";
    let output = "+-+ +-+ +
         
+ + + +x+
| |1|  2x
+ + + + +
";

    let puzzle = input.parse::<Puzzle>().unwrap();
    assert_eq!(Some(1), puzzle.hint(Point(1, 1)));
    assert_eq!(Some(2), puzzle.hint(Point(1, 3)));
    assert_eq!(output, puzzle.to_string());
}

#[test]
fn parse_pattern1_noedge() {
    let input = "
+ + + +
 1 2 3
+ + + +
";
    let puzzle = input.parse::<Puzzle>().unwrap();
    assert_eq!(Some(1), puzzle.hint(Point(0, 0)));
    assert_eq!(Some(2), puzzle.hint(Point(0, 1)));
    assert_eq!(Some(3), puzzle.hint(Point(0, 2)));
}

#[test]
fn parse_empty() {
    check_error("".parse::<Puzzle>(), ParsePuzzleError::empty());
    check_error("\n".parse::<Puzzle>(), ParsePuzzleError::empty());
    check_error("\n\n".parse::<Puzzle>(), ParsePuzzleError::empty());
}

#[test]
fn parse_space_only() {
    check_error("  ".parse::<Puzzle>(), ParsePuzzleError::invalid_hint());
    check_error("   \n   ".parse::<Puzzle>(), ParsePuzzleError::invalid_hint());
}

#[test]
fn parse_pattern1_too_small() {
    check_error("+\n+".parse::<Puzzle>(), ParsePuzzleError::too_small_columns());
    check_error("++".parse::<Puzzle>(), ParsePuzzleError::too_small_rows());
}

#[test]
fn parse_invalid_num() {
    check_error("+ + + +\n 5 0 0 0\n+ + + +".parse::<Puzzle>(), ParsePuzzleError::invalid_hint());
    check_error("1253".parse::<Puzzle>(), ParsePuzzleError::invalid_hint());
}

#[test]
fn parse_pattern2_length_mismatch() {
    check_error("1111\n222".parse::<Puzzle>(), ParsePuzzleError::length_mismatch());
}

#[test]
fn parse_invalid_lattice_point() {
    let r = "+ + +\n 1 2\n+ +  \n".parse::<Puzzle>();
    match r.unwrap_err().kind() {
        PuzzleErrorKind::Lattice(_) => {}
        k => panic!("unexpected error kind {:?}", k),
    }
}

#[test]
fn parse_pattern1_edges() {
    let puzzle = "+-+x+\n|1x2|\n+x+-+\n".parse::<Puzzle>().unwrap();
    assert_eq!(Size(1, 2), puzzle.size());
    assert_eq!(Some(Edge::Line), puzzle.edge_h(Point(0, 0)));
    assert_eq!(Some(Edge::Cross), puzzle.edge_h(Point(0, 1)));
    assert_eq!(Some(Edge::Cross), puzzle.edge_h(Point(1, 0)));
    assert_eq!(Some(Edge::Line), puzzle.edge_h(Point(1, 1)));
    assert_eq!(Some(Edge::Line), puzzle.edge_v(Point(0, 0)));
    assert_eq!(Some(Edge::Cross), puzzle.edge_v(Point(0, 1)));
    assert_eq!(Some(Edge::Line), puzzle.edge_v(Point(0, 2)));
    assert_eq!(3, puzzle.sum_of_hint());
    assert_eq!(None, puzzle.side(Point(0, 0)));
}

#[test]
fn puzzle_text_roundtrip_lattice() {
    let text = "+-+x+\n|1x2|\n+x+-+\n";
    let puzzle = text.parse::<Puzzle>().unwrap();
    assert_eq!(text, puzzle.to_string());
    assert_eq!(&puzzle, puzzle.to_string().parse::<Puzzle>().as_ref().unwrap());
}

#[test]
fn puzzle_text_large_hint_is_drawn_in_decimal() {
    let mut puzzle = Puzzle::new(Size(1, 1));
    puzzle.set_hint(Point(0, 0), Some(123));
    assert_eq!("+ +\n 123 \n+ +\n", puzzle.to_string());
}

#[test]
fn parse_error_descriptions() {
    assert_eq!("cannot parse puzzle from empty string", ParsePuzzleError::empty().description());
    assert_eq!("the puzzle is too large", ParsePuzzleError::too_large().description());
    assert_eq!(PuzzleErrorKind::TooSmallRows, ParsePuzzleError::too_small_rows().kind());
}

#[test]
fn parse_crlf_lines() {
    let puzzle = "12\r\n34\r\n".parse::<Puzzle>().unwrap();
    assert_eq!(Size(2, 2), puzzle.size());
    assert_eq!(Some(4), puzzle.hint(Point(1, 1)));
}

#[test]
fn puzzle_parse() {
    let input = "123___
______
3_____
";
    let puzzle = input.parse::<Puzzle>().unwrap();
    assert_eq!(Size(3, 6), puzzle.size());
    assert_eq!(Some(1), puzzle.hint(Point(0, 0)));
    assert_eq!(Some(2), puzzle.hint(Point(0, 1)));
    assert_eq!(Some(3), puzzle.hint(Point(0, 2)));
    assert_eq!(None, puzzle.hint(Point(0, 3)));
    assert_eq!(None, puzzle.hint(Point(0, 4)));
    assert_eq!(None, puzzle.hint(Point(0, 5)));
    assert_eq!(None, puzzle.hint(Point(1, 0)));
    assert_eq!(None, puzzle.hint(Point(1, 1)));
    assert_eq!(None, puzzle.hint(Point(1, 2)));
    assert_eq!(None, puzzle.hint(Point(1, 3)));
    assert_eq!(None, puzzle.hint(Point(1, 4)));
    assert_eq!(None, puzzle.hint(Point(1, 5)));
    assert_eq!(Some(3), puzzle.hint(Point(2, 0)));
    assert_eq!(None, puzzle.hint(Point(2, 1)));
    assert_eq!(None, puzzle.hint(Point(2, 2)));
    assert_eq!(None, puzzle.hint(Point(2, 3)));
    assert_eq!(None, puzzle.hint(Point(2, 4)));
    assert_eq!(None, puzzle.hint(Point(2, 5)));

    assert_eq!(&puzzle, puzzle.to_string().parse::<Puzzle>().as_ref().unwrap());

    let puzzle = "1243".parse::<Puzzle>().unwrap();
    assert_eq!(Size(1, 4), puzzle.size());
    assert_eq!(Some(1), puzzle.hint(Point(0, 0)));
    assert_eq!(Some(2), puzzle.hint(Point(0, 1)));
    assert_eq!(Some(4), puzzle.hint(Point(0, 2)));
    assert_eq!(Some(3), puzzle.hint(Point(0, 3)));

    assert!("1253".parse::<Puzzle>().is_err());

    let input = "
+--+ +-+!!+asdf
+  + + +  +
|  |1|    |
|  | |  2 |
+  + + +  +
";
    let output = "+-+ +-+ +
         
+ + + + +
| |1|  2|
+ + + + +
";

    let puzzle = input.parse::<Puzzle>().unwrap();
    assert_eq!(Some(1), puzzle.hint(Point(1, 1)));
    assert_eq!(Some(2), puzzle.hint(Point(1, 3)));
    assert_eq!(output, puzzle.to_string());

    assert!("".parse::<Puzzle>().is_err());

    let input = "
+ + + +
 1 2 3
+ + + +
";
    let puzzle = input.parse::<Puzzle>().unwrap();
    assert_eq!(Some(1), puzzle.hint(Point(0, 0)));
    assert_eq!(Some(2), puzzle.hint(Point(0, 1)));
    assert_eq!(Some(3), puzzle.hint(Point(0, 2)));
}

#[test]
fn cells_pad_short_lines() {
    let mat: Vec<Vec<char>> = vec!["+-+-+".chars().collect(), "|a|".chars().collect(), "+-+-+".chars().collect()];
    let mut cells = Cells::new(&mat, &vec![0, 2], &vec![0, 2, 4]);
    assert_eq!(Some((Point(0, 0), "a".to_string())), cells.next());
    assert_eq!(Some((Point(0, 1), " ".to_string())), cells.next());
    assert_eq!(None, cells.next());
}
