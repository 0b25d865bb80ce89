use srither::parse_arg::{parse_command, parse_output_mode, parse_size, CommandType, OutputMode, OutputModeArg, SolveArgs};
use srither::model::State;
use srither::pprint::{corner, label, pieces, rel_to_str_h, rel_to_str_v, Config, Mode};
use srither::puzzle::Edge;
use srither::puzzle::{Puzzle, Side};
use srither::search::solve;
use srither::geom::Point;

fn render(conf: &Config, puzzle: &Puzzle) -> String {
    pieces(conf, puzzle).into_iter().map(|p| p.text).collect()
}

#[test]
fn pretty_table_of_single_cell() {
    let puzzle = "4".parse::<Puzzle>().unwrap();
    let solution = solve(&puzzle).unwrap();
    let conf = Config { mode: Mode::Ascii, cell_width: 2, cell_height: 1 };
    assert_eq!("   0 \n  +--+\n0 |4 |0 \n  +--+\n   0 \n", render(&conf, &solution));
}

#[test]
fn pretty_table_of_unsolved_puzzle() {
    let puzzle = "1_\n".parse::<Puzzle>().unwrap();
    let conf = Config { mode: Mode::Ascii, cell_width: 1, cell_height: 3 };
    let text = render(&conf, &puzzle);
    let expected = "  0 1\n +~+~+\n ? ? ? \n0?1? ?0\n ? ? ? \n +~+~+\n  0 1\n";
    assert_eq!(expected, text);
}

#[test]
fn pieces_carry_sides() {
    let puzzle = "4".parse::<Puzzle>().unwrap();
    let solution = solve(&puzzle).unwrap();
    let conf = Config { mode: Mode::Color, cell_width: 2, cell_height: 1 };
    let ps = pieces(&conf, &solution);
    let cell = ps.iter().find(|p| p.text == "4 ").unwrap();
    assert!(cell.styled);
    assert_eq!(Some(Side::In), cell.side);
    assert!(ps.iter().filter(|p| p.text == "\n").all(|p| !p.styled));
}

#[test]
fn corners_follow_the_lines() {
    let puzzle = "4".parse::<Puzzle>().unwrap();
    let solution = solve(&puzzle).unwrap();
    assert_eq!(('+', None), corner(&solution, Point(0, 0)));
    let unknown = "_".parse::<Puzzle>().unwrap();
    assert_eq!(('+', None), corner(&unknown, Point(1, 1)));
}

#[test]
fn labels_keep_the_last_digits() {
    assert_eq!(vec!['1', '2'], label(12, 2, true));
    assert_eq!(vec!['2', '3'], label(123, 2, true));
    assert_eq!(vec![' ', '7', ' '], label(7, 3, true));
    assert_eq!(vec![' ', ' '], label(7, 2, false));
}

#[test]
fn command_line_words() {
    assert_eq!(Ok(CommandType::Solve), parse_command("solve"));
    assert!(parse_command("test").is_err());
    assert_eq!(Ok(OutputModeArg::PrettyAscii), parse_output_mode("pretty-ascii"));
    assert_eq!(Ok(OutputModeArg::NoOutput), parse_output_mode("none"));
    assert!(parse_output_mode("pretty").is_err());
    assert_eq!(3, parse_size("3").unwrap().0);
    assert_eq!(12, parse_size("+12").unwrap().0);
    assert!(parse_size("0").is_err());
    assert!(parse_size("").is_err());
    assert!(parse_size("+").is_err());
    assert!(parse_size("1a").is_err());
    assert!(parse_size("99999999999999999999999").is_err());
}

#[test]
fn output_mode_follows_the_terminal() {
    let args = SolveArgs::default();
    match args.output_mode(true) {
        OutputMode::Pretty(c) => {
            assert_eq!(Mode::Color, c.mode);
            assert_eq!(2, c.cell_width);
            assert_eq!(1, c.cell_height);
        },
        _ => panic!("pretty output expected"),
    }
    match args.output_mode(false) {
        OutputMode::Pretty(c) => assert_eq!(Mode::Ascii, c.mode),
        _ => panic!("pretty output expected"),
    }
    let mut raw = SolveArgs::default();
    raw.output_mode = OutputModeArg::Raw;
    assert!(matches!(raw.output_mode(true), OutputMode::Raw));
    let config = raw.into_config(false);
    assert!(!config.derive_all);
    assert!(config.input_files.is_empty());
}

#[test]
fn relation_characters() {
    assert_eq!("|", rel_to_str_v(State::Fixed(Edge::Line)));
    assert_eq!("-", rel_to_str_h(State::Fixed(Edge::Line)));
    assert_eq!(" ", rel_to_str_h(State::Fixed(Edge::Cross)));
    assert_eq!("/", rel_to_str_v(State::Unknown));
    assert_eq!("!", rel_to_str_h(State::Conflict));
}

#[test]
fn labels_of_width_zero() {
    assert_eq!(vec!['0'], label(7, 0, true));
    assert!(label(7, 0, false).is_empty());
}
