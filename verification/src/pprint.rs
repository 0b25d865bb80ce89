//! The layout of a puzzle drawn as a table: every corner, edge and cell as a piece of
//! text, with the side whose colour it takes when drawn in colour.
use vstd::prelude::*;

use crate::geom::Point;
use crate::puzzle::{Edge, Puzzle, Side};
use crate::puzzle_text::{decimal, digit, digit_char};
use crate::text::string_from_chars;

verus! {

/// How a table is drawn: in colour, or in plain characters.
#[derive(Copy, Clone, Debug, PartialEq, Eq, Structural)]
pub enum Mode {
    /// Each piece takes the colour of its side.
    Color,
    /// Plain characters only.
    Ascii,
}

/// The drawing mode and the size of a cell, in characters.
#[derive(Copy, Clone, Debug)]
pub struct Config {
    /// The drawing mode.
    pub mode: Mode,
    /// The width of a cell.
    pub cell_width: usize,
    /// The height of a cell.
    pub cell_height: usize,
}

/// A piece of the table: its text, whether it takes a colour, and the side whose colour
/// it takes (`None`: the colour of an unknown side).
#[derive(Clone, Debug)]
pub struct Piece {
    /// Whether the piece is coloured when drawn in colour.
    pub styled: bool,
    /// The side whose colour the piece takes.
    pub side: Option<Side>,
    /// The text of the piece.
    pub text: String,
}

impl View for Piece {
    type V = (bool, Option<Side>, Seq<char>);

    open spec fn view(&self) -> (bool, Option<Side>, Seq<char>) {
        (self.styled, self.side, self.text@)
    }
}

/// `w` copies of `c`.
pub open spec fn repeat(c: char, w: nat) -> Seq<char> {
    Seq::new(w, |_i: int| c)
}

/// `s` centred in `w` columns: the spare columns split in two, the larger half on the
/// right; `s` itself when it is that wide already.
pub open spec fn centered(s: Seq<char>, w: nat) -> Seq<char> {
    if s.len() >= w {
        s
    } else {
        let spare = (w - s.len()) as nat;
        repeat(' ', spare / 2) + s + repeat(' ', (spare - spare / 2) as nat)
    }
}

/// Ten to the power `w`.
pub open spec fn pow10(w: nat) -> nat
    decreases w,
{
    if w == 0 {
        1
    } else {
        10 * pow10((w - 1) as nat)
    }
}

/// The point on the left of `p`.
pub open spec fn left_of(p: Point) -> Point {
    Point(p.0, (p.1 - 1) as i32)
}

/// The point above `p`.
pub open spec fn above(p: Point) -> Point {
    Point((p.0 - 1) as i32, p.1)
}

/// The corner at the top left of `p`: a dot with the side of `p` when the four edges
/// around it are crosses, a dash or a bar when the line goes straight through, a plus
/// otherwise.
pub open spec fn corner_piece(pz: Puzzle, p: Point) -> (char, Option<Side>) {
    let eh_p = pz.edge_h_at(p);
    let eh_l = pz.edge_h_at(left_of(p));
    let ev_p = pz.edge_v_at(p);
    let ev_u = pz.edge_v_at(above(p));
    let same_all = eh_p == Some(Edge::Cross) && eh_l == Some(Edge::Cross) && ev_p == Some(Edge::Cross) && ev_u == Some(
        Edge::Cross,
    );
    let side = if same_all {
        pz.side_at(p)
    } else {
        None
    };
    let is_h = eh_p == Some(Edge::Line) && eh_l == Some(Edge::Line);
    let is_v = ev_p == Some(Edge::Line) && ev_u == Some(Edge::Line);
    let c = if same_all {
        '.'
    } else if is_h {
        '-'
    } else if is_v {
        '|'
    } else {
        '+'
    };
    (c, side)
}

/// A line running straight through a corner is drawn there as the line itself: a corner
/// whose horizontal edges on both sides are lines shows the character of a horizontal
/// line edge; otherwise, one whose vertical edges above and below are lines shows the
/// character of a vertical line edge. Such a corner is drawn without colour.
pub proof fn law_corner_straight(pz: Puzzle, p: Point, w: nat)
    requires
        w >= 1,
    ensures
        pz.edge_h_at(p) == Some(Edge::Line) && pz.edge_h_at(left_of(p)) == Some(Edge::Line) ==> corner_piece(pz, p).0
            == edge_h_piece(pz, p, w).0[0] && corner_piece(pz, p).1 is None,
        !(pz.edge_h_at(p) == Some(Edge::Line) && pz.edge_h_at(left_of(p)) == Some(Edge::Line)) && pz.edge_v_at(p) == Some(
            Edge::Line,
        ) && pz.edge_v_at(above(p)) == Some(Edge::Line) ==> corner_piece(pz, p).0 == edge_v_piece(pz, p).0 && corner_piece(
            pz,
            p,
        ).1 is None,
{
}

/// The edge above `p`, `w` columns wide.
pub open spec fn edge_h_piece(pz: Puzzle, p: Point, w: nat) -> (Seq<char>, Option<Side>) {
    match pz.edge_h_at(p) {
        Some(Edge::Cross) => (repeat(' ', w), pz.side_at(p)),
        Some(Edge::Line) => (repeat('-', w), None),
        None => (repeat('~', w), None),
    }
}

/// The edge on the left of `p`.
pub open spec fn edge_v_piece(pz: Puzzle, p: Point) -> (char, Option<Side>) {
    match pz.edge_v_at(p) {
        Some(Edge::Cross) => (' ', pz.side_at(p)),
        Some(Edge::Line) => ('|', None),
        None => ('?', None),
    }
}

/// The line of cell `p` that holds its hint (`num_line`) or not, `w` columns wide.
pub open spec fn cell_piece(pz: Puzzle, p: Point, num_line: bool, w: nat) -> (Seq<char>, Option<Side>) {
    match pz.hint_at(p) {
        Some(x) => if num_line {
            (centered(decimal(x as nat), w), pz.side_at(p))
        } else {
            (repeat(' ', w), pz.side_at(p))
        },
        None => (repeat(' ', w), pz.side_at(p)),
    }
}

/// The label of row or column `n`: its last `w` digits centred, on the line that holds
/// numbers.
pub open spec fn label_piece(n: nat, w: nat, num_line: bool) -> Seq<char> {
    if num_line {
        centered(decimal(n % pow10(w)), w)
    } else {
        repeat(' ', w)
    }
}

/// Appends `w` copies of `c`.
fn push_repeat(out: &mut Vec<char>, c: char, w: usize)
    ensures
        final(out)@ == old(out)@ + repeat(c, w as nat),
{
    let mut i: usize = 0;
    while i < w
        invariant
            i <= w,
            out@ == old(out)@ + repeat(c, i as nat),
        decreases w - i,
    {
        out.push(c);
        i = i + 1;
        assert(out@ =~= old(out)@ + repeat(c, i as nat));
    }
}

/// Appends the decimal digits of `n`.
fn push_decimal(out: &mut Vec<char>, n: u32)
    ensures
        final(out)@ == old(out)@ + decimal(n as nat),
    decreases n,
{
    if n >= 10 {
        push_decimal(out, n / 10);
    }
    out.push(digit((n % 10) as u8));
    assert(final(out)@ =~= old(out)@ + decimal(n as nat));
}

/// `s` centred in `w` columns.
fn centered_text(s: &Vec<char>, w: usize) -> (r: Vec<char>)
    ensures
        r@ == centered(s@, w as nat),
{
    let mut out: Vec<char> = Vec::new();
    if s.len() >= w {
        let mut i: usize = 0;
        while i < s.len()
            invariant
                i <= s@.len(),
                out@ == s@.take(i as int),
            decreases s@.len() - i,
        {
            out.push(s[i]);
            i = i + 1;
            assert(out@ =~= s@.take(i as int));
        }
        assert(s@.take(s@.len() as int) =~= s@);
        return out;
    }
    let spare = w - s.len();
    push_repeat(&mut out, ' ', spare / 2);
    let ghost head = out@;
    let mut i: usize = 0;
    while i < s.len()
        invariant
            i <= s@.len(),
            out@ == head + s@.take(i as int),
        decreases s@.len() - i,
    {
        out.push(s[i]);
        i = i + 1;
        assert(out@ =~= head + s@.take(i as int));
    }
    assert(s@.take(s@.len() as int) =~= s@);
    push_repeat(&mut out, ' ', spare - spare / 2);
    out
}

/// The corner at the top left of `p`.
pub fn corner(puzzle: &Puzzle, p: Point) -> (r: (char, Option<Side>))
    requires
        puzzle.wf(),
        p.1 > i32::MIN,
        p.0 > i32::MIN,
    ensures
        r == corner_piece(*puzzle, p),
{
    let l = Point(p.0, p.1 - 1);
    let u = Point(p.0 - 1, p.1);
    let eh_p = puzzle.edge_h(p);
    let eh_l = puzzle.edge_h(l);
    let ev_p = puzzle.edge_v(p);
    let ev_u = puzzle.edge_v(u);
    let same_all = eh_p == Some(Edge::Cross) && eh_l == Some(Edge::Cross) && ev_p == Some(Edge::Cross) && ev_u == Some(
        Edge::Cross,
    );
    let side = if same_all {
        puzzle.side(p)
    } else {
        None
    };
    let is_h = eh_p == Some(Edge::Line) && eh_l == Some(Edge::Line);
    let is_v = ev_p == Some(Edge::Line) && ev_u == Some(Edge::Line);
    if same_all {
        ('.', side)
    } else if is_h {
        ('-', side)
    } else if is_v {
        ('|', side)
    } else {
        ('+', side)
    }
}

/// The edge above `p`, `width` columns wide.
pub fn edge_h(puzzle: &Puzzle, p: Point, width: usize) -> (r: (Vec<char>, Option<Side>))
    requires
        puzzle.wf(),
    ensures
        (r.0@, r.1) == edge_h_piece(*puzzle, p, width as nat),
{
    let mut s: Vec<char> = Vec::new();
    match puzzle.edge_h(p) {
        Some(Edge::Cross) => {
            push_repeat(&mut s, ' ', width);
            (s, puzzle.side(p))
        },
        Some(Edge::Line) => {
            push_repeat(&mut s, '-', width);
            (s, None)
        },
        None => {
            push_repeat(&mut s, '~', width);
            (s, None)
        },
    }
}

/// The edge on the left of `p`.
pub fn edge_v(puzzle: &Puzzle, p: Point) -> (r: (char, Option<Side>))
    requires
        puzzle.wf(),
    ensures
        r == edge_v_piece(*puzzle, p),
{
    match puzzle.edge_v(p) {
        Some(Edge::Cross) => (' ', puzzle.side(p)),
        Some(Edge::Line) => ('|', None),
        None => ('?', None),
    }
}

/// One line of cell `p`, `width` columns wide: its hint centred on the line that holds
/// numbers.
pub fn cell(puzzle: &Puzzle, p: Point, num_line: bool, width: usize) -> (r: (Vec<char>, Option<Side>))
    requires
        puzzle.wf(),
    ensures
        (r.0@, r.1) == cell_piece(*puzzle, p, num_line, width as nat),
{
    let side = puzzle.side(p);
    let mut s: Vec<char> = Vec::new();
    match puzzle.hint(p) {
        Some(x) => {
            if num_line {
                let mut digits: Vec<char> = Vec::new();
                push_decimal(&mut digits, x as u32);
                assert(digits@ == decimal(x as nat));
                (centered_text(&digits, width), side)
            } else {
                push_repeat(&mut s, ' ', width);
                (s, side)
            }
        },
        None => {
            push_repeat(&mut s, ' ', width);
            (s, side)
        },
    }
}

/// The label of row or column `n`, `width` columns wide.
pub fn label(n: u32, width: usize, num_line: bool) -> (r: Vec<char>)
    requires
        width <= 9,
    ensures
        r@ == label_piece(n as nat, width as nat, num_line),
{
    if !num_line {
        let mut s: Vec<char> = Vec::new();
        push_repeat(&mut s, ' ', width);
        return s;
    }
    let mut order: u64 = 1;
    let mut i: usize = 0;
    while i < width
        invariant
            i <= width <= 9,
            order == pow10(i as nat),
            1 <= order <= 1_000_000_000,
        decreases width - i,
    {
        assert(pow10((i + 1) as nat) == 10 * pow10(i as nat));
        assert(i < 9 ==> order <= 100_000_000) by {
            if i < 9 {
                lemma_pow10_bound(i as nat);
            }
        }
        order = order * 10;
        i = i + 1;
    }
    let m = ((n as u64) % order) as u32;
    let mut digits: Vec<char> = Vec::new();
    push_decimal(&mut digits, m);
    centered_text(&digits, width)
}

/// Ten to the power `w` is at most ten to the power eight below nine.
proof fn lemma_pow10_bound(w: nat)
    requires
        w < 9,
    ensures
        pow10(w) <= 100_000_000,
    decreases w,
{
    if w > 0 {
        lemma_pow10_bound((w - 1) as nat);
        assert(pow10((w - 1) as nat) <= 10_000_000) by {
            if w - 1 < 8 {
                lemma_pow10_small((w - 1) as nat);
            }
        }
    }
}

/// Ten to the power `w` is at most ten to the power seven below eight.
proof fn lemma_pow10_small(w: nat)
    requires
        w < 8,
    ensures
        pow10(w) <= 10_000_000,
{
    reveal_with_fuel(pow10, 9);
}


/// A piece drawn without colour.
pub open spec fn plain(s: Seq<char>) -> (bool, Option<Side>, Seq<char>) {
    (false, None, s)
}

/// A piece drawn in the colour of `side`.
pub open spec fn styled(s: Seq<char>, side: Option<Side>) -> (bool, Option<Side>, Seq<char>) {
    (true, side, s)
}

/// The views of pieces.
pub open spec fn views(s: Seq<Piece>) -> Seq<(bool, Option<Side>, Seq<char>)> {
    s.map_values(|p: Piece| p@)
}

/// The first `k` columns of the label row.
pub open spec fn label_row_prefix(w: nat, k: int) -> Seq<(bool, Option<Side>, Seq<char>)>
    decreases k,
{
    if k <= 0 {
        seq![plain(repeat(' ', w))]
    } else {
        label_row_prefix(w, k - 1) + seq![plain(seq![' ']), plain(label_piece((k - 1) as nat, w, true))]
    }
}

/// The row of column labels.
pub open spec fn label_row(pz: Puzzle, w: nat) -> Seq<(bool, Option<Side>, Seq<char>)> {
    label_row_prefix(w, pz.spec_size().1 as int) + seq![plain(seq!['\n'])]
}

/// The first `k` columns of the edge row above row `y`.
pub open spec fn edge_row_prefix(pz: Puzzle, w: nat, y: int, k: int) -> Seq<(bool, Option<Side>, Seq<char>)>
    decreases k,
{
    if k <= 0 {
        seq![plain(repeat(' ', w))]
    } else {
        let p = Point(y as i32, (k - 1) as i32);
        edge_row_prefix(pz, w, y, k - 1) + seq![
            styled(seq![corner_piece(pz, p).0], corner_piece(pz, p).1),
            styled(edge_h_piece(pz, p, w).0, edge_h_piece(pz, p, w).1),
        ]
    }
}

/// The edge row above row `y`.
pub open spec fn edge_row(pz: Puzzle, w: nat, y: int) -> Seq<(bool, Option<Side>, Seq<char>)> {
    let p = Point(y as i32, pz.spec_size().1);
    edge_row_prefix(pz, w, y, pz.spec_size().1 as int) + seq![
        styled(seq![corner_piece(pz, p).0], corner_piece(pz, p).1),
        plain(seq!['\n']),
    ]
}

/// The first `k` columns of one line of row `y`.
pub open spec fn cell_line_prefix(pz: Puzzle, w: nat, y: int, num_line: bool, k: int) -> Seq<(bool, Option<Side>, Seq<char>)>
    decreases k,
{
    if k <= 0 {
        seq![plain(label_piece(y as nat, w, num_line))]
    } else {
        let p = Point(y as i32, (k - 1) as i32);
        cell_line_prefix(pz, w, y, num_line, k - 1) + seq![
            styled(seq![edge_v_piece(pz, p).0], edge_v_piece(pz, p).1),
            styled(cell_piece(pz, p, num_line, w).0, cell_piece(pz, p, num_line, w).1),
        ]
    }
}

/// One line of row `y`.
pub open spec fn cell_line(pz: Puzzle, w: nat, y: int, num_line: bool) -> Seq<(bool, Option<Side>, Seq<char>)> {
    let p = Point(y as i32, pz.spec_size().1);
    cell_line_prefix(pz, w, y, num_line, pz.spec_size().1 as int) + seq![
        styled(seq![edge_v_piece(pz, p).0], edge_v_piece(pz, p).1),
        plain(label_piece(y as nat, w, num_line)),
        plain(seq!['\n']),
    ]
}

/// The first `i` lines of row `y`, `h` lines high; the hints go on the middle line.
pub open spec fn cell_rows(pz: Puzzle, w: nat, h: nat, y: int, i: int) -> Seq<(bool, Option<Side>, Seq<char>)>
    decreases i,
{
    if i <= 0 {
        Seq::empty()
    } else {
        cell_rows(pz, w, h, y, i - 1) + cell_line(pz, w, y, (h - 1) / 2 == i - 1)
    }
}

/// The label row and the first `k` rows of the table.
pub open spec fn table_prefix(pz: Puzzle, w: nat, h: nat, k: int) -> Seq<(bool, Option<Side>, Seq<char>)>
    decreases k,
{
    if k <= 0 {
        label_row(pz, w)
    } else {
        table_prefix(pz, w, h, k - 1) + edge_row(pz, w, k - 1) + cell_rows(pz, w, h, k - 1, h as int)
    }
}

/// The whole table: labels, rows, the last edge row, labels again.
pub open spec fn table(pz: Puzzle, conf: Config) -> Seq<(bool, Option<Side>, Seq<char>)> {
    let w = conf.cell_width as nat;
    let h = conf.cell_height as nat;
    table_prefix(pz, w, h, pz.spec_size().0 as int) + edge_row(pz, w, pz.spec_size().0 as int) + label_row(pz, w)
}

/// The text of one character.
fn single(c: char) -> (r: Vec<char>)
    ensures
        r@ == seq![c],
{
    let mut v: Vec<char> = Vec::new();
    v.push(c);
    assert(v@ =~= seq![c]);
    v
}

/// Appends a piece.
fn push_piece(out: &mut Vec<Piece>, styled: bool, side: Option<Side>, text: &Vec<char>)
    ensures
        views(final(out)@) == views(old(out)@).push((styled, side, text@)),
{
    let piece = Piece { styled: styled, side: side, text: string_from_chars(text) };
    out.push(piece);
    assert(views(final(out)@) =~= views(old(out)@).push((styled, side, text@)));
}

/// Appends the label row.
fn push_label_row(out: &mut Vec<Piece>, puzzle: &Puzzle, w: usize)
    requires
        puzzle.wf(),
        w <= 9,
    ensures
        views(final(out)@) == views(old(out)@) + label_row(*puzzle, w as nat),
{
    proof {
        puzzle.lemma_lengths();
    }
    let size = puzzle.size();
    let mut s: Vec<char> = Vec::new();
    push_repeat(&mut s, ' ', w);
    push_piece(out, false, None, &s);
    let ghost start = views(old(out)@);
    let mut x: i32 = 0;
    while x < size.1
        invariant
            0 <= x <= size.1,
            size == puzzle.spec_size(),
            w <= 9,
            views(out@) == start + label_row_prefix(w as nat, x as int),
        decreases size.1 - x,
    {
        let space = single(' ');
        push_piece(out, false, None, &space);
        let l = label(x as u32, w, true);
        push_piece(out, false, None, &l);
        x = x + 1;
        assert(views(out@) =~= start + label_row_prefix(w as nat, x as int));
    }
    let nl = single('\n');
    push_piece(out, false, None, &nl);
    assert(views(out@) =~= start + label_row(*puzzle, w as nat));
}

/// Appends the edge row above row `y`.
fn push_edge_row(out: &mut Vec<Piece>, puzzle: &Puzzle, w: usize, y: i32)
    requires
        puzzle.wf(),
        0 <= y <= puzzle.spec_size().0,
    ensures
        views(final(out)@) == views(old(out)@) + edge_row(*puzzle, w as nat, y as int),
{
    proof {
        puzzle.lemma_lengths();
    }
    let size = puzzle.size();
    let mut s: Vec<char> = Vec::new();
    push_repeat(&mut s, ' ', w);
    push_piece(out, false, None, &s);
    let ghost start = views(old(out)@);
    let mut x: i32 = 0;
    while x < size.1
        invariant
            0 <= x <= size.1,
            size == puzzle.spec_size(),
            crate::puzzle::valid_puzzle_size(size),
            puzzle.wf(),
            0 <= y <= size.0,
            views(out@) == start + edge_row_prefix(*puzzle, w as nat, y as int, x as int),
        decreases size.1 - x,
    {
        let p = Point(y, x);
        let (c, side) = corner(puzzle, p);
        let cs = single(c);
        push_piece(out, true, side, &cs);
        let (e, eside) = edge_h(puzzle, p, w);
        push_piece(out, true, eside, &e);
        x = x + 1;
        assert(views(out@) =~= start + edge_row_prefix(*puzzle, w as nat, y as int, x as int));
    }
    let p = Point(y, size.1);
    let (c, side) = corner(puzzle, p);
    let cs = single(c);
    push_piece(out, true, side, &cs);
    let nl = single('\n');
    push_piece(out, false, None, &nl);
    assert(views(out@) =~= start + edge_row(*puzzle, w as nat, y as int));
}

/// Appends one line of row `y`.
fn push_cell_line(out: &mut Vec<Piece>, puzzle: &Puzzle, w: usize, y: i32, num_line: bool)
    requires
        puzzle.wf(),
        0 <= y < puzzle.spec_size().0,
        w <= 9,
    ensures
        views(final(out)@) == views(old(out)@) + cell_line(*puzzle, w as nat, y as int, num_line),
{
    proof {
        puzzle.lemma_lengths();
    }
    let size = puzzle.size();
    let lab = label(y as u32, w, num_line);
    push_piece(out, false, None, &lab);
    let ghost start = views(old(out)@);
    let mut x: i32 = 0;
    while x < size.1
        invariant
            0 <= x <= size.1,
            size == puzzle.spec_size(),
            crate::puzzle::valid_puzzle_size(size),
            puzzle.wf(),
            0 <= y < size.0,
            views(out@) == start + cell_line_prefix(*puzzle, w as nat, y as int, num_line, x as int),
        decreases size.1 - x,
    {
        let p = Point(y, x);
        let (c, side) = edge_v(puzzle, p);
        let cs = single(c);
        push_piece(out, true, side, &cs);
        let (t, cside) = cell(puzzle, p, num_line, w);
        push_piece(out, true, cside, &t);
        x = x + 1;
        assert(views(out@) =~= start + cell_line_prefix(*puzzle, w as nat, y as int, num_line, x as int));
    }
    let p = Point(y, size.1);
    let (c, side) = edge_v(puzzle, p);
    let cs = single(c);
    push_piece(out, true, side, &cs);
    push_piece(out, false, None, &lab);
    let nl = single('\n');
    push_piece(out, false, None, &nl);
    assert(views(out@) =~= start + cell_line(*puzzle, w as nat, y as int, num_line));
}

/// The pieces of the table of `puzzle`, in drawing order.
pub fn pieces(conf: &Config, puzzle: &Puzzle) -> (r: Vec<Piece>)
    requires
        puzzle.wf(),
        conf.cell_width <= 9,
    ensures
        views(r@) == table(*puzzle, *conf),
{
    proof {
        puzzle.lemma_lengths();
    }
    let size = puzzle.size();
    let w = conf.cell_width;
    let h = conf.cell_height;
    let mut out: Vec<Piece> = Vec::new();
    assert(views(out@) =~= Seq::empty());
    push_label_row(&mut out, puzzle, w);
    let mut y: i32 = 0;
    while y < size.0
        invariant
            0 <= y <= size.0,
            size == puzzle.spec_size(),
            puzzle.wf(),
            w == conf.cell_width,
            h == conf.cell_height,
            w <= 9,
            views(out@) == table_prefix(*puzzle, w as nat, h as nat, y as int),
        decreases size.0 - y,
    {
        push_edge_row(&mut out, puzzle, w, y);
        let ghost mid = views(out@);
        let mut i: usize = 0;
        while i < h
            invariant
                i <= h,
                0 <= y < size.0,
                size == puzzle.spec_size(),
                puzzle.wf(),
                w <= 9,
                views(out@) == mid + cell_rows(*puzzle, w as nat, h as nat, y as int, i as int),
            decreases h - i,
        {
            let num_line = (h - 1) / 2 == i;
            push_cell_line(&mut out, puzzle, w, y, num_line);
            i = i + 1;
            assert(views(out@) =~= mid + cell_rows(*puzzle, w as nat, h as nat, y as int, i as int));
        }
        y = y + 1;
        assert(views(out@) =~= table_prefix(*puzzle, w as nat, h as nat, y as int));
    }
    push_edge_row(&mut out, puzzle, w, size.0);
    push_label_row(&mut out, puzzle, w);
    out
}

/// The character of a vertical edge in a relation state: a space for a cross, a bar for a
/// line, a slash when unknown, a bang on a conflict.
pub open spec fn rel_char_v(rel: crate::model::State<Edge>) -> char {
    match rel {
        crate::model::State::Fixed(Edge::Cross) => ' ',
        crate::model::State::Fixed(Edge::Line) => '|',
        crate::model::State::Unknown => '/',
        crate::model::State::Conflict => '!',
    }
}

/// The character of a horizontal edge in a relation state: as for a vertical one, but a
/// dash for a line.
pub open spec fn rel_char_h(rel: crate::model::State<Edge>) -> char {
    match rel {
        crate::model::State::Fixed(Edge::Line) => '-',
        _ => rel_char_v(rel),
    }
}

/// The text of a vertical edge in a relation state.
pub fn rel_to_str_v(rel: crate::model::State<Edge>) -> (r: String)
    ensures
        r@ == seq![rel_char_v(rel)],
{
    let c = match rel {
        crate::model::State::Fixed(Edge::Cross) => ' ',
        crate::model::State::Fixed(Edge::Line) => '|',
        crate::model::State::Unknown => '/',
        crate::model::State::Conflict => '!',
    };
    string_from_chars(&single(c))
}

/// The text of a horizontal edge in a relation state.
pub fn rel_to_str_h(rel: crate::model::State<Edge>) -> (r: String)
    ensures
        r@ == seq![rel_char_h(rel)],
{
    let c = match rel {
        crate::model::State::Fixed(Edge::Cross) => ' ',
        crate::model::State::Fixed(Edge::Line) => '-',
        crate::model::State::Unknown => '/',
        crate::model::State::Conflict => '!',
    };
    string_from_chars(&single(c))
}
} // verus!
