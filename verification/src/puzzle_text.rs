//! Reading a puzzle from text, and writing it as a lattice.
//!
//! Two layouts are read. A lattice drawn with `+` at the corners, `|` and `-` for lines,
//! `x` for crosses and the hints in the cells; or one character per cell, a digit for a
//! hint and `_` or `-` for a cell without one.
use vstd::prelude::*;

use crate::geom::{lemma_div_mod_point, Point, Size};
use crate::lattice_parser::{
    cells_of, h_edges_of, has_plus, plus_positions, plus_rows, rows_match, v_edges_of,
    LatticeParser, ParseLatticeError,
};
use crate::puzzle::{hint_sum, lemma_hint_sum_bound, lemma_hint_sum_prefix, none_vec, valid_puzzle_size, Edge, Hint, Puzzle};
use crate::text::{
    drop_back_while, drop_front_while, lemma_drop_back_while, lemma_drop_front_while, lines_of,
    split_lines, str_chars, string_from_chars,
};

verus! {

/// The kinds of errors met when parsing a puzzle.
#[derive(Copy, Clone, Debug, PartialEq, Eq, Structural)]
pub enum PuzzleErrorKind {
    /// The text holds no line.
    Empty,
    /// A lattice with fewer than two row lines.
    TooSmallRows,
    /// A lattice with fewer than two columns.
    TooSmallColumns,
    /// Lines of different lengths in the one-character-per-cell layout.
    LengthMismatch,
    /// A cell whose text is not a hint.
    InvalidHint,
    /// A puzzle whose size does not fit the grid's integers, or whose hints sum past `u32`.
    TooLarge,
    /// The lattice itself is malformed.
    Lattice(ParseLatticeError),
}

/// An error returned from parsing a string into a puzzle.
#[derive(Copy, Clone, Debug, PartialEq, Eq, Structural)]
pub struct ParsePuzzleError {
    kind: PuzzleErrorKind,
}

/// The description of each kind of error.
pub open spec fn puzzle_error_description(k: PuzzleErrorKind) -> Seq<char> {
    match k {
        PuzzleErrorKind::Empty => "cannot parse puzzle from empty string"@,
        PuzzleErrorKind::TooSmallRows => "the number of rows is too small to parse puzzle"@,
        PuzzleErrorKind::TooSmallColumns => "the number of columns is too small to parse puzzle"@,
        PuzzleErrorKind::LengthMismatch => "the length of lines are not same"@,
        PuzzleErrorKind::InvalidHint => "invalid hint found in string"@,
        PuzzleErrorKind::TooLarge => "the puzzle is too large"@,
        PuzzleErrorKind::Lattice(_) => "invalid lattice point found in string"@,
    }
}

impl ParsePuzzleError {
    /// The kind of the error.
    pub closed spec fn spec_kind(self) -> PuzzleErrorKind {
        self.kind
    }

    /// The kind of the error.
    pub fn kind(&self) -> (r: PuzzleErrorKind)
        ensures
            r == self.spec_kind(),
    {
        self.kind
    }

    /// The error for a text without lines.
    pub fn empty() -> (r: ParsePuzzleError)
        ensures
            r.spec_kind() == PuzzleErrorKind::Empty,
    {
        ParsePuzzleError { kind: PuzzleErrorKind::Empty }
    }

    /// The error for a lattice with fewer than two row lines.
    pub fn too_small_rows() -> (r: ParsePuzzleError)
        ensures
            r.spec_kind() == PuzzleErrorKind::TooSmallRows,
    {
        ParsePuzzleError { kind: PuzzleErrorKind::TooSmallRows }
    }

    /// The error for a lattice with fewer than two columns.
    pub fn too_small_columns() -> (r: ParsePuzzleError)
        ensures
            r.spec_kind() == PuzzleErrorKind::TooSmallColumns,
    {
        ParsePuzzleError { kind: PuzzleErrorKind::TooSmallColumns }
    }

    /// The error for lines of different lengths.
    pub fn length_mismatch() -> (r: ParsePuzzleError)
        ensures
            r.spec_kind() == PuzzleErrorKind::LengthMismatch,
    {
        ParsePuzzleError { kind: PuzzleErrorKind::LengthMismatch }
    }

    /// The error for a cell that holds no hint.
    pub fn invalid_hint() -> (r: ParsePuzzleError)
        ensures
            r.spec_kind() == PuzzleErrorKind::InvalidHint,
    {
        ParsePuzzleError { kind: PuzzleErrorKind::InvalidHint }
    }

    /// The error for a puzzle too large to be held.
    pub fn too_large() -> (r: ParsePuzzleError)
        ensures
            r.spec_kind() == PuzzleErrorKind::TooLarge,
    {
        ParsePuzzleError { kind: PuzzleErrorKind::TooLarge }
    }

    /// A short description of the error.
    pub fn description(&self) -> (r: &'static str)
        ensures
            r@ == puzzle_error_description(self.spec_kind()),
    {
        match self.kind {
            PuzzleErrorKind::Empty => "cannot parse puzzle from empty string",
            PuzzleErrorKind::TooSmallRows => "the number of rows is too small to parse puzzle",
            PuzzleErrorKind::TooSmallColumns => "the number of columns is too small to parse puzzle",
            PuzzleErrorKind::LengthMismatch => "the length of lines are not same",
            PuzzleErrorKind::InvalidHint => "invalid hint found in string",
            PuzzleErrorKind::TooLarge => "the puzzle is too large",
            PuzzleErrorKind::Lattice(e) => e.description(),
        }
    }
}

impl From<ParseLatticeError> for ParsePuzzleError {
    fn from(err: ParseLatticeError) -> (r: ParsePuzzleError)
        ensures
            r.spec_kind() == PuzzleErrorKind::Lattice(err),
    {
        ParsePuzzleError { kind: PuzzleErrorKind::Lattice(err) }
    }
}

impl vstd::std_specs::convert::FromSpecImpl<ParseLatticeError> for ParsePuzzleError {
    open spec fn obeys_from_spec() -> bool {
        true
    }

    closed spec fn from_spec(v: ParseLatticeError) -> ParsePuzzleError {
        ParsePuzzleError { kind: PuzzleErrorKind::Lattice(v) }
    }
}

/// A parsed puzzle: its size, its hints, its vertical edges and its horizontal edges, each
/// in row-major order.
pub type PuzzleData = (Size, Seq<Hint>, Seq<Option<Edge>>, Seq<Option<Edge>>);

/// The lines of `t` that hold the puzzle: the lines of the text without the empty lines
/// before the first and after the last line that holds something.
pub open spec fn puzzle_lines(t: Seq<char>) -> Seq<Seq<char>> {
    drop_back_while(
        drop_front_while(lines_of(t), |l: Seq<char>| l.len() == 0),
        |l: Seq<char>| l.len() == 0,
    )
}

/// Every line, and the number of lines, fit an `i32`.
pub open spec fn lines_fit(m: Seq<Seq<char>>) -> bool {
    &&& m.len() <= i32::MAX
    &&& forall|i: int| 0 <= i < m.len() ==> #[trigger] m[i].len() <= i32::MAX
}

/// The hint written by one character: a digit up to `4`, or `_` or `-` for no hint.
pub open spec fn char_hint(c: char) -> Option<Hint> {
    if c == '0' {
        Some(Some(0u8))
    } else if c == '1' {
        Some(Some(1u8))
    } else if c == '2' {
        Some(Some(2u8))
    } else if c == '3' {
        Some(Some(3u8))
    } else if c == '4' {
        Some(Some(4u8))
    } else if c == '_' || c == '-' {
        Some(None)
    } else {
        None
    }
}

/// `t` without its leading and trailing spaces.
pub open spec fn trim_spaces(t: Seq<char>) -> Seq<char> {
    drop_back_while(drop_front_while(t, |c: char| c == ' '), |c: char| c == ' ')
}

/// The hint written in the text of a lattice cell: after trimming spaces, nothing, `_` or
/// `-` for no hint, or a digit up to `4`.
pub open spec fn text_hint(t: Seq<char>) -> Option<Hint> {
    let u = trim_spaces(t);
    if u.len() == 0 {
        Some(None)
    } else if u.len() == 1 {
        char_hint(u[0])
    } else {
        None
    }
}

/// The edge written by the text of a lattice edge: only `x` for a cross, only `line` for a
/// line, and unknown otherwise.
pub open spec fn edge_of_text(t: Seq<char>, line: char) -> Option<Edge> {
    if t.len() == 0 {
        None
    } else if forall|i: int| 0 <= i < t.len() ==> t[i] == 'x' {
        Some(Edge::Cross)
    } else if forall|i: int| 0 <= i < t.len() ==> t[i] == line {
        Some(Edge::Line)
    } else {
        None
    }
}

/// The parsed data, or `TooLarge` if its size or its hint total cannot be held.
pub open spec fn checked_data(d: PuzzleData) -> Result<PuzzleData, PuzzleErrorKind> {
    if valid_puzzle_size(d.0) && hint_sum(d.1) <= u32::MAX {
        Ok(d)
    } else {
        Err(PuzzleErrorKind::TooLarge)
    }
}

/// The hints written in the cells of a lattice, each assumed valid.
pub open spec fn cell_hints(cells: Seq<(Point, Seq<char>)>) -> Seq<Hint> {
    Seq::new(cells.len(), |k: int| text_hint(cells[k].1)->Some_0)
}

/// The edges written by the texts of lattice edges.
pub open spec fn text_edges(edges: Seq<(Point, Seq<char>)>, line: char) -> Seq<Option<Edge>> {
    Seq::new(edges.len(), |k: int| edge_of_text(edges[k].1, line))
}

/// The result of parsing the lattice layout.
pub open spec fn lattice_result(m: Seq<Seq<char>>) -> Result<PuzzleData, PuzzleErrorKind> {
    let rows = plus_rows(m);
    let cols = plus_positions(m[rows[0]]);
    if !rows_match(m, rows, cols) {
        Err(PuzzleErrorKind::Lattice(ParseLatticeError::spec_invalid_lattice_point()))
    } else if rows.len() <= 1 {
        Err(PuzzleErrorKind::TooSmallRows)
    } else if cols.len() <= 1 {
        Err(PuzzleErrorKind::TooSmallColumns)
    } else {
        let cells = cells_of(m, rows, cols);
        if exists|k: int| 0 <= k < cells.len() && #[trigger] text_hint(cells[k].1) is None {
            Err(PuzzleErrorKind::InvalidHint)
        } else {
            checked_data(
                (
                    Size((rows.len() - 1) as i32, (cols.len() - 1) as i32),
                    cell_hints(cells),
                    text_edges(v_edges_of(m, rows, cols), '|'),
                    text_edges(h_edges_of(m, rows, cols), '-'),
                ),
            )
        }
    }
}

/// The hints of the one-character-per-cell layout, in row-major order.
pub open spec fn char_hints(m: Seq<Seq<char>>, col: int) -> Seq<Hint> {
    Seq::new((m.len() * col) as nat, |k: int| char_hint(m[k / col][k % col])->Some_0)
}

/// The result of parsing the one-character-per-cell layout.
pub open spec fn char_grid_result(m: Seq<Seq<char>>) -> Result<PuzzleData, PuzzleErrorKind> {
    let row = m.len() as int;
    let col = m[0].len() as int;
    if exists|i: int| 1 <= i < row && #[trigger] m[i].len() != col {
        Err(PuzzleErrorKind::LengthMismatch)
    } else if exists|i: int, j: int| 0 <= i < row && 0 <= j < col && #[trigger] char_hint(m[i][j]) is None {
        Err(PuzzleErrorKind::InvalidHint)
    } else {
        checked_data(
            (
                Size(row as i32, col as i32),
                char_hints(m, col),
                Seq::new((row * (col + 1)) as nat, |_k: int| None::<Edge>),
                Seq::new(((row + 1) * col) as nat, |_k: int| None::<Edge>),
            ),
        )
    }
}

/// The result of parsing the text `t`.
pub open spec fn parse_result(t: Seq<char>) -> Result<PuzzleData, PuzzleErrorKind> {
    let m = puzzle_lines(t);
    if m.len() == 0 {
        Err(PuzzleErrorKind::Empty)
    } else if !lines_fit(m) {
        Err(PuzzleErrorKind::TooLarge)
    } else if m[0].contains('+') {
        lattice_result(m)
    } else {
        char_grid_result(m)
    }
}

/// `p` is the puzzle of the parsed data `d`, with no side known.
pub open spec fn shows_data(p: Puzzle, d: PuzzleData) -> bool {
    &&& p.wf()
    &&& p.spec_size() == d.0
    &&& p.hint_cells() == d.1
    &&& p.side_cells() == Seq::new(d.1.len(), |_k: int| None::<crate::puzzle::Side>)
    &&& p.edge_v_cells() == d.2
    &&& p.edge_h_cells() == d.3
    &&& p.default_outside()
}

/// The lines of a vector of character vectors.
pub open spec fn vec_lines(v: Seq<Vec<char>>) -> Seq<Seq<char>> {
    Seq::new(v.len(), |i: int| v[i]@)
}

/// The hint written by one character.
fn hint_of_char(c: char) -> (r: Option<Hint>)
    ensures
        r == char_hint(c),
{
    match c {
        '0' => Some(Some(0)),
        '1' => Some(Some(1)),
        '2' => Some(Some(2)),
        '3' => Some(Some(3)),
        '4' => Some(Some(4)),
        '_' | '-' => Some(None),
        _ => None,
    }
}

/// The hint written in the text of a lattice cell.
fn hint_of_text(t: &Vec<char>) -> (r: Option<Hint>)
    ensures
        r == text_hint(t@),
{
    let n = t.len();
    let mut lo: usize = 0;
    while lo < n && t[lo] == ' '
        invariant
            lo <= n,
            n == t@.len(),
            forall|j: int| 0 <= j < lo ==> #[trigger] t@[j] == ' ',
        decreases n - lo,
    {
        lo = lo + 1;
    }
    let mut hi: usize = n;
    while hi > lo && t[hi - 1] == ' '
        invariant
            lo <= hi <= n,
            n == t@.len(),
            forall|j: int| hi <= j < n ==> #[trigger] t@[j] == ' ',
        decreases hi,
    {
        hi = hi - 1;
    }
    proof {
        let sp = |c: char| c == ' ';
        lemma_drop_front_while(t@, sp, lo as int);
        let f = t@.subrange(lo as int, n as int);
        assert forall|j: int| hi - lo <= j < f.len() implies sp(#[trigger] f[j]) by {
            assert(f[j] == t@[lo + j]);
        }
        lemma_drop_back_while(f, sp, hi - lo);
        assert(f.subrange(0, hi - lo) =~= t@.subrange(lo as int, hi as int));
    }
    if hi == lo {
        Some(None)
    } else if hi - lo == 1 {
        hint_of_char(t[lo])
    } else {
        None
    }
}

/// `t` without its leading and trailing spaces.
pub(crate) fn trim_chars(t: &Vec<char>) -> (r: Vec<char>)
    ensures
        r@ == trim_spaces(t@),
{
    let n = t.len();
    let mut lo: usize = 0;
    while lo < n && t[lo] == ' '
        invariant
            lo <= n,
            n == t@.len(),
            forall|j: int| 0 <= j < lo ==> #[trigger] t@[j] == ' ',
        decreases n - lo,
    {
        lo = lo + 1;
    }
    let mut hi: usize = n;
    while hi > lo && t[hi - 1] == ' '
        invariant
            lo <= hi <= n,
            n == t@.len(),
            forall|j: int| hi <= j < n ==> #[trigger] t@[j] == ' ',
        decreases hi,
    {
        hi = hi - 1;
    }
    proof {
        let sp = |c: char| c == ' ';
        lemma_drop_front_while(t@, sp, lo as int);
        let f = t@.subrange(lo as int, n as int);
        assert forall|j: int| hi - lo <= j < f.len() implies sp(#[trigger] f[j]) by {
            assert(f[j] == t@[lo + j]);
        }
        lemma_drop_back_while(f, sp, hi - lo);
        assert(f.subrange(0, hi - lo) =~= t@.subrange(lo as int, hi as int));
    }
    let mut out: Vec<char> = Vec::new();
    let mut k: usize = lo;
    while k < hi
        invariant
            lo <= k <= hi,
            hi <= t@.len(),
            out@ == t@.subrange(lo as int, k as int),
        decreases hi - k,
    {
        out.push(t[k]);
        k = k + 1;
        assert(out@ =~= t@.subrange(lo as int, k as int));
    }
    out
}

/// The edge written by the text of a lattice edge.
pub(crate) fn edge_of(t: &Vec<char>, line: char) -> (r: Option<Edge>)
    ensures
        r == edge_of_text(t@, line),
{
    if t.len() == 0 {
        return None;
    }
    let mut all_cross = true;
    let mut all_line = true;
    let mut i: usize = 0;
    while i < t.len()
        invariant
            i <= t.len(),
            all_cross == (forall|j: int| 0 <= j < i ==> t@[j] == 'x'),
            all_line == (forall|j: int| 0 <= j < i ==> t@[j] == line),
        decreases t.len() - i,
    {
        if t[i] != 'x' {
            all_cross = false;
        }
        if t[i] != line {
            all_line = false;
        }
        i = i + 1;
    }
    if all_cross {
        Some(Edge::Cross)
    } else if all_line {
        Some(Edge::Line)
    } else {
        None
    }
}

/// Whether a puzzle of `r` rows and `c` columns can be held.
fn fits_puzzle_size(r: usize, c: usize) -> (b: bool)
    requires
        r <= i32::MAX,
        c <= i32::MAX,
    ensures
        b == valid_puzzle_size(Size(r as i32, c as i32)),
{
    if r == 0 || c == 0 || r >= 0x7fff_ffff || c >= 0x7fff_ffff {
        return false;
    }
    let r64 = r as u64;
    let c64 = c as u64;
    assert(r64 * (c64 + 1) < 0x8000_0000u64 * 0x8000_0000u64) by (nonlinear_arith)
        requires
            r64 < 0x7fff_ffff,
            c64 < 0x7fff_ffff,
    ;
    assert((r64 + 1) * c64 < 0x8000_0000u64 * 0x8000_0000u64) by (nonlinear_arith)
        requires
            r64 < 0x7fff_ffff,
            c64 < 0x7fff_ffff,
    ;
    assert(r64 * c64 <= r64 * (c64 + 1)) by (nonlinear_arith);
    r64 * (c64 + 1) < 0x7fff_ffff && (r64 + 1) * c64 < 0x7fff_ffff
}

/// Whether the hints sum to at most `u32::MAX`.
fn hints_fit(h: &Vec<Hint>) -> (b: bool)
    requires
        h.len() < 0x8000_0000,
    ensures
        b == (hint_sum(h@) <= u32::MAX),
{
    let mut sum: u64 = 0;
    let mut i: usize = 0;
    while i < h.len()
        invariant
            i <= h.len(),
            h.len() < 0x8000_0000,
            sum == hint_sum(h@.take(i as int)),
        decreases h.len() - i,
    {
        proof {
            lemma_hint_sum_prefix(h@, i as int + 1);
            lemma_hint_sum_bound(h@.take(i as int));
        }
        if let Some(n) = h[i] {
            sum = sum + n as u64;
        }
        i = i + 1;
    }
    proof {
        assert(h@.take(h.len() as int) =~= h@);
    }
    sum <= 0xffff_ffff
}

/// Parses the one-character-per-cell layout.
fn parse_pat2(mat: Vec<Vec<char>>) -> (r: Result<Puzzle, ParsePuzzleError>)
    requires
        mat.len() > 0,
        mat@[0]@.len() > 0,
        lines_fit(vec_lines(mat@)),
    ensures
        match char_grid_result(vec_lines(mat@)) {
            Ok(d) => r is Ok && shows_data(r->Ok_0, d),
            Err(k) => r is Err && r->Err_0.spec_kind() == k,
        },
{
    let ghost m = vec_lines(mat@);
    let row = mat.len();
    let col = mat[0].len();
    assert(m[0] == mat@[0]@);
    let mut i: usize = 1;
    while i < row
        invariant
            1 <= i <= row,
            row == mat.len(),
            m == vec_lines(mat@),
            col == m[0].len(),
            forall|k: int| 1 <= k < i ==> #[trigger] m[k].len() == col,
        decreases row - i,
    {
        if mat[i].len() != col {
            assert(m[i as int].len() != col);
            return Err(ParsePuzzleError::length_mismatch());
        }
        i = i + 1;
    }
    assert(forall|k: int| 0 <= k < row ==> #[trigger] m[k].len() == col);
    let mut hint: Vec<Hint> = Vec::new();
    let mut i: usize = 0;
    while i < row
        invariant
            i <= row,
            row == mat.len(),
            m == vec_lines(mat@),
            col == m[0].len(),
            col > 0,
            forall|k: int| 0 <= k < row ==> #[trigger] m[k].len() == col,
            hint@.len() == i * col,
            forall|k: int| 0 <= k < i * col ==> #[trigger] hint@[k] == char_hint(m[k / col as int][k % col as int])->Some_0,
            forall|a: int, b: int| 0 <= a < i && 0 <= b < col ==> #[trigger] char_hint(m[a][b]) is Some,
        decreases row - i,
    {
        let line = &mat[i];
        assert(line@ == m[i as int]);
        let mut j: usize = 0;
        while j < col
            invariant
                i < row,
                m == vec_lines(mat@),
                row == m.len(),
                col == m[0].len(),
                forall|k: int| 0 <= k < row ==> #[trigger] m[k].len() == col,
                j <= col,
                line@ == m[i as int],
                line@.len() == col,
                col > 0,
                hint@.len() == i * col + j,
                forall|k: int| 0 <= k < i * col + j ==> #[trigger] hint@[k] == char_hint(m[k / col as int][k % col as int])->Some_0,
                forall|a: int, b: int| 0 <= a < i && 0 <= b < col ==> #[trigger] char_hint(m[a][b]) is Some,
                forall|b: int| 0 <= b < j ==> #[trigger] char_hint(m[i as int][b]) is Some,
            decreases col - j,
        {
            match hint_of_char(line[j]) {
                Some(h) => {
                    proof {
                        lemma_div_mod_point(col as int, i as int, j as int);
                    }
                    hint.push(h);
                },
                None => {
                    proof {
                        let (a, b) = (i as int, j as int);
                        assert(char_hint(m[a][b]) is None);
                        assert(0 <= a < m.len() && 0 <= b < m[0].len());
                        assert(!(exists|k: int| 1 <= k < m.len() && #[trigger] m[k].len() != m[0].len()));
                    }
                    return Err(ParsePuzzleError::invalid_hint());
                },
            }
            j = j + 1;
        }
        assert((i + 1) * col == i * col + col) by (nonlinear_arith);
        i = i + 1;
    }
    let ghost hints = char_hints(m, col as int);
    assert(hint@ =~= hints);
    if !fits_puzzle_size(row, col) {
        return Err(ParsePuzzleError::too_large());
    }
    if !hints_fit(&hint) {
        return Err(ParsePuzzleError::too_large());
    }
    let size = Size(row as i32, col as i32);
    let side = none_vec(row * col);
    let edge_v = none_vec(row * (col + 1));
    let edge_h = none_vec((row + 1) * col);
    Ok(Puzzle::with_data(size, hint, side, edge_v, edge_h))
}

/// The first line holds a `+`, so it is the first lattice row.
proof fn lemma_first_plus_row(m: Seq<Seq<char>>)
    requires
        m.len() > 0,
        m[0].contains('+'),
    ensures
        plus_rows(m).len() >= 1,
        plus_rows(m)[0] == 0,
    decreases m.len(),
{
    if m.len() > 1 {
        let d = m.drop_last();
        assert(d[0] == m[0]);
        lemma_first_plus_row(d);
        let rest = plus_rows(d);
        if m.last().contains('+') {
            assert(plus_rows(m) == rest.push(m.len() - 1));
            assert(rest.push(m.len() - 1)[0] == rest[0]);
        } else {
            assert(plus_rows(m) == rest);
        }
    } else {
        assert(m.drop_last() =~= Seq::<Seq<char>>::empty());
        assert(plus_rows(m.drop_last()) =~= Seq::<int>::empty());
        assert(m.last() == m[0]);
        assert(plus_rows(m) == Seq::<int>::empty().push(0));
    }
}

/// Parses the lattice layout.
fn parse_pat1(mat: Vec<Vec<char>>) -> (r: Result<Puzzle, ParsePuzzleError>)
    requires
        mat.len() > 0,
        vec_lines(mat@)[0].contains('+'),
        lines_fit(vec_lines(mat@)),
    ensures
        match lattice_result(vec_lines(mat@)) {
            Ok(d) => r is Ok && shows_data(r->Ok_0, d),
            Err(k) => r is Err && r->Err_0.spec_kind() == k,
        },
{
    let ghost m = vec_lines(mat@);
    proof {
        lemma_first_plus_row(m);
    }
    let lines = mat.as_slice();
    assert(crate::lattice_parser::lines_view(lines) =~= m);
    assert forall|i: int| 0 <= i < lines@.len() implies (#[trigger] lines@[i]).len() <= i32::MAX by {
        assert(m[i] == lines@[i]@);
    }
    let parser = match LatticeParser::from_lines(lines) {
        Ok(p) => p,
        Err(e) => {
            return Err(ParsePuzzleError::from(e));
        },
    };
    let ghost rows = plus_rows(m);
    let ghost cols = plus_positions(m[rows[0]]);
    let num_rows = parser.num_rows();
    let num_cols = parser.num_cols();
    if num_rows <= 1 {
        return Err(ParsePuzzleError::too_small_rows());
    }
    if num_cols <= 1 {
        return Err(ParsePuzzleError::too_small_columns());
    }
    let ghost all_v = v_edges_of(m, rows, cols);
    let mut it_v = parser.v_edges();
    let mut edge_v: Vec<Option<Edge>> = Vec::new();
    loop
        invariant
            edge_v@.len() <= all_v.len(),
            it_v.remaining() == all_v.skip(edge_v@.len() as int),
            forall|k: int| 0 <= k < edge_v@.len() ==> #[trigger] edge_v@[k] == edge_of_text(all_v[k].1, '|'),
        ensures
            edge_v@ == text_edges(all_v, '|'),
        decreases it_v.remaining().len(),
    {
        let ghost k = edge_v@.len() as int;
        match it_v.next() {
            Some(item) => {
                let t = str_chars(item.1.as_str());
                let e = edge_of(&t, '|');
                assert(all_v.skip(k).drop_first() =~= all_v.skip(k + 1));
                edge_v.push(e);
            },
            None => {
                assert(edge_v@ =~= text_edges(all_v, '|'));
                break;
            },
        }
    }
    let ghost all_h = h_edges_of(m, rows, cols);
    let mut it_h = parser.h_edges();
    let mut edge_h: Vec<Option<Edge>> = Vec::new();
    loop
        invariant
            edge_h@.len() <= all_h.len(),
            it_h.remaining() == all_h.skip(edge_h@.len() as int),
            forall|k: int| 0 <= k < edge_h@.len() ==> #[trigger] edge_h@[k] == edge_of_text(all_h[k].1, '-'),
        ensures
            edge_h@ == text_edges(all_h, '-'),
        decreases it_h.remaining().len(),
    {
        let ghost k = edge_h@.len() as int;
        match it_h.next() {
            Some(item) => {
                let t = str_chars(item.1.as_str());
                let e = edge_of(&t, '-');
                assert(all_h.skip(k).drop_first() =~= all_h.skip(k + 1));
                edge_h.push(e);
            },
            None => {
                assert(edge_h@ =~= text_edges(all_h, '-'));
                break;
            },
        }
    }
    let ghost cells = cells_of(m, rows, cols);
    let mut it_c = parser.cells();
    let mut hint: Vec<Hint> = Vec::new();
    loop
        invariant
            m == vec_lines(mat@),
            rows == plus_rows(m),
            cols == plus_positions(m[rows[0]]),
            rows_match(m, rows, cols),
            rows.len() > 1,
            cols.len() > 1,
            cells == cells_of(m, rows, cols),
            hint@.len() <= cells.len(),
            it_c.remaining() == cells.skip(hint@.len() as int),
            forall|k: int| 0 <= k < hint@.len() ==> #[trigger] text_hint(cells[k].1) == Some(hint@[k]),
        ensures
            hint@ == cell_hints(cells),
            forall|k: int| 0 <= k < cells.len() ==> #[trigger] text_hint(cells[k].1) is Some,
        decreases it_c.remaining().len(),
    {
        let ghost k = hint@.len() as int;
        match it_c.next() {
            Some(item) => {
                let t = str_chars(item.1.as_str());
                match hint_of_text(&t) {
                    Some(h) => {
                        assert(cells.skip(k).drop_first() =~= cells.skip(k + 1));
                        hint.push(h);
                    },
                    None => {
                        assert(text_hint(cells[k].1) is None);
                        return Err(ParsePuzzleError::invalid_hint());
                    },
                }
            },
            None => {
                assert(hint@ =~= cell_hints(cells));
                assert forall|k: int| 0 <= k < cells.len() implies #[trigger] text_hint(cells[k].1) is Some by {
                    assert(text_hint(cells[k].1) == Some(hint@[k]));
                }
                break;
            },
        }
    }
    let r = num_rows - 1;
    let c = num_cols - 1;
    if !fits_puzzle_size(r, c) {
        return Err(ParsePuzzleError::too_large());
    }
    if !hints_fit(&hint) {
        return Err(ParsePuzzleError::too_large());
    }
    let size = Size(r as i32, c as i32);
    let side = none_vec(r * c);
    Ok(Puzzle::with_data(size, hint, side, edge_v, edge_h))
}

/// Drops the empty lines before the first line that holds something and after the last.
fn trim_blank_lines(lines: Vec<Vec<char>>) -> (m: Vec<Vec<char>>)
    ensures
        vec_lines(m@) == drop_back_while(
            drop_front_while(vec_lines(lines@), |l: Seq<char>| l.len() == 0),
            |l: Seq<char>| l.len() == 0,
        ),
        m@.len() > 0 ==> m@[0]@.len() > 0,
{
    let ghost ls = vec_lines(lines@);
    let n = lines.len();
    let mut a: usize = 0;
    while a < n && lines[a].len() == 0
        invariant
            a <= n,
            n == lines@.len(),
            ls == vec_lines(lines@),
            forall|j: int| 0 <= j < a ==> (#[trigger] ls[j]).len() == 0,
        decreases n - a,
    {
        a = a + 1;
    }
    let mut b: usize = n;
    while b > a && lines[b - 1].len() == 0
        invariant
            a <= b <= n,
            n == lines@.len(),
            ls == vec_lines(lines@),
            forall|j: int| b <= j < n ==> (#[trigger] ls[j]).len() == 0,
        decreases b,
    {
        b = b - 1;
    }
    let mut lines = lines;
    lines.truncate(b);
    let m = lines.split_off(a);
    proof {
        let blank = |l: Seq<char>| l.len() == 0;
        lemma_drop_front_while(ls, blank, a as int);
        let f = ls.subrange(a as int, n as int);
        assert forall|j: int| b - a <= j < f.len() implies blank(#[trigger] f[j]) by {
            assert(f[j] == ls[a + j]);
        }
        if b > a {
            assert(f[b - a - 1] == ls[b - 1]);
        }
        lemma_drop_back_while(f, blank, b - a);
        assert(vec_lines(m@) =~= f.subrange(0, b - a));
    }
    m
}

/// Whether every line, and the number of lines, fit an `i32`.
pub(crate) fn fits_lines(m: &Vec<Vec<char>>) -> (b: bool)
    ensures
        b == lines_fit(vec_lines(m@)),
{
    if m.len() > 0x7fff_ffff {
        return false;
    }
    let mut i: usize = 0;
    while i < m.len()
        invariant
            i <= m.len(),
            forall|j: int| 0 <= j < i ==> (#[trigger] vec_lines(m@)[j]).len() <= i32::MAX,
        decreases m.len() - i,
    {
        if m[i].len() > 0x7fff_ffff {
            assert(vec_lines(m@)[i as int].len() > i32::MAX);
            return false;
        }
        i = i + 1;
    }
    true
}

impl Puzzle {
    /// Parses a puzzle from text: the lattice layout when the first line that holds
    /// something has a `+`, and the one-character-per-cell layout otherwise.
    pub fn parse(s: &str) -> (r: Result<Puzzle, ParsePuzzleError>)
        ensures
            match parse_result(s@) {
                Ok(d) => r is Ok && shows_data(r->Ok_0, d),
                Err(k) => r is Err && r->Err_0.spec_kind() == k,
            },
    {
        let chars = str_chars(s);
        let lines = split_lines(&chars);
        assert(vec_lines(lines@) =~= lines_of(s@));
        let mat = trim_blank_lines(lines);
        if mat.len() == 0 {
            return Err(ParsePuzzleError::empty());
        }
        if !fits_lines(&mat) {
            return Err(ParsePuzzleError::too_large());
        }
        assert(vec_lines(mat@)[0] == mat@[0]@);
        if has_plus(&mat[0]) {
            parse_pat1(mat)
        } else {
            parse_pat2(mat)
        }
    }
}

impl core::str::FromStr for Puzzle {
    type Err = ParsePuzzleError;

    fn from_str(s: &str) -> (r: Result<Puzzle, ParsePuzzleError>)
        ensures
            match parse_result(s@) {
                Ok(d) => r is Ok && shows_data(r->Ok_0, d),
                Err(k) => r is Err && r->Err_0.spec_kind() == k,
            },
    {
        Puzzle::parse(s)
    }
}

/// The character of a decimal digit.
pub open spec fn digit_char(d: int) -> char {
    if d == 0 {
        '0'
    } else if d == 1 {
        '1'
    } else if d == 2 {
        '2'
    } else if d == 3 {
        '3'
    } else if d == 4 {
        '4'
    } else if d == 5 {
        '5'
    } else if d == 6 {
        '6'
    } else if d == 7 {
        '7'
    } else if d == 8 {
        '8'
    } else {
        '9'
    }
}

/// The decimal digits of `n`.
pub open spec fn decimal(n: nat) -> Seq<char>
    decreases n,
{
    if n < 10 {
        seq![digit_char(n as int)]
    } else {
        decimal(n / 10).push(digit_char((n % 10) as int))
    }
}

/// The character drawn for a horizontal edge.
pub open spec fn h_edge_char(e: Option<Edge>) -> char {
    match e {
        Some(Edge::Cross) => 'x',
        Some(Edge::Line) => '-',
        None => ' ',
    }
}

/// The character drawn for a vertical edge.
pub open spec fn v_edge_char(e: Option<Edge>) -> char {
    match e {
        Some(Edge::Cross) => 'x',
        Some(Edge::Line) => '|',
        None => ' ',
    }
}

/// The text drawn for a hint.
pub open spec fn hint_text(h: Hint) -> Seq<char> {
    match h {
        Some(n) => decimal(n as nat),
        None => seq![' '],
    }
}

/// The two layouts read a digit alike: a lattice cell whose text is the digit `d` (up to
/// `4`) between spaces holds the hint `d`, the same hint as the one-character cell `d`.
pub proof fn law_digit_cell(t: Seq<char>, d: char)
    requires
        '0' <= d <= '4',
        trim_spaces(t) == seq![d],
    ensures
        text_hint(t) == Some(Some((d as u32 - '0' as u32) as u8)),
        char_hint(d) == text_hint(t),
{
    let v = d as u32;
    assert(48 <= v <= 52);
    assert(trim_spaces(t)[0] == d);
    if v == 48 {
        assert(d == '0');
    } else if v == 49 {
        assert(d == '1');
    } else if v == 50 {
        assert(d == '2');
    } else if v == 51 {
        assert(d == '3');
    } else {
        assert(d == '4');
    }
}

/// A hint written into a lattice cell reads back as the same hint: no hint as a blank,
/// a hint `n` up to `4` as its decimal digit.
pub proof fn law_hint_round_trip(h: Hint)
    requires
        h matches Some(n) ==> n <= 4,
    ensures
        text_hint(hint_text(h)) == Some(h),
        h matches Some(n) ==> hint_text(h) == seq![((n as u32) + ('0' as u32)) as char],
{
    match h {
        Some(n) => {
            assert(decimal(n as nat) == seq![digit_char(n as int)]);
            assert(trim_spaces(hint_text(h)) == hint_text(h)) by {
                assert(hint_text(h)[0] != ' ');
                reveal_with_fuel(drop_front_while, 2);
                reveal_with_fuel(drop_back_while, 2);
            }
            if n == 0 {
                assert(digit_char(0) == '0');
            } else if n == 1 {
                assert(digit_char(1) == '1');
            } else if n == 2 {
                assert(digit_char(2) == '2');
            } else if n == 3 {
                assert(digit_char(3) == '3');
            } else {
                assert(digit_char(4) == '4');
            }
        },
        None => {
            assert(trim_spaces(seq![' ']).len() == 0) by {
                reveal_with_fuel(drop_front_while, 2);
                reveal_with_fuel(drop_back_while, 2);
            }
        },
    }
}

/// The first `c` columns of the lattice line above row `r`: a `+` and the edge above each cell.
pub open spec fn edge_row_text(p: Puzzle, r: int, c: int) -> Seq<char>
    decreases c,
{
    if c <= 0 {
        Seq::empty()
    } else {
        edge_row_text(p, r, c - 1) + seq!['+', h_edge_char(p.edge_h_at(Point(r as i32, (c - 1) as i32)))]
    }
}

/// The first `c` columns of row `r`: the edge on the left of each cell and its hint.
pub open spec fn cell_row_text(p: Puzzle, r: int, c: int) -> Seq<char>
    decreases c,
{
    if c <= 0 {
        Seq::empty()
    } else {
        cell_row_text(p, r, c - 1) + seq![v_edge_char(p.edge_v_at(Point(r as i32, (c - 1) as i32)))]
            + hint_text(p.hint_at(Point(r as i32, (c - 1) as i32)))
    }
}

/// The lattice line above row `r`, with its line feed.
pub open spec fn edge_line(p: Puzzle, r: int) -> Seq<char> {
    edge_row_text(p, r, p.spec_size().1 as int) + seq!['+', '\n']
}

/// The line of the cells of row `r`, with its line feed.
pub open spec fn cell_line(p: Puzzle, r: int) -> Seq<char> {
    cell_row_text(p, r, p.spec_size().1 as int) + seq![
        v_edge_char(p.edge_v_at(Point(r as i32, p.spec_size().1))),
        '\n',
    ]
}

/// The lines of the first `k` rows.
pub open spec fn rows_text(p: Puzzle, k: int) -> Seq<char>
    decreases k,
{
    if k <= 0 {
        Seq::empty()
    } else {
        rows_text(p, k - 1) + edge_line(p, k - 1) + cell_line(p, k - 1)
    }
}

/// The puzzle drawn as a lattice: for each row the lattice line above it and the line of
/// its cells, then the lattice line below the last row.
pub open spec fn puzzle_text(p: Puzzle) -> Seq<char> {
    rows_text(p, p.spec_size().0 as int) + edge_line(p, p.spec_size().0 as int)
}

/// The character of the digit `d`.
pub(crate) fn digit(d: u8) -> (c: char)
    requires
        d < 10,
    ensures
        c == digit_char(d as int),
{
    match d {
        0 => '0',
        1 => '1',
        2 => '2',
        3 => '3',
        4 => '4',
        5 => '5',
        6 => '6',
        7 => '7',
        8 => '8',
        _ => '9',
    }
}

/// Appends the decimal digits of `n`.
fn push_decimal(out: &mut Vec<char>, n: u8)
    ensures
        final(out)@ == old(out)@ + decimal(n as nat),
{
    proof {
        reveal_with_fuel(decimal, 3);
    }
    if n >= 100 {
        out.push(digit(n / 100));
        assert(n as nat / 10 / 10 == n as nat / 100);
    }
    if n >= 10 {
        out.push(digit((n / 10) % 10));
    }
    out.push(digit(n % 10));
    if n >= 100 {
        assert(decimal(n as nat / 10 / 10) == seq![digit_char((n / 100) as int)]);
    }
    assert(final(out)@ =~= old(out)@ + decimal(n as nat));
}

impl Puzzle {
    /// Appends the lattice line above row `r`.
    fn push_edge_line(&self, out: &mut Vec<char>, r: i32)
        requires
            self.wf(),
        ensures
            final(out)@ == old(out)@ + edge_line(*self, r as int),
    {
        let cols = self.size().1;
        let ghost start = old(out)@;
        let mut c: i32 = 0;
        while c < cols
            invariant
                self.wf(),
                cols == self.spec_size().1,
                0 <= c <= cols,
                out@ == start + edge_row_text(*self, r as int, c as int),
            decreases cols - c,
        {
            let e = self.edge_h(Point(r, c));
            out.push('+');
            out.push(
                match e {
                    Some(Edge::Cross) => 'x',
                    Some(Edge::Line) => '-',
                    None => ' ',
                },
            );
            c = c + 1;
            assert(out@ =~= start + edge_row_text(*self, r as int, c as int));
        }
        out.push('+');
        out.push('\n');
        assert(out@ =~= start + edge_line(*self, r as int));
    }

    /// Appends the line of the cells of row `r`.
    fn push_cell_line(&self, out: &mut Vec<char>, r: i32)
        requires
            self.wf(),
        ensures
            final(out)@ == old(out)@ + cell_line(*self, r as int),
    {
        let cols = self.size().1;
        let ghost start = old(out)@;
        let mut c: i32 = 0;
        while c < cols
            invariant
                self.wf(),
                cols == self.spec_size().1,
                0 <= c <= cols,
                out@ == start + cell_row_text(*self, r as int, c as int),
            decreases cols - c,
        {
            let e = self.edge_v(Point(r, c));
            out.push(
                match e {
                    Some(Edge::Cross) => 'x',
                    Some(Edge::Line) => '|',
                    None => ' ',
                },
            );
            match self.hint(Point(r, c)) {
                Some(n) => push_decimal(out, n),
                None => out.push(' '),
            }
            c = c + 1;
            assert(out@ =~= start + cell_row_text(*self, r as int, c as int));
        }
        let e = self.edge_v(Point(r, cols));
        out.push(
            match e {
                Some(Edge::Cross) => 'x',
                Some(Edge::Line) => '|',
                None => ' ',
            },
        );
        out.push('\n');
        assert(out@ =~= start + cell_line(*self, r as int));
    }

    /// The puzzle drawn as a lattice, one text line per lattice line.
    pub fn to_string(&self) -> (s: String)
        requires
            self.wf(),
        ensures
            s@ == puzzle_text(*self),
    {
        let rows = self.size().0;
        let mut out: Vec<char> = Vec::new();
        let mut r: i32 = 0;
        while r < rows
            invariant
                self.wf(),
                rows == self.spec_size().0,
                0 <= r <= rows,
                out@ == rows_text(*self, r as int),
            decreases rows - r,
        {
            self.push_edge_line(&mut out, r);
            self.push_cell_line(&mut out, r);
            r = r + 1;
        }
        self.push_edge_line(&mut out, rows);
        string_from_chars(&out)
    }
}

} // verus!
