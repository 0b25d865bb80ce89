//! Reading a theorem from text.
//!
//! Each line holds up to three lattices side by side, parted by `!`: what the theorem
//! expects, what it concludes, and optionally the hints that must not be all the
//! puzzle's hints. Digits are hints; in the cells, letters pair cells: cells of the same
//! lower-case letter are on the same side, as are cells of the same upper-case letter,
//! and the two cases of one letter are on different sides.
use vstd::prelude::*;

use crate::geom::{Point, Size};
use crate::lattice_parser::{
    find_plus_rows, lines_view, cells_of, h_edges_of, plus_positions, plus_rows, rows_match, v_edges_of, LatticeParser,
    ParseLatticeError,
};
use crate::pattern::{EdgePattern, HintPattern};
use crate::puzzle::Edge;
use crate::puzzle_text::{edge_of, edge_of_text, fits_lines, lines_fit, trim_chars, trim_spaces, vec_lines};
use crate::sorted::{sort_dedup, sorted_set_of, strictly_sorted, Ordered};
use crate::text::{lines_of, split_lines, str_chars};
use crate::theorem::{edge_in_box, in_box, pattern_hint_sum, Theorem};

verus! {

/// The kinds of errors met when parsing a theorem.
#[derive(Copy, Clone, Debug, PartialEq, Eq, Structural)]
pub enum TheoremErrorKind {
    /// A line without the `!` that parts the expected from the concluded.
    NoSeparator,
    /// A lattice with fewer than two row lines.
    TooSmallRows,
    /// A lattice with fewer than two columns.
    TooSmallColumns,
    /// The lattices have different sizes.
    SizeMismatch,
    /// Something expected is not in what is concluded.
    MatcherDisappear,
    /// A line too long, or too many lines, for the grid's integers.
    TooLarge,
    /// A lattice is malformed, or holds no lattice line.
    Lattice(ParseLatticeError),
}

/// An error returned from parsing a string into a theorem.
#[derive(Copy, Clone, Debug, PartialEq, Eq, Structural)]
pub struct ParseTheoremError {
    kind: TheoremErrorKind,
}

/// The description of each kind of error.
pub open spec fn theorem_error_description(k: TheoremErrorKind) -> Seq<char> {
    match k {
        TheoremErrorKind::NoSeparator => "cannot found separator `!` in string"@,
        TheoremErrorKind::TooSmallRows => "the number of rows is too small to parse puzzle"@,
        TheoremErrorKind::TooSmallColumns => "the number of columns is too small to parse puzzle"@,
        TheoremErrorKind::SizeMismatch => "size of the matcher does not match size of the pattern"@,
        TheoremErrorKind::MatcherDisappear => "some elements in the matcher disappear in the pattern"@,
        TheoremErrorKind::TooLarge => "the theorem is too large"@,
        TheoremErrorKind::Lattice(_) => "invalid lattice point found in string"@,
    }
}

impl ParseTheoremError {
    /// The kind of the error.
    pub closed spec fn spec_kind(self) -> TheoremErrorKind {
        self.kind
    }

    /// The kind of the error.
    pub fn kind(&self) -> (r: TheoremErrorKind)
        ensures
            r == self.spec_kind(),
    {
        self.kind
    }

    /// The error for a line without `!`.
    pub fn no_separator() -> (r: ParseTheoremError)
        ensures
            r.spec_kind() == TheoremErrorKind::NoSeparator,
    {
        ParseTheoremError { kind: TheoremErrorKind::NoSeparator }
    }

    /// The error for a lattice with fewer than two row lines.
    pub fn too_small_rows() -> (r: ParseTheoremError)
        ensures
            r.spec_kind() == TheoremErrorKind::TooSmallRows,
    {
        ParseTheoremError { kind: TheoremErrorKind::TooSmallRows }
    }

    /// The error for a lattice with fewer than two columns.
    pub fn too_small_columns() -> (r: ParseTheoremError)
        ensures
            r.spec_kind() == TheoremErrorKind::TooSmallColumns,
    {
        ParseTheoremError { kind: TheoremErrorKind::TooSmallColumns }
    }

    /// The error for lattices of different sizes.
    pub fn size_mismatch() -> (r: ParseTheoremError)
        ensures
            r.spec_kind() == TheoremErrorKind::SizeMismatch,
    {
        ParseTheoremError { kind: TheoremErrorKind::SizeMismatch }
    }

    /// The error for an expected pattern missing from the conclusion.
    pub fn matcher_disappear() -> (r: ParseTheoremError)
        ensures
            r.spec_kind() == TheoremErrorKind::MatcherDisappear,
    {
        ParseTheoremError { kind: TheoremErrorKind::MatcherDisappear }
    }

    /// The error for a theorem too large to be held.
    pub fn too_large() -> (r: ParseTheoremError)
        ensures
            r.spec_kind() == TheoremErrorKind::TooLarge,
    {
        ParseTheoremError { kind: TheoremErrorKind::TooLarge }
    }

    /// A short description of the error.
    pub fn description(&self) -> (r: &'static str)
        ensures
            r@ == theorem_error_description(self.spec_kind()),
    {
        match self.kind {
            TheoremErrorKind::NoSeparator => "cannot found separator `!` in string",
            TheoremErrorKind::TooSmallRows => "the number of rows is too small to parse puzzle",
            TheoremErrorKind::TooSmallColumns => "the number of columns is too small to parse puzzle",
            TheoremErrorKind::SizeMismatch => "size of the matcher does not match size of the pattern",
            TheoremErrorKind::MatcherDisappear => "some elements in the matcher disappear in the pattern",
            TheoremErrorKind::TooLarge => "the theorem is too large",
            TheoremErrorKind::Lattice(e) => e.description(),
        }
    }
}

impl From<ParseLatticeError> for ParseTheoremError {
    fn from(err: ParseLatticeError) -> (r: ParseTheoremError)
        ensures
            r.spec_kind() == TheoremErrorKind::Lattice(err),
    {
        ParseTheoremError { kind: TheoremErrorKind::Lattice(err) }
    }
}

impl vstd::std_specs::convert::FromSpecImpl<ParseLatticeError> for ParseTheoremError {
    open spec fn obeys_from_spec() -> bool {
        true
    }

    closed spec fn from_spec(v: ParseLatticeError) -> ParseTheoremError {
        ParseTheoremError { kind: TheoremErrorKind::Lattice(v) }
    }
}

/// Whether `c` is alphabetic, as `char::is_alphabetic` tells.
pub uninterp spec fn alphabetic(c: char) -> bool;

/// Whether `c` is lower-case, as `char::is_lowercase` tells.
pub uninterp spec fn lowercase(c: char) -> bool;

/// The first character of the lower-case mapping of `c`, as `char::to_lowercase` gives it.
pub uninterp spec fn lower_first(c: char) -> char;

/// `c` is one of the ASCII letters `a` to `z`.
pub open spec fn ascii_lower(c: char) -> bool {
    'a' <= c && c <= 'z'
}

/// `c` is one of the ASCII letters `A` to `Z`.
pub open spec fn ascii_upper(c: char) -> bool {
    'A' <= c && c <= 'Z'
}

/// `char::is_alphabetic`: whether `c` has the Unicode `Alphabetic` property. Its result
/// is given the name `alphabetic`; of the Unicode tables only the ASCII letters are
/// stated, which have the property.
#[verifier::external_body]
fn is_alphabetic(c: char) -> (r: bool)
    ensures
        r == alphabetic(c),
        ascii_lower(c) || ascii_upper(c) ==> r,
{
    c.is_alphabetic()
}

/// `char::is_lowercase`: whether `c` has the Unicode `Lowercase` property. Its result is
/// given the name `lowercase`; of the Unicode tables only the ASCII letters are stated:
/// `a` to `z` have the property, `A` to `Z` do not.
#[verifier::external_body]
fn is_lowercase(c: char) -> (r: bool)
    ensures
        r == lowercase(c),
        ascii_lower(c) ==> r,
        ascii_upper(c) ==> !r,
{
    c.is_lowercase()
}

/// `char::to_lowercase`, first character: the mapping yields one or more characters, so
/// the first is always there. Its result is given the name `lower_first`; of the Unicode
/// tables only the ASCII letters are stated: `a` to `z` map to themselves, `A` to `Z` to
/// the lower-case letter 32 code points above.
#[verifier::external_body]
fn to_lowercase_first(c: char) -> (r: char)
    ensures
        r == lower_first(c),
        ascii_lower(c) ==> r == c,
        ascii_upper(c) ==> r as u32 == c as u32 + 32,
{
    c.to_lowercase().next().unwrap()
}

/// The hint written by a digit up to `4`.
pub open spec fn digit_hint(c: char) -> Option<u8> {
    if c == '0' {
        Some(0u8)
    } else if c == '1' {
        Some(1u8)
    } else if c == '2' {
        Some(2u8)
    } else if c == '3' {
        Some(3u8)
    } else if c == '4' {
        Some(4u8)
    } else {
        None
    }
}

/// The characters written in the cells, spaces trimmed, each with its cell, in order.
pub open spec fn occurrences(cells: Seq<(Point, Seq<char>)>) -> Seq<(Point, char)>
    decreases cells.len(),
{
    if cells.len() == 0 {
        Seq::empty()
    } else {
        let last = cells.last();
        let t = trim_spaces(last.1);
        occurrences(cells.drop_last()) + Seq::new(t.len(), |i: int| (last.0, t[i]))
    }
}

/// The hint patterns of the digits among the occurrences, in order.
pub open spec fn digit_patterns(os: Seq<(Point, char)>) -> Seq<HintPattern>
    decreases os.len(),
{
    if os.len() == 0 {
        Seq::empty()
    } else {
        let rest = digit_patterns(os.drop_last());
        match digit_hint(os.last().1) {
            Some(n) => rest.push(HintPattern::spec_new(n, os.last().0)),
            None => rest,
        }
    }
}

/// A letter that pairs cells: alphabetic and not a hint digit.
pub open spec fn is_letter(c: char) -> bool {
    digit_hint(c) is None && alphabetic(c)
}

/// The index of the first occurrence at or after `from` of a letter with the key of `c`
/// (its lower-case form) and of the case `lc`; the length if there is none.
pub open spec fn first_of(os: Seq<(Point, char)>, c: char, lc: bool, from: int) -> int
    decreases os.len() - from,
{
    if from >= os.len() {
        os.len() as int
    } else if is_letter(os[from].1) && lower_first(os[from].1) == lower_first(c) && lowercase(os[from].1) == lc {
        from
    } else {
        first_of(os, c, lc, from + 1)
    }
}

/// The edges that occurrence `j` adds: a cross to the first letter of its key and case
/// when it is not that first one, and for the first lower-case letter of a key, a line to
/// the first upper-case letter of the key when there is one.
pub open spec fn letter_edges_at(os: Seq<(Point, char)>, j: int) -> Seq<EdgePattern<Point>> {
    let c = os[j].1;
    if !is_letter(c) {
        Seq::empty()
    } else {
        let f = first_of(os, c, lowercase(c), 0);
        let o = first_of(os, c, !lowercase(c), 0);
        let crosses = if f < j {
            seq![EdgePattern::spec_new(Edge::Cross, os[f].0, os[j].0)]
        } else {
            Seq::empty()
        };
        let lines = if f == j && lowercase(c) && o < os.len() {
            seq![EdgePattern::spec_new(Edge::Line, os[j].0, os[o].0)]
        } else {
            Seq::empty()
        };
        crosses + lines
    }
}

/// The edges added by the first `k` occurrences.
pub open spec fn letter_edges(os: Seq<(Point, char)>, k: int) -> Seq<EdgePattern<Point>>
    decreases k,
{
    if k <= 0 {
        Seq::empty()
    } else {
        letter_edges(os, k - 1) + letter_edges_at(os, k - 1)
    }
}

/// The vertical lattice edges written as crosses or lines, between a cell and the cell
/// on its left.
pub open spec fn v_patterns(vs: Seq<(Point, Seq<char>)>) -> Seq<EdgePattern<Point>>
    decreases vs.len(),
{
    if vs.len() == 0 {
        Seq::empty()
    } else {
        let rest = v_patterns(vs.drop_last());
        let (p, t) = vs.last();
        match edge_of_text(t, '|') {
            Some(e) => rest.push(EdgePattern::spec_new(e, Point(p.0, (p.1 - 1) as i32), p)),
            None => rest,
        }
    }
}

/// The horizontal lattice edges written as crosses or lines, between a cell and the cell
/// above it.
pub open spec fn h_patterns(hs: Seq<(Point, Seq<char>)>) -> Seq<EdgePattern<Point>>
    decreases hs.len(),
{
    if hs.len() == 0 {
        Seq::empty()
    } else {
        let rest = h_patterns(hs.drop_last());
        let (p, t) = hs.last();
        match edge_of_text(t, '-') {
            Some(e) => rest.push(EdgePattern::spec_new(e, Point((p.0 - 1) as i32, p.1), p)),
            None => rest,
        }
    }
}

/// The result of reading one lattice of a theorem: its size, its hint patterns and its
/// edge patterns, each list before sorting.
pub open spec fn lattice_patterns(m: Seq<Seq<char>>) -> Result<(Size, Seq<HintPattern>, Seq<EdgePattern<Point>>), TheoremErrorKind> {
    let rows = plus_rows(m);
    if rows.len() == 0 {
        Err(TheoremErrorKind::Lattice(ParseLatticeError::spec_invalid_lattice_point()))
    } else {
        let cols = plus_positions(m[rows[0]]);
        if !rows_match(m, rows, cols) {
            Err(TheoremErrorKind::Lattice(ParseLatticeError::spec_invalid_lattice_point()))
        } else if rows.len() <= 1 {
            Err(TheoremErrorKind::TooSmallRows)
        } else if cols.len() <= 1 {
            Err(TheoremErrorKind::TooSmallColumns)
        } else {
            let os = occurrences(cells_of(m, rows, cols));
            Ok(
                (
                    Size((rows.len() - 1) as i32, (cols.len() - 1) as i32),
                    digit_patterns(os),
                    v_patterns(v_edges_of(m, rows, cols)) + h_patterns(h_edges_of(m, rows, cols)) + letter_edges(os, os.len() as int),
                ),
            )
        }
    }
}

/// The hint of a digit up to `4`.
fn digit_of(c: char) -> (r: Option<u8>)
    ensures
        r == digit_hint(c),
{
    match c {
        '0' => Some(0),
        '1' => Some(1),
        '2' => Some(2),
        '3' => Some(3),
        '4' => Some(4),
        _ => None,
    }
}

/// Whether `c` is a letter that pairs cells.
fn letter(c: char) -> (r: bool)
    ensures
        r == is_letter(c),
{
    digit_of(c).is_none() && is_alphabetic(c)
}

/// The index of the first letter of the key of `c` and of case `lc`.
fn find_first_of(os: &Vec<(Point, char)>, c: char, lc: bool) -> (r: usize)
    ensures
        r == first_of(os@, c, lc, 0),
{
    let key = to_lowercase_first(c);
    let mut i: usize = 0;
    while i < os.len()
        invariant
            i <= os.len(),
            key == lower_first(c),
            first_of(os@, c, lc, 0) == first_of(os@, c, lc, i as int),
        decreases os.len() - i,
    {
        let d = os[i].1;
        if letter(d) && to_lowercase_first(d) == key && is_lowercase(d) == lc {
            return i;
        }
        i = i + 1;
    }
    i
}

/// Appends the edges that occurrence `j` adds.
fn push_letter_edges(os: &Vec<(Point, char)>, j: usize, out: &mut Vec<EdgePattern<Point>>)
    requires
        j < os@.len(),
    ensures
        final(out)@ == old(out)@ + letter_edges_at(os@, j as int),
{
    let c = os[j].1;
    if !letter(c) {
        assert(final(out)@ =~= old(out)@ + letter_edges_at(os@, j as int));
        return;
    }
    let lc = is_lowercase(c);
    let f = find_first_of(os, c, lc);
    let o = find_first_of(os, c, !lc);
    proof {
        lemma_first_of_bound(os@, c, lc, 0);
        lemma_first_of_bound(os@, c, !lc, 0);
        lemma_first_of_le(os@, c, lc, 0, j as int);
    }
    if f < j {
        out.push(EdgePattern::cross(os[f].0, os[j].0));
    }
    if f == j && lc && o < os.len() {
        out.push(EdgePattern::line(os[j].0, os[o].0));
    }
    assert(final(out)@ =~= old(out)@ + letter_edges_at(os@, j as int));
}

/// The first match lies between `from` and the end.
proof fn lemma_first_of_bound(os: Seq<(Point, char)>, c: char, lc: bool, from: int)
    requires
        0 <= from,
    ensures
        from <= os.len() ==> from <= first_of(os, c, lc, from) <= os.len(),
        from > os.len() ==> first_of(os, c, lc, from) == os.len(),
    decreases os.len() - from,
{
    if from < os.len() {
        lemma_first_of_bound(os, c, lc, from + 1);
    }
}

/// An occurrence that matches bounds the first match from above.
proof fn lemma_first_of_le(os: Seq<(Point, char)>, c: char, lc: bool, from: int, j: int)
    requires
        0 <= from <= j < os.len(),
        is_letter(c),
        os[j].1 == c,
        lowercase(c) == lc,
    ensures
        first_of(os, c, lc, from) <= j,
    decreases j - from,
{
    if from < j {
        lemma_first_of_le(os, c, lc, from + 1, j);
    }
}

/// Row-major index arithmetic on a grid of `a` rows and `n` columns.
proof fn lemma_grid_item(k: int, a: int, n: int)
    requires
        0 <= k < a * n,
        0 < n,
    ensures
        0 <= k / n < a,
        0 <= k % n < n,
{
    assert(0 <= k / n < a && 0 <= k % n < n) by (nonlinear_arith)
        requires
            0 <= k < a * n,
            0 < n,
    ;
}

/// The edge pattern of edge `e` between `a` and `b`.
fn edge_pattern(e: Edge, a: Point, b: Point) -> (r: EdgePattern<Point>)
    ensures
        r == EdgePattern::spec_new(e, a, b),
        r.spec_points().0 == a || r.spec_points().0 == b,
        r.spec_points().1 == a || r.spec_points().1 == b,
{
    proof {
        EdgePattern::<Point>::lemma_from_parts(e, crate::pattern::ordered_points(a, b));
    }
    match e {
        Edge::Cross => EdgePattern::cross(a, b),
        Edge::Line => EdgePattern::line(a, b),
    }
}

/// Reads one lattice of a theorem: its size, hint patterns and edge patterns, each list
/// sorted without repeats, every pattern in the box of the size.
fn parse_lines(lines: &[Vec<char>]) -> (r: Result<(Size, Vec<HintPattern>, Vec<EdgePattern<Point>>), ParseTheoremError>)
    requires
        lines_fit(lines_view(lines)),
    ensures
        match lattice_patterns(lines_view(lines)) {
            Ok((sz, hs, es)) => r matches Ok((rs, rh, re)) && rs == sz && sorted_set_of(rh@, hs) && sorted_set_of(re@, es)
                && 0 < rs.0 < i32::MAX && 0 < rs.1 < i32::MAX
                && (forall|i: int| 0 <= i < rh@.len() ==> in_box(rs, (#[trigger] rh@[i]).spec_point()))
                && (forall|i: int| 0 <= i < re@.len() ==> edge_in_box(rs, #[trigger] re@[i])),
            Err(k) => r matches Err(e) && e.spec_kind() == k,
        },
{
    let ghost m = lines_view(lines);
    let found = find_plus_rows(lines);
    if found.len() == 0 {
        return Err(ParseTheoremError::from(ParseLatticeError::invalid_lattice_point()));
    }
    assert forall|i: int| 0 <= i < lines@.len() implies (#[trigger] lines@[i]).len() <= i32::MAX by {
        assert(m[i] == lines@[i]@);
    }
    let parser = match LatticeParser::from_lines(lines) {
        Ok(p) => p,
        Err(e) => {
            return Err(ParseTheoremError::from(e));
        },
    };
    let ghost rows = plus_rows(m);
    let ghost cols = plus_positions(m[rows[0]]);
    let num_rows = parser.num_rows();
    let num_cols = parser.num_cols();
    if num_rows <= 1 {
        return Err(ParseTheoremError::too_small_rows());
    }
    if num_cols <= 1 {
        return Err(ParseTheoremError::too_small_columns());
    }
    let size = Size((num_rows - 1) as i32, (num_cols - 1) as i32);
    let mut edges: Vec<EdgePattern<Point>> = Vec::new();
    let ghost all_v = v_edges_of(m, rows, cols);
    let mut it_v = parser.v_edges();
    let ghost mut k: int = 0;
    assert(all_v.skip(0) =~= all_v);
    assert(all_v.take(0) =~= Seq::<(Point, Seq<char>)>::empty());
    loop
        invariant
            size == Size((rows.len() - 1) as i32, (cols.len() - 1) as i32),
            1 < rows.len() <= i32::MAX,
            1 < cols.len() <= i32::MAX,
            all_v == v_edges_of(m, rows, cols),
            0 <= k <= all_v.len(),
            it_v.remaining() == all_v.skip(k),
            edges@ == v_patterns(all_v.take(k)),
            forall|i: int| 0 <= i < edges@.len() ==> edge_in_box(size, #[trigger] edges@[i]),
        ensures
            edges@ == v_patterns(all_v),
            forall|i: int| 0 <= i < edges@.len() ==> edge_in_box(size, #[trigger] edges@[i]),
        decreases it_v.remaining().len(),
    {
        match it_v.next() {
            Some(item) => {
                let p = item.0;
                proof {
                    lemma_grid_item(k, rows.len() - 1, cols.len() as int);
                    assert(all_v.take(k + 1).drop_last() =~= all_v.take(k));
                    assert(all_v.skip(k).drop_first() =~= all_v.skip(k + 1));
                }
                let t = str_chars(item.1.as_str());
                match edge_of(&t, '|') {
                    Some(e) => {
                        let left = Point(p.0, p.1 - 1);
                        edges.push(edge_pattern(e, left, p));
                    },
                    None => {},
                }
                proof {
                    k = k + 1;
                }
            },
            None => {
                assert(all_v.take(k) =~= all_v);
                break;
            },
        }
    }
    let ghost n_v = edges@.len();
    let ghost all_h = h_edges_of(m, rows, cols);
    let mut it_h = parser.h_edges();
    proof {
        k = 0;
        assert(all_h.skip(0) =~= all_h);
        assert(all_h.take(0) =~= Seq::<(Point, Seq<char>)>::empty());
        assert(edges@ =~= v_patterns(all_v) + h_patterns(all_h.take(0)));
    }
    loop
        invariant
            size == Size((rows.len() - 1) as i32, (cols.len() - 1) as i32),
            1 < rows.len() <= i32::MAX,
            1 < cols.len() <= i32::MAX,
            all_h == h_edges_of(m, rows, cols),
            all_v == v_edges_of(m, rows, cols),
            0 <= k <= all_h.len(),
            it_h.remaining() == all_h.skip(k),
            edges@ == v_patterns(all_v) + h_patterns(all_h.take(k)),
            forall|i: int| 0 <= i < edges@.len() ==> edge_in_box(size, #[trigger] edges@[i]),
        ensures
            edges@ == v_patterns(all_v) + h_patterns(all_h),
            forall|i: int| 0 <= i < edges@.len() ==> edge_in_box(size, #[trigger] edges@[i]),
        decreases it_h.remaining().len(),
    {
        match it_h.next() {
            Some(item) => {
                let p = item.0;
                proof {
                    lemma_grid_item(k, rows.len() as int, cols.len() - 1);
                    assert(all_h.take(k + 1).drop_last() =~= all_h.take(k));
                    assert(all_h.skip(k).drop_first() =~= all_h.skip(k + 1));
                }
                let t = str_chars(item.1.as_str());
                match edge_of(&t, '-') {
                    Some(e) => {
                        let up = Point(p.0 - 1, p.1);
                        edges.push(edge_pattern(e, up, p));
                        assert(edges@ =~= v_patterns(all_v) + h_patterns(all_h.take(k + 1)));
                    },
                    None => {
                        assert(edges@ =~= v_patterns(all_v) + h_patterns(all_h.take(k + 1)));
                    },
                }
                proof {
                    k = k + 1;
                }
            },
            None => {
                assert(all_h.take(k) =~= all_h);
                break;
            },
        }
    }
    let ghost cells = cells_of(m, rows, cols);
    let mut occ: Vec<(Point, char)> = Vec::new();
    let mut it_c = parser.cells();
    proof {
        k = 0;
        assert(cells.skip(0) =~= cells);
        assert(cells.take(0) =~= Seq::<(Point, Seq<char>)>::empty());
    }
    loop
        invariant
            size == Size((rows.len() - 1) as i32, (cols.len() - 1) as i32),
            1 < rows.len() <= i32::MAX,
            1 < cols.len() <= i32::MAX,
            cells == cells_of(m, rows, cols),
            0 <= k <= cells.len(),
            it_c.remaining() == cells.skip(k),
            occ@ == occurrences(cells.take(k)),
            forall|i: int| 0 <= i < occ@.len() ==> 0 <= (#[trigger] occ@[i]).0.0 < size.0 && 0 <= occ@[i].0.1 < size.1,
        ensures
            occ@ == occurrences(cells),
            forall|i: int| 0 <= i < occ@.len() ==> 0 <= (#[trigger] occ@[i]).0.0 < size.0 && 0 <= occ@[i].0.1 < size.1,
        decreases it_c.remaining().len(),
    {
        match it_c.next() {
            Some(item) => {
                let p = item.0;
                proof {
                    lemma_grid_item(k, rows.len() - 1, cols.len() - 1);
                    assert(cells.take(k + 1).drop_last() =~= cells.take(k));
                    assert(cells.skip(k).drop_first() =~= cells.skip(k + 1));
                }
                let raw = str_chars(item.1.as_str());
                let t = trim_chars(&raw);
                let ghost start = occ@;
                let mut j: usize = 0;
                while j < t.len()
                    invariant
                        j <= t.len(),
                        occ@ == start + Seq::new(j as nat, |i: int| (p, t@[i])),
                        0 <= p.0 < size.0 && 0 <= p.1 < size.1,
                        forall|i: int| 0 <= i < start.len() ==> 0 <= (#[trigger] start[i]).0.0 < size.0 && 0 <= start[i].0.1 < size.1,
                    decreases t.len() - j,
                {
                    occ.push((p, t[j]));
                    j = j + 1;
                    assert(occ@ =~= start + Seq::new(j as nat, |i: int| (p, t@[i])));
                }
                assert(occ@ =~= occurrences(cells.take(k + 1)));
                proof {
                    k = k + 1;
                }
            },
            None => {
                assert(cells.take(k) =~= cells);
                break;
            },
        }
    }
    let mut hints: Vec<HintPattern> = Vec::new();
    let mut j: usize = 0;
    while j < occ.len()
        invariant
            j <= occ.len(),
            hints@ == digit_patterns(occ@.take(j as int)),
            forall|i: int| 0 <= i < occ@.len() ==> 0 <= (#[trigger] occ@[i]).0.0 < size.0 && 0 <= occ@[i].0.1 < size.1,
            forall|i: int| 0 <= i < hints@.len() ==> in_box(size, (#[trigger] hints@[i]).spec_point()),
        decreases occ.len() - j,
    {
        proof {
            assert(occ@.take(j as int + 1).drop_last() =~= occ@.take(j as int));
        }
        let (p, c) = occ[j];
        match digit_of(c) {
            Some(n) => {
                hints.push(HintPattern::new(n, p));
            },
            None => {},
        }
        j = j + 1;
    }
    assert(occ@.take(occ.len() as int) =~= occ@);
    let ghost n_vh = edges@.len();
    let mut j: usize = 0;
    while j < occ.len()
        invariant
            j <= occ.len(),
            edges@ == v_patterns(all_v) + h_patterns(all_h) + letter_edges(occ@, j as int),
            forall|i: int| 0 <= i < occ@.len() ==> 0 <= (#[trigger] occ@[i]).0.0 < size.0 && 0 <= occ@[i].0.1 < size.1,
            forall|i: int| 0 <= i < edges@.len() ==> edge_in_box(size, #[trigger] edges@[i]),
        decreases occ.len() - j,
    {
        let ghost before = edges@;
        push_letter_edges(&occ, j, &mut edges);
        proof {
            lemma_letter_edges_points(occ@, j as int);
            assert forall|i: int| 0 <= i < edges@.len() implies edge_in_box(size, #[trigger] edges@[i]) by {
                if i >= before.len() {
                    let e = letter_edges_at(occ@, j as int)[i - before.len()];
                    assert(edges@[i] == e);
                }
            }
        }
        j = j + 1;
    }
    let hint_set = sort_dedup(&hints);
    let edge_set = sort_dedup(&edges);
    proof {
        assert forall|i: int| 0 <= i < hint_set@.len() implies in_box(size, (#[trigger] hint_set@[i]).spec_point()) by {
            assert(hint_set@.contains(hint_set@[i]));
        }
        assert forall|i: int| 0 <= i < edge_set@.len() implies edge_in_box(size, #[trigger] edge_set@[i]) by {
            assert(edge_set@.contains(edge_set@[i]));
        }
    }
    Ok((size, hint_set, edge_set))
}

/// The edges that an occurrence adds join occurrences' cells.
proof fn lemma_letter_edges_points(os: Seq<(Point, char)>, j: int)
    requires
        0 <= j < os.len(),
    ensures
        forall|i: int| 0 <= i < letter_edges_at(os, j).len() ==> {
            let e = #[trigger] letter_edges_at(os, j)[i];
            &&& exists|a: int| 0 <= a < os.len() && e.spec_points().0 == os[a].0
            &&& exists|b: int| 0 <= b < os.len() && e.spec_points().1 == os[b].0
        },
{
    let c = os[j].1;
    if is_letter(c) {
        let f = first_of(os, c, lowercase(c), 0);
        let o = first_of(os, c, !lowercase(c), 0);
        lemma_first_of_bound(os, c, lowercase(c), 0);
        lemma_first_of_bound(os, c, !lowercase(c), 0);
        if f < j {
            EdgePattern::<Point>::lemma_from_parts(Edge::Cross, crate::pattern::ordered_points(os[f].0, os[j].0));
        }
        if o < os.len() {
            EdgePattern::<Point>::lemma_from_parts(Edge::Line, crate::pattern::ordered_points(os[j].0, os[o].0));
        }
    }
}

/// The lines that hold something.
pub open spec fn filled_lines(ls: Seq<Seq<char>>) -> Seq<Seq<char>>
    decreases ls.len(),
{
    if ls.len() == 0 {
        Seq::empty()
    } else {
        let rest = filled_lines(ls.drop_last());
        if ls.last().len() > 0 {
            rest.push(ls.last())
        } else {
            rest
        }
    }
}

/// The index of the first `!` of `l` at or after `from`, or the length if there is none.
pub open spec fn next_bang(l: Seq<char>, from: int) -> int
    decreases l.len() - from,
{
    if from >= l.len() {
        l.len() as int
    } else if l[from] == '!' {
        from
    } else {
        next_bang(l, from + 1)
    }
}

/// A line cut at its first two `!`: the expected part, the concluded part if there is a
/// `!`, and the closing part (everything after the second `!`) if there is a second.
pub open spec fn split_parts(l: Seq<char>) -> (Seq<char>, Option<Seq<char>>, Option<Seq<char>>) {
    let i1 = next_bang(l, 0);
    if i1 >= l.len() {
        (l, None, None)
    } else {
        let i2 = next_bang(l, i1 + 1);
        if i2 >= l.len() {
            (l.subrange(0, i1), Some(l.subrange(i1 + 1, l.len() as int)), None)
        } else {
            (l.subrange(0, i1), Some(l.subrange(i1 + 1, i2)), Some(l.subrange(i2 + 1, l.len() as int)))
        }
    }
}

/// The expected parts of the lines.
pub open spec fn matcher_lines(ls: Seq<Seq<char>>) -> Seq<Seq<char>> {
    Seq::new(ls.len(), |i: int| split_parts(ls[i]).0)
}

/// The concluded parts of the lines.
pub open spec fn result_lines(ls: Seq<Seq<char>>) -> Seq<Seq<char>> {
    Seq::new(ls.len(), |i: int| split_parts(ls[i]).1->Some_0)
}

/// The closing parts of the lines that have one.
pub open spec fn closed_lines(ls: Seq<Seq<char>>) -> Seq<Seq<char>>
    decreases ls.len(),
{
    if ls.len() == 0 {
        Seq::empty()
    } else {
        let rest = closed_lines(ls.drop_last());
        match split_parts(ls.last()).2 {
            Some(c) => rest.push(c),
            None => rest,
        }
    }
}

/// A parsed theorem: its size, expected hints, expected edges, edges of the concluded
/// lattice, and the closing hints if any, each list before sorting.
pub type TheoremData = (Size, Seq<HintPattern>, Seq<EdgePattern<Point>>, Seq<EdgePattern<Point>>, Option<Seq<HintPattern>>);

/// The closing part: none without closing lines, else its hints when its lattice reads and
/// has the size `ms`.
pub open spec fn closed_result(cl: Seq<Seq<char>>, ms: Size) -> Result<Option<Seq<HintPattern>>, TheoremErrorKind> {
    if cl.len() == 0 {
        Ok(None)
    } else {
        match lattice_patterns(cl) {
            Err(k) => Err(k),
            Ok((cs, ch, _ce)) => if cs != ms {
                Err(TheoremErrorKind::SizeMismatch)
            } else {
                Ok(Some(ch))
            },
        }
    }
}

/// The result of parsing the text `t` into a theorem.
pub open spec fn theorem_result(t: Seq<char>) -> Result<TheoremData, TheoremErrorKind> {
    let ls = filled_lines(lines_of(t));
    if !lines_fit(ls) {
        Err(TheoremErrorKind::TooLarge)
    } else if exists|i: int| 0 <= i < ls.len() && (#[trigger] split_parts(ls[i])).1 is None {
        Err(TheoremErrorKind::NoSeparator)
    } else {
        match lattice_patterns(matcher_lines(ls)) {
            Err(k) => Err(k),
            Ok((ms, mh, me)) => match lattice_patterns(result_lines(ls)) {
                Err(k) => Err(k),
                Ok((rs, rh, re)) => if ms != rs {
                    Err(TheoremErrorKind::SizeMismatch)
                } else {
                    match closed_result(closed_lines(ls), ms) {
                        Err(k) => Err(k),
                        Ok(ch) => if !(forall|h: HintPattern| #[trigger] mh.contains(h) <==> rh.contains(h)) {
                            Err(TheoremErrorKind::MatcherDisappear)
                        } else if !(forall|e: EdgePattern<Point>| #[trigger] me.contains(e) ==> re.contains(e)) {
                            Err(TheoremErrorKind::MatcherDisappear)
                        } else {
                            Ok((ms, mh, me, re, ch))
                        },
                    }
                },
            },
        }
    }
}

/// `th` is the theorem of the parsed data `d`: the expected lists sorted without
/// repeats, the conclusions the concluded lattice's edges that are not expected, and the
/// closing hints with their sum (modulo `2^32`).
pub open spec fn shows_theorem(th: Theorem, d: TheoremData) -> bool {
    &&& th.wf()
    &&& th.spec_size() == d.0
    &&& sorted_set_of(th.hints(), d.1)
    &&& sorted_set_of(th.edges(), d.2)
    &&& strictly_sorted(th.results())
    &&& forall|e: EdgePattern<Point>| #[trigger] th.results().contains(e) <==> d.3.contains(e) && !d.2.contains(e)
    &&& match d.4 {
        None => th.closed() is None,
        Some(ch) => th.closed() matches Some((n, hs)) && sorted_set_of(hs, ch) && n as int == pattern_hint_sum(hs) % 0x1_0000_0000,
    }
}

/// The lines that hold something, in order.
fn keep_filled(lines: Vec<Vec<char>>) -> (r: Vec<Vec<char>>)
    ensures
        vec_lines(r@) == filled_lines(vec_lines(lines@)),
{
    let ghost orig = vec_lines(lines@);
    let mut rest = lines;
    let mut out: Vec<Vec<char>> = Vec::new();
    let ghost mut k: int = 0;
    assert(orig.take(0) =~= Seq::<Seq<char>>::empty());
    while rest.len() > 0
        invariant
            0 <= k <= orig.len(),
            rest@.len() == orig.len() - k,
            forall|j: int| 0 <= j < rest@.len() ==> (#[trigger] rest@[j])@ == orig[k + j],
            vec_lines(out@) == filled_lines(orig.take(k)),
        decreases rest.len(),
    {
        let ghost old_rest = rest@;
        let ghost old_out = out@;
        let l = rest.remove(0);
        proof {
            assert(l@ == orig[k]);
            assert(orig.take(k + 1).drop_last() =~= orig.take(k));
            assert(orig.take(k + 1).last() == orig[k]);
            assert forall|j: int| 0 <= j < rest@.len() implies (#[trigger] rest@[j])@ == orig[k + 1 + j] by {
                assert(rest@[j] == old_rest[j + 1]);
            }
        }
        if l.len() > 0 {
            out.push(l);
            assert(vec_lines(out@) =~= vec_lines(old_out).push(orig[k]));
        }
        assert(vec_lines(out@) =~= filled_lines(orig.take(k + 1)));
        proof {
            k = k + 1;
        }
    }
    assert(orig.take(k) =~= orig);
    out
}

/// Whether the two hint lists are the same.
fn same_hints(a: &Vec<HintPattern>, b: &Vec<HintPattern>) -> (r: bool)
    ensures
        r == (a@ == b@),
{
    if a.len() != b.len() {
        return false;
    }
    let mut k: usize = 0;
    while k < a.len()
        invariant
            k <= a.len(),
            a.len() == b.len(),
            forall|j: int| 0 <= j < k ==> a@[j] == b@[j],
        decreases a.len() - k,
    {
        if !a[k].same(&b[k]) {
            return false;
        }
        k = k + 1;
    }
    assert(a@ =~= b@);
    true
}

/// Whether every edge of `m` is in `r`.
fn all_held(m: &Vec<EdgePattern<Point>>, r: &Vec<EdgePattern<Point>>) -> (b: bool)
    ensures
        b == forall|e: EdgePattern<Point>| #[trigger] m@.contains(e) ==> r@.contains(e),
{
    let mut k: usize = 0;
    while k < m.len()
        invariant
            k <= m.len(),
            forall|j: int| 0 <= j < k ==> r@.contains(#[trigger] m@[j]),
        decreases m.len() - k,
    {
        if !holds_edge(r, &m[k]) {
            assert(m@.contains(m@[k as int]));
            return false;
        }
        k = k + 1;
    }
    assert forall|e: EdgePattern<Point>| #[trigger] m@.contains(e) implies r@.contains(e) by {
        let j = choose|j: int| 0 <= j < m@.len() && m@[j] == e;
        assert(r@.contains(m@[j]));
    }
    true
}

/// The edges of `r` that are not in `m`, in order.
fn edges_without(r: &Vec<EdgePattern<Point>>, m: &Vec<EdgePattern<Point>>) -> (out: Vec<EdgePattern<Point>>)
    requires
        strictly_sorted(r@),
    ensures
        strictly_sorted(out@),
        forall|e: EdgePattern<Point>| #[trigger] out@.contains(e) <==> r@.contains(e) && !m@.contains(e),
{
    let mut result: Vec<EdgePattern<Point>> = Vec::new();
    let mut k: usize = 0;
    while k < r.len()
        invariant
            k <= r.len(),
            strictly_sorted(r@),
            strictly_sorted(result@),
            forall|j: int| 0 <= j < result@.len() ==> exists|a: int| 0 <= a < k && #[trigger] result@[j] == r@[a],
            forall|e: EdgePattern<Point>| #[trigger] result@.contains(e) <==> r@.take(k as int).contains(e) && !m@.contains(e),
        decreases r.len() - k,
    {
        let e = r[k];
        let ghost before = result@;
        let keep = !holds_edge(m, &e);
        if keep {
            result.push(e);
            proof {
                assert forall|a: int, b: int| 0 <= a < b < result@.len() implies (#[trigger] result@[a]).spec_lt(#[trigger] result@[b]) by {
                    if b == before.len() {
                        let x = choose|x: int| 0 <= x < k && before[a] == r@[x];
                        assert(r@[x].spec_lt(r@[k as int]));
                    }
                }
            }
        }
        proof {
            let tk = r@.take(k as int + 1);
            assert(tk =~= r@.take(k as int).push(e));
            assert forall|x: EdgePattern<Point>| #[trigger] result@.contains(x) <==> tk.contains(x) && !m@.contains(x) by {
                if result@.contains(x) {
                    let j = choose|j: int| 0 <= j < result@.len() && result@[j] == x;
                    if j < before.len() {
                        assert(before.contains(x));
                        assert(r@.take(k as int).contains(x));
                        let i = choose|i: int| 0 <= i < k && r@.take(k as int)[i] == x;
                        assert(tk[i] == x);
                    } else {
                        assert(tk[k as int] == x);
                    }
                }
                if tk.contains(x) && !m@.contains(x) {
                    let j = choose|j: int| 0 <= j < tk.len() && #[trigger] tk[j] == x;
                    if j < k {
                        assert(r@.take(k as int)[j] == x);
                        assert(before.contains(x));
                        let b = choose|b: int| 0 <= b < before.len() && before[b] == x;
                        assert(result@[b] == x);
                    } else {
                        assert(keep);
                        assert(result@[before.len() as int] == x);
                    }
                }
            }
            assert forall|j: int| 0 <= j < result@.len() implies exists|a: int| 0 <= a < k + 1 && #[trigger] result@[j] == r@[a] by {
                if j < before.len() {
                    let a = choose|a: int| 0 <= a < k && before[j] == r@[a];
                    assert(result@[j] == r@[a]);
                } else {
                    assert(result@[j] == r@[k as int]);
                }
            }
        }
        k = k + 1;
    }
    assert(r@.take(r.len() as int) =~= r@);
    result
}

/// The sum of the hints, modulo `2^32`.
fn hint_total(hs: &Vec<HintPattern>) -> (n: u32)
    ensures
        n as int == pattern_hint_sum(hs@) % 0x1_0000_0000,
{
    let mut sum: u32 = 0;
    let mut k: usize = 0;
    while k < hs.len()
        invariant
            k <= hs.len(),
            sum as int == pattern_hint_sum(hs@.take(k as int)) % 0x1_0000_0000,
        decreases hs.len() - k,
    {
        proof {
            assert(hs@.take(k as int + 1).drop_last() =~= hs@.take(k as int));
        }
        sum = sum.wrapping_add(hs[k].hint() as u32);
        k = k + 1;
    }
    assert(hs@.take(hs.len() as int) =~= hs@);
    sum
}

/// The index of the first `!` of `l` at or after `from`.
fn find_bang(l: &Vec<char>, from: usize) -> (r: usize)
    requires
        from <= l@.len(),
    ensures
        r == next_bang(l@, from as int),
        from <= r <= l@.len(),
{
    let mut i: usize = from;
    while i < l.len() && l[i] != '!'
        invariant
            from <= i <= l@.len(),
            next_bang(l@, from as int) == next_bang(l@, i as int),
        decreases l@.len() - i,
    {
        i = i + 1;
    }
    i
}

/// The characters of `l` from `a` to `b`.
fn sub_chars(l: &Vec<char>, a: usize, b: usize) -> (r: Vec<char>)
    requires
        a <= b <= l@.len(),
    ensures
        r@ == l@.subrange(a as int, b as int),
{
    let mut out: Vec<char> = Vec::new();
    let mut k: usize = a;
    while k < b
        invariant
            a <= k <= b,
            b <= l@.len(),
            out@ == l@.subrange(a as int, k as int),
        decreases b - k,
    {
        out.push(l[k]);
        k = k + 1;
        assert(out@ =~= l@.subrange(a as int, k as int));
    }
    out
}

/// The closing parts fit the grid's integers when the lines do.
proof fn lemma_closed_lines_fit(ls: Seq<Seq<char>>)
    requires
        lines_fit(ls),
    ensures
        lines_fit(closed_lines(ls)),
        closed_lines(ls).len() <= ls.len(),
    decreases ls.len(),
{
    if ls.len() > 0 {
        let d = ls.drop_last();
        assert forall|i: int| 0 <= i < d.len() implies #[trigger] d[i].len() <= i32::MAX by {
            assert(d[i] == ls[i]);
        }
        lemma_closed_lines_fit(d);
        let l = ls.last();
        assert(l == ls[ls.len() - 1]);
        lemma_next_bang_bound(l, 0);
        if next_bang(l, 0) < l.len() {
            lemma_next_bang_bound(l, next_bang(l, 0) + 1);
        }
    }
}

/// The next `!` lies between `from` and the end.
proof fn lemma_next_bang_bound(l: Seq<char>, from: int)
    requires
        0 <= from <= l.len(),
    ensures
        from <= next_bang(l, from) <= l.len(),
    decreases l.len() - from,
{
    if from < l.len() && l[from] != '!' {
        lemma_next_bang_bound(l, from + 1);
    }
}

/// Whether `v` holds `e`.
fn holds_edge(v: &Vec<EdgePattern<Point>>, e: &EdgePattern<Point>) -> (r: bool)
    ensures
        r == v@.contains(*e),
{
    let mut i: usize = 0;
    while i < v.len()
        invariant
            i <= v.len(),
            forall|j: int| 0 <= j < i ==> v@[j] != *e,
        decreases v.len() - i,
    {
        if v[i].same(e) {
            return true;
        }
        i = i + 1;
    }
    false
}

impl Theorem {
    /// Parses a theorem from text.
    pub fn parse(s: &str) -> (r: Result<Theorem, ParseTheoremError>)
        ensures
            match theorem_result(s@) {
                Ok(d) => r is Ok && shows_theorem(r->Ok_0, d),
                Err(k) => r is Err && r->Err_0.spec_kind() == k,
            },
    {
        let chars = str_chars(s);
        let raw = split_lines(&chars);
        assert(vec_lines(raw@) =~= lines_of(s@));
        let lines = keep_filled(raw);
        let ghost ls = vec_lines(lines@);
        if !fits_lines(&lines) {
            return Err(ParseTheoremError::too_large());
        }
        let mut m_lines: Vec<Vec<char>> = Vec::new();
        let mut r_lines: Vec<Vec<char>> = Vec::new();
        let mut c_lines: Vec<Vec<char>> = Vec::new();
        let mut i: usize = 0;
        while i < lines.len()
            invariant
                i <= lines.len(),
                ls == vec_lines(lines@),
                ls == filled_lines(lines_of(s@)),
                lines_fit(ls),
                forall|j: int| 0 <= j < i ==> (#[trigger] split_parts(ls[j])).1 is Some,
                vec_lines(m_lines@) == matcher_lines(ls.take(i as int)),
                vec_lines(r_lines@) == result_lines(ls.take(i as int)),
                vec_lines(c_lines@) == closed_lines(ls.take(i as int)),
            decreases lines.len() - i,
        {
            let l = &lines[i];
            assert(ls[i as int] == l@);
            let i1 = find_bang(l, 0);
            if i1 >= l.len() {
                assert(split_parts(ls[i as int]).1 is None);
                return Err(ParseTheoremError::no_separator());
            }
            let i2 = find_bang(l, i1 + 1);
            let first = sub_chars(l, 0, i1);
            let second = if i2 >= l.len() {
                sub_chars(l, i1 + 1, l.len())
            } else {
                sub_chars(l, i1 + 1, i2)
            };
            let ghost old_m = m_lines@;
            let ghost old_r = r_lines@;
            let ghost old_c = c_lines@;
            proof {
                lemma_next_bang_bound(l@, 0);
                lemma_next_bang_bound(l@, i1 as int + 1);
                assert(ls.take(i as int + 1).drop_last() =~= ls.take(i as int));
                assert(ls.take(i as int + 1).last() == l@);
                assert(matcher_lines(ls.take(i as int + 1)) =~= matcher_lines(ls.take(i as int)).push(split_parts(l@).0));
                assert(result_lines(ls.take(i as int + 1)) =~= result_lines(ls.take(i as int)).push(split_parts(l@).1->Some_0));
            }
            m_lines.push(first);
            r_lines.push(second);
            assert(vec_lines(m_lines@) =~= vec_lines(old_m).push(first@));
            assert(vec_lines(r_lines@) =~= vec_lines(old_r).push(second@));
            assert(vec_lines(m_lines@) =~= matcher_lines(ls.take(i as int + 1)));
            assert(vec_lines(r_lines@) =~= result_lines(ls.take(i as int + 1)));
            if i2 < l.len() {
                let third = sub_chars(l, i2 + 1, l.len());
                c_lines.push(third);
                assert(vec_lines(c_lines@) =~= vec_lines(old_c).push(third@));
            }
            assert(vec_lines(c_lines@) =~= closed_lines(ls.take(i as int + 1)));
            i = i + 1;
        }
        assert(ls.take(ls.len() as int) =~= ls);
        let m_sl = m_lines.as_slice();
        let r_sl = r_lines.as_slice();
        let c_sl = c_lines.as_slice();
        proof {
            assert forall|j: int| 0 <= j < ls.len() implies (#[trigger] matcher_lines(ls)[j]).len() <= i32::MAX by {
                lemma_next_bang_bound(ls[j], 0);
            }
            assert forall|j: int| 0 <= j < ls.len() implies (#[trigger] result_lines(ls)[j]).len() <= i32::MAX by {
                assert(split_parts(ls[j]).1 is Some);
                lemma_next_bang_bound(ls[j], 0);
                lemma_next_bang_bound(ls[j], next_bang(ls[j], 0) + 1);
            }
            lemma_closed_lines_fit(ls);
            assert(crate::lattice_parser::lines_view(m_sl) =~= matcher_lines(ls));
            assert(crate::lattice_parser::lines_view(r_sl) =~= result_lines(ls));
            assert(crate::lattice_parser::lines_view(c_sl) =~= closed_lines(ls));
        }
        let (m_size, m_hint, m_edge) = match parse_lines(m_sl) {
            Ok(x) => x,
            Err(e) => {
                return Err(e);
            },
        };
        let (r_size, r_hint, r_edge) = match parse_lines(r_sl) {
            Ok(x) => x,
            Err(e) => {
                return Err(e);
            },
        };
        if m_size != r_size {
            return Err(ParseTheoremError::size_mismatch());
        }
        let c_hint = if c_lines.len() == 0 {
            None
        } else {
            let (c_size, c_hint, _c_edge) = match parse_lines(c_sl) {
                Ok(x) => x,
                Err(e) => {
                    return Err(e);
                },
            };
            if m_size != c_size {
                return Err(ParseTheoremError::size_mismatch());
            }
            Some(c_hint)
        };
        if !same_hints(&m_hint, &r_hint) {
            proof {
                let mh = lattice_patterns(matcher_lines(ls))->Ok_0.1;
                let rh = lattice_patterns(result_lines(ls))->Ok_0.1;
                if forall|h: HintPattern| #[trigger] mh.contains(h) <==> rh.contains(h) {
                    crate::sorted::lemma_sorted_unique(m_hint@, r_hint@);
                }
            }
            return Err(ParseTheoremError::matcher_disappear());
        }
        if !all_held(&m_edge, &r_edge) {
            return Err(ParseTheoremError::matcher_disappear());
        }
        let result = edges_without(&r_edge, &m_edge);
        let closed = match c_hint {
            Some(hs) => {
                let n = hint_total(&hs);
                Some((n, hs))
            },
            None => None,
        };
        let th = Theorem::assemble(m_size, m_hint, m_edge, result, closed);
        proof {
            assert forall|i: int| 0 <= i < th.results().len() implies crate::theorem::edge_in_box(th.spec_size(), #[trigger] th.results()[i]) by {
                assert(th.results().contains(th.results()[i]));
                assert(r_edge@.contains(th.results()[i]));
            }
            let mh = lattice_patterns(matcher_lines(ls))->Ok_0.1;
            let rh = lattice_patterns(result_lines(ls))->Ok_0.1;
            let me = lattice_patterns(matcher_lines(ls))->Ok_0.2;
            let re = lattice_patterns(result_lines(ls))->Ok_0.2;
            assert forall|h: HintPattern| #[trigger] mh.contains(h) <==> rh.contains(h) by {
                assert(m_hint@.contains(h) <==> mh.contains(h));
                assert(r_hint@.contains(h) <==> rh.contains(h));
            }
            assert forall|e: EdgePattern<Point>| #[trigger] me.contains(e) implies re.contains(e) by {
                assert(m_edge@.contains(e));
                assert(r_edge@.contains(e));
            }
            let d = theorem_result(s@)->Ok_0;
            assert(theorem_result(s@) is Ok);
            assert(th.spec_size() == d.0);
            assert(sorted_set_of(th.hints(), d.1));
            assert(sorted_set_of(th.edges(), d.2));
            assert(forall|e: EdgePattern<Point>| #[trigger] th.results().contains(e) <==> d.3.contains(e) && !d.2.contains(e));
            assert(th.wf());
        }
        Ok(th)
    }
}

impl core::str::FromStr for Theorem {
    type Err = ParseTheoremError;

    fn from_str(s: &str) -> (r: Result<Theorem, ParseTheoremError>)
        ensures
            match theorem_result(s@) {
                Ok(d) => r is Ok && shows_theorem(r->Ok_0, d),
                Err(k) => r is Err && r->Err_0.spec_kind() == k,
            },
    {
        Theorem::parse(s)
    }
}

} // verus!
