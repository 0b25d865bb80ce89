//! Parsing a lattice drawn with `+` characters: the lines holding a `+` are the lattice
//! rows, the `+` of the first of them give the lattice columns, and the text between them
//! gives the edges and the cells.
use vstd::prelude::*;

use crate::geom::Point;
use crate::text::string_from_chars;

verus! {

/// The lines as sequences of characters.
pub open spec fn lines_view(lines: &[Vec<char>]) -> Seq<Seq<char>> {
    Seq::new(lines@.len(), |i: int| lines@[i]@)
}

/// The positions of `+` in `line`, in increasing order.
pub open spec fn plus_positions(line: Seq<char>) -> Seq<int>
    decreases line.len(),
{
    if line.len() == 0 {
        Seq::empty()
    } else {
        let rest = plus_positions(line.drop_last());
        if line.last() == '+' {
            rest.push(line.len() - 1)
        } else {
            rest
        }
    }
}

/// The indices of the lines that hold a `+`, in increasing order.
pub open spec fn plus_rows(lines: Seq<Seq<char>>) -> Seq<int>
    decreases lines.len(),
{
    if lines.len() == 0 {
        Seq::empty()
    } else {
        let rest = plus_rows(lines.drop_last());
        if lines.last().contains('+') {
            rest.push(lines.len() - 1)
        } else {
            rest
        }
    }
}

/// `s` is strictly increasing and every element is in `0 .. bound`.
pub open spec fn increasing_below(s: Seq<int>, bound: int) -> bool {
    &&& forall|i: int, j: int| 0 <= i < j < s.len() ==> s[i] < s[j]
    &&& forall|i: int| 0 <= i < s.len() ==> 0 <= #[trigger] s[i] < bound
}

/// The `usize` values of `v` are the integers of `s`.
pub open spec fn same_ints(v: Seq<usize>, s: Seq<int>) -> bool {
    v.len() == s.len() && forall|i: int| 0 <= i < s.len() ==> #[trigger] v[i] as int == s[i]
}

/// `pre` is a prefix of `s`.
pub open spec fn is_prefix(pre: Seq<int>, s: Seq<int>) -> bool {
    pre.len() <= s.len() && forall|i: int| 0 <= i < pre.len() ==> #[trigger] pre[i] == s[i]
}

/// The rows and columns form a lattice of `lines`: both increase, the rows are lines and
/// every row line reaches the last column.
pub open spec fn lattice_ok(lines: Seq<Seq<char>>, rows: Seq<int>, cols: Seq<int>) -> bool {
    &&& grid_lines_ok(lines, rows, cols)
    &&& forall|r: int| 0 <= r < rows.len() ==> cols.len() == 0 || cols.last() < lines[#[trigger] rows[r]].len()
}

/// The row lines are increasing line numbers of `lines` and the columns are increasing;
/// the lines may be shorter than the last column.
pub open spec fn grid_lines_ok(lines: Seq<Seq<char>>, rows: Seq<int>, cols: Seq<int>) -> bool {
    &&& increasing_below(rows, lines.len() as int)
    &&& forall|i: int, j: int| 0 <= i < j < cols.len() ==> cols[i] < cols[j]
    &&& forall|i: int| 0 <= i < cols.len() ==> 0 <= #[trigger] cols[i]
}

/// The character of `line` at `j`, or a space beyond its end.
pub open spec fn pad_char(line: Seq<char>, j: int) -> char {
    if 0 <= j < line.len() {
        line[j]
    } else {
        ' '
    }
}

/// The text of the vertical edge in column `c` between the row lines `rs` and `re`.
pub open spec fn v_edge_text(lines: Seq<Seq<char>>, rs: int, re: int, c: int) -> Seq<char> {
    Seq::new((re - rs - 1) as nat, |k: int| pad_char(lines[rs + 1 + k], c))
}

/// The text of the horizontal edge on row line `r` between the columns `cs` and `ce`.
pub open spec fn h_edge_text(lines: Seq<Seq<char>>, r: int, cs: int, ce: int) -> Seq<char> {
    lines[r].subrange(cs + 1, ce)
}

/// The text of the cell between the row lines `rs`, `re` and the columns `cs`, `ce`: its
/// lines one after the other, padded with spaces.
pub open spec fn cell_text(lines: Seq<Seq<char>>, rs: int, re: int, cs: int, ce: int) -> Seq<char> {
    let w = ce - cs - 1;
    Seq::new(((re - rs - 1) * w) as nat, |i: int| pad_char(lines[rs + 1 + i / w], cs + 1 + i % w))
}

/// The vertical edges in row-major order: `(rows - 1) x columns` of them.
pub open spec fn v_edges_of(lines: Seq<Seq<char>>, rows: Seq<int>, cols: Seq<int>) -> Seq<(Point, Seq<char>)> {
    let n = cols.len() as int;
    Seq::new(
        ((rows.len() - 1) * n) as nat,
        |k: int| (Point((k / n) as i32, (k % n) as i32), v_edge_text(lines, rows[k / n], rows[k / n + 1], cols[k % n])),
    )
}

/// The horizontal edges in row-major order: `rows x (columns - 1)` of them.
pub open spec fn h_edges_of(lines: Seq<Seq<char>>, rows: Seq<int>, cols: Seq<int>) -> Seq<(Point, Seq<char>)> {
    let n = cols.len() - 1;
    Seq::new(
        (rows.len() * n) as nat,
        |k: int| (Point((k / n) as i32, (k % n) as i32), h_edge_text(lines, rows[k / n], cols[k % n], cols[k % n + 1])),
    )
}

/// The cells in row-major order: `(rows - 1) x (columns - 1)` of them.
pub open spec fn cells_of(lines: Seq<Seq<char>>, rows: Seq<int>, cols: Seq<int>) -> Seq<(Point, Seq<char>)> {
    let n = cols.len() - 1;
    Seq::new(
        ((rows.len() - 1) * n) as nat,
        |k: int| (Point((k / n) as i32, (k % n) as i32), cell_text(lines, rows[k / n], rows[k / n + 1], cols[k % n], cols[k % n + 1])),
    )
}

/// The integers of a sequence of `usize`.
pub open spec fn ints(v: Seq<usize>) -> Seq<int> {
    v.map(|_i: int, x: usize| x as int)
}

/// An item of the lattice iterators as mathematical values.
pub open spec fn item_view(x: (Point, String)) -> (Point, Seq<char>) {
    (x.0, x.1@)
}

/// An error returned from parsing lines into a lattice.
#[derive(Copy, Clone, Debug, PartialEq, Eq, Structural)]
pub struct ParseLatticeError {
    kind: LatticeErrorKind,
}

/// The kinds of lattice errors.
#[derive(Copy, Clone, Debug, PartialEq, Eq, Structural)]
pub enum LatticeErrorKind {
    /// A row line does not have `+` at the lattice columns.
    InvalidLatticePoint,
}

impl ParseLatticeError {
    /// The error for a row line without `+` at the lattice columns.
    pub fn invalid_lattice_point() -> (r: ParseLatticeError)
        ensures
            r.spec_kind() == LatticeErrorKind::InvalidLatticePoint,
            r == ParseLatticeError::spec_invalid_lattice_point(),
    {
        ParseLatticeError { kind: LatticeErrorKind::InvalidLatticePoint }
    }

    /// The error for a row line without `+` at the lattice columns.
    pub closed spec fn spec_invalid_lattice_point() -> ParseLatticeError {
        ParseLatticeError { kind: LatticeErrorKind::InvalidLatticePoint }
    }

    /// The kind of the error.
    pub closed spec fn spec_kind(self) -> LatticeErrorKind {
        self.kind
    }

    /// The kind of the error.
    pub fn kind(&self) -> (r: LatticeErrorKind)
        ensures
            r == self.spec_kind(),
    {
        self.kind
    }

    /// A short description of the error.
    pub fn description(&self) -> (r: &'static str)
        ensures
            r@ == "invalid lattice point found in string"@,
    {
        match self.kind {
            LatticeErrorKind::InvalidLatticePoint => "invalid lattice point found in string",
        }
    }
}

/// The positions of `+` in `line`.
pub fn find_plus(line: &Vec<char>) -> (r: Vec<usize>)
    ensures
        same_ints(r@, plus_positions(line@)),
        increasing_below(plus_positions(line@), line@.len() as int),
{
    let mut r: Vec<usize> = Vec::new();
    let mut i: usize = 0;
    proof {
        assert(line@.take(0) =~= Seq::<char>::empty());
    }
    while i < line.len()
        invariant
            i <= line.len(),
            same_ints(r@, plus_positions(line@.take(i as int))),
            increasing_below(plus_positions(line@.take(i as int)), i as int),
        decreases line.len() - i,
    {
        proof {
            assert(line@.take(i as int + 1).drop_last() =~= line@.take(i as int));
        }
        if line[i] == '+' {
            r.push(i);
        }
        i = i + 1;
    }
    proof {
        assert(line@.take(line@.len() as int) =~= line@);
    }
    r
}

/// Whether `line` holds a `+`.
pub fn has_plus(line: &Vec<char>) -> (r: bool)
    ensures
        r == line@.contains('+'),
{
    let mut i: usize = 0;
    while i < line.len()
        invariant
            i <= line.len(),
            forall|j: int| 0 <= j < i ==> line@[j] != '+',
        decreases line.len() - i,
    {
        if line[i] == '+' {
            return true;
        }
        i = i + 1;
    }
    false
}

/// The indices of the lines that hold a `+`.
pub fn find_plus_rows(lines: &[Vec<char>]) -> (r: Vec<usize>)
    ensures
        same_ints(r@, plus_rows(lines_view(lines))),
        increasing_below(plus_rows(lines_view(lines)), lines@.len() as int),
{
    let ghost lv = lines_view(lines);
    let mut r: Vec<usize> = Vec::new();
    let mut i: usize = 0;
    proof {
        assert(lv.take(0) =~= Seq::<Seq<char>>::empty());
    }
    while i < lines.len()
        invariant
            i <= lines@.len(),
            lv == lines_view(lines),
            same_ints(r@, plus_rows(lv.take(i as int))),
            increasing_below(plus_rows(lv.take(i as int)), i as int),
        decreases lines.len() - i,
    {
        proof {
            assert(lv.take(i as int + 1).drop_last() =~= lv.take(i as int));
            assert(lv.take(i as int + 1).last() == lines@[i as int]@);
        }
        if has_plus(&lines[i]) {
            r.push(i);
        }
        i = i + 1;
    }
    proof {
        assert(lv.take(lines@.len() as int) =~= lv);
    }
    r
}

/// A parser of lines into a lattice.
#[derive(Clone, Debug)]
pub struct LatticeParser<'a> {
    mat: &'a [Vec<char>],
    rows: Vec<usize>,
    cols: Vec<usize>,
}

/// The columns of the first row match the `+` of every other row: the lattice is valid.
pub open spec fn rows_match(lines: Seq<Seq<char>>, rows: Seq<int>, cols: Seq<int>) -> bool {
    forall|r: int| 1 <= r < rows.len() ==> is_prefix(cols, plus_positions(lines[#[trigger] rows[r]]))
}

impl<'a> LatticeParser<'a> {
    /// The lines parsed.
    pub closed spec fn lines(&self) -> Seq<Seq<char>> {
        lines_view(self.mat)
    }

    /// The indices of the lattice row lines.
    pub closed spec fn spec_rows(&self) -> Seq<int> {
        ints(self.rows@)
    }

    /// The positions of the lattice columns.
    pub closed spec fn spec_cols(&self) -> Seq<int> {
        ints(self.cols@)
    }

    /// The parser's rows and columns are those found in its lines.
    pub closed spec fn wf(&self) -> bool {
        &&& lattice_ok(self.lines(), self.spec_rows(), self.spec_cols())
        &&& 1 <= self.spec_rows().len() <= i32::MAX
        &&& 1 <= self.spec_cols().len() <= i32::MAX
    }

    /// Creates a lattice parser from lines: the lines holding a `+` are the rows and the
    /// `+` of the first of them are the columns. Fails when another row line does not have
    /// `+` at all these columns.
    pub fn from_lines(lines: &'a [Vec<char>]) -> (r: Result<LatticeParser<'a>, ParseLatticeError>)
        requires
            plus_rows(lines_view(lines)).len() >= 1,
            lines@.len() <= i32::MAX,
            forall|i: int| 0 <= i < lines@.len() ==> (#[trigger] lines@[i]).len() <= i32::MAX,
        ensures
            r is Ok <==> rows_match(
                lines_view(lines),
                plus_rows(lines_view(lines)),
                plus_positions(lines_view(lines)[plus_rows(lines_view(lines))[0]]),
            ),
            r matches Ok(p) ==> {
                &&& p.wf()
                &&& p.lines() == lines_view(lines)
                &&& p.spec_rows() == plus_rows(lines_view(lines))
                &&& p.spec_cols() == plus_positions(lines_view(lines)[plus_rows(lines_view(lines))[0]])
            },
            r matches Err(e) ==> e == ParseLatticeError::spec_invalid_lattice_point(),
    {
        let ghost lv = lines_view(lines);
        let rows = find_plus_rows(lines);
        let cols = find_plus(&lines[rows[0]]);
        let ghost prow = plus_rows(lv);
        let ghost pcol = plus_positions(lv[prow[0]]);
        proof {
            assert(lv[prow[0]] == lines@[rows@[0] as int]@);
        }
        let mut k: usize = 1;
        while k < rows.len()
            invariant
                1 <= k <= rows@.len(),
                lv == lines_view(lines),
                prow == plus_rows(lv),
                pcol == plus_positions(lv[prow[0]]),
                same_ints(rows@, prow),
                same_ints(cols@, pcol),
                increasing_below(prow, lines@.len() as int),
                forall|r: int| 1 <= r < k ==> is_prefix(pcol, plus_positions(lv[#[trigger] prow[r]])),
            decreases rows.len() - k,
        {
            let r = rows[k];
            let cur = find_plus(&lines[r]);
            proof {
                assert(lv[prow[k as int]] == lines@[r as int]@);
            }
            let mut count: usize = 0;
            let mut ok = true;
            let n = if cur.len() < cols.len() { cur.len() } else { cols.len() };
            let mut j: usize = 0;
            while j < n
                invariant
                    j <= n,
                    n <= cur.len(),
                    n <= cols.len(),
                    ok == (forall|t: int| 0 <= t < j ==> cur@[t] == cols@[t]),
                decreases n - j,
            {
                if cur[j] != cols[j] {
                    ok = false;
                }
                j = j + 1;
            }
            if !ok || cur.len() < cols.len() {
                proof {
                    let pc = plus_positions(lv[prow[k as int]]);
                    if is_prefix(pcol, pc) {
                        assert(cur.len() >= cols.len());
                        assert forall|t: int| 0 <= t < n implies cur@[t] == cols@[t] by {
                            assert(pcol[t] == pc[t]);
                        }
                    }
                    assert(!rows_match(lv, prow, pcol));
                }
                return Err(ParseLatticeError::invalid_lattice_point());
            }
            proof {
                let pc = plus_positions(lv[prow[k as int]]);
                assert forall|t: int| 0 <= t < pcol.len() implies #[trigger] pcol[t] == pc[t] by {
                    assert(cur@[t] == cols@[t]);
                }
            }
            k = k + 1;
        }
        let p = LatticeParser { mat: lines, rows: rows, cols: cols };
        proof {
            assert(p.spec_rows() =~= prow);
            assert(p.spec_cols() =~= pcol);
            assert(p.lines() == lv);
            lemma_rows_have_plus(lv, 0);
            assert(lv[prow[0]].contains('+'));
            lemma_plus_nonempty(lv[prow[0]]);
            assert forall|r: int| 0 <= r < prow.len() implies pcol.len() == 0 || pcol.last() < lv[#[trigger] prow[r]].len() by {
                let pc = plus_positions(lv[prow[r]]);
                if r == 0 {
                } else {
                    assert(is_prefix(pcol, pc));
                    assert(pcol.last() == pc[pcol.len() - 1]);
                }
                find_plus_bound(lv[prow[r]]);
            }
            find_plus_bound(lv[prow[0]]);
            assert(lv[prow[0]].len() <= i32::MAX);
            if pcol.len() > i32::MAX {
                assert(pcol[pcol.len() - 1] >= pcol.len() - 1) by {
                    lemma_increasing_ge_index(pcol, lv[prow[0]].len() as int);
                }
            }
            if prow.len() > i32::MAX {
                assert(prow[prow.len() - 1] >= prow.len() - 1) by {
                    lemma_increasing_ge_index(prow, lines@.len() as int);
                }
            }
            assert(increasing_below(prow, lv.len() as int));
            assert(lattice_ok(lv, prow, pcol));
            assert(p.wf());
        }
        Ok(p)
    }

    /// The number of lattice rows.
    pub fn num_rows(&self) -> (r: usize)
        ensures
            r == self.spec_rows().len(),
            self.wf() ==> 1 <= r <= i32::MAX,
    {
        self.rows.len()
    }

    /// The number of lattice columns.
    pub fn num_cols(&self) -> (r: usize)
        ensures
            r == self.spec_cols().len(),
            self.wf() ==> 1 <= r <= i32::MAX,
    {
        self.cols.len()
    }

    /// The vertical edges of the lattice.
    pub fn v_edges(&self) -> (r: VEdges)
        requires
            self.wf(),
        ensures
            r.remaining() == v_edges_of(self.lines(), self.spec_rows(), self.spec_cols()),
    {
        VEdges::new(self.mat, &self.rows, &self.cols)
    }

    /// The horizontal edges of the lattice.
    pub fn h_edges(&self) -> (r: HEdges)
        requires
            self.wf(),
        ensures
            r.remaining() == h_edges_of(self.lines(), self.spec_rows(), self.spec_cols()),
    {
        HEdges::new(self.mat, &self.rows, &self.cols)
    }

    /// The cells of the lattice.
    pub fn cells(&self) -> (r: Cells)
        requires
            self.wf(),
        ensures
            r.remaining() == cells_of(self.lines(), self.spec_rows(), self.spec_cols()),
    {
        Cells::new(self.mat, &self.rows, &self.cols)
    }
}

/// A strictly increasing sequence of non-negative integers has `s[i] >= i`.
proof fn lemma_increasing_ge_index(s: Seq<int>, bound: int)
    requires
        increasing_below(s, bound),
    ensures
        forall|i: int| 0 <= i < s.len() ==> #[trigger] s[i] >= i,
    decreases s.len(),
{
    if s.len() > 0 {
        lemma_increasing_ge_index(s.drop_last(), bound);
        assert forall|i: int| 0 <= i < s.len() implies #[trigger] s[i] >= i by {
            if i < s.len() - 1 {
                assert(s.drop_last()[i] == s[i]);
            } else if i > 0 {
                assert(s.drop_last()[i - 1] == s[i - 1]);
                assert(s[i - 1] < s[i]);
            }
        }
    }
}

/// Every lattice row line holds a `+`.
proof fn lemma_rows_have_plus(lines: Seq<Seq<char>>, k: int)
    ensures
        forall|r: int| 0 <= r < plus_rows(lines).len() ==> #[trigger] lines[plus_rows(lines)[r]].contains('+'),
    decreases lines.len(),
{
    if lines.len() > 0 {
        lemma_rows_have_plus(lines.drop_last(), k);
        let rest = plus_rows(lines.drop_last());
        assert forall|r: int| 0 <= r < plus_rows(lines).len() implies #[trigger] lines[plus_rows(lines)[r]].contains('+') by {
            if r < rest.len() {
                lemma_plus_rows_bound(lines.drop_last());
                assert(lines.drop_last()[rest[r]] == lines[rest[r]]);
            }
        }
    }
}

/// The indices of the lattice rows are indices of lines.
proof fn lemma_plus_rows_bound(lines: Seq<Seq<char>>)
    ensures
        forall|r: int| 0 <= r < plus_rows(lines).len() ==> 0 <= #[trigger] plus_rows(lines)[r] < lines.len(),
    decreases lines.len(),
{
    if lines.len() > 0 {
        lemma_plus_rows_bound(lines.drop_last());
        let rest = plus_rows(lines.drop_last());
        assert forall|r: int| 0 <= r < plus_rows(lines).len() implies 0 <= #[trigger] plus_rows(lines)[r] < lines.len() by {
            if r < rest.len() {
                assert(plus_rows(lines)[r] == rest[r]);
            }
        }
    }
}

/// A line holding a `+` has at least one `+` position.
proof fn lemma_plus_nonempty(line: Seq<char>)
    requires
        line.contains('+'),
    ensures
        plus_positions(line).len() >= 1,
    decreases line.len(),
{
    if line.last() != '+' {
        let j = choose|j: int| 0 <= j < line.len() && line[j] == '+';
        assert(line.drop_last()[j] == '+');
        lemma_plus_nonempty(line.drop_last());
    }
}

/// The `+` positions of a line are inside it and increasing.
proof fn find_plus_bound(line: Seq<char>)
    ensures
        increasing_below(plus_positions(line), line.len() as int),
    decreases line.len(),
{
    if line.len() > 0 {
        find_plus_bound(line.drop_last());
    }
}

/// The lattice iterators' items in row-major order, with a position.
#[derive(Clone, Debug)]
pub struct VEdges {
    items: Vec<(Point, String)>,
    pos: usize,
}

/// The horizontal edges of a lattice.
#[derive(Clone, Debug)]
pub struct HEdges {
    items: Vec<(Point, String)>,
    pos: usize,
}

/// The cells of a lattice.
#[derive(Clone, Debug)]
pub struct Cells {
    items: Vec<(Point, String)>,
    pos: usize,
}


impl VEdges {
    /// The items that are still to come.
    pub closed spec fn remaining(&self) -> Seq<(Point, Seq<char>)> {
        if self.pos <= self.items.len() {
            self.items@.skip(self.pos as int).map_values(|x: (Point, String)| item_view(x))
        } else {
            Seq::empty()
        }
    }

    /// Yields the next item.
    pub fn next(&mut self) -> (r: Option<(Point, String)>)
        ensures
            old(self).remaining().len() == 0 ==> r is None && final(self).remaining().len() == 0,
            old(self).remaining().len() > 0 ==> r is Some && item_view(r->Some_0) == old(self).remaining()[0]
                && final(self).remaining() == old(self).remaining().drop_first(),
    {
        if self.pos < self.items.len() {
            let item = &self.items[self.pos];
            let x = (item.0, item.1.clone());
            self.pos = self.pos + 1;
            proof {
                assert(self.remaining() =~= old(self).remaining().drop_first());
            }
            Some(x)
        } else {
            None
        }
    }
}

impl HEdges {
    /// The items that are still to come.
    pub closed spec fn remaining(&self) -> Seq<(Point, Seq<char>)> {
        if self.pos <= self.items.len() {
            self.items@.skip(self.pos as int).map_values(|x: (Point, String)| item_view(x))
        } else {
            Seq::empty()
        }
    }

    /// Yields the next item.
    pub fn next(&mut self) -> (r: Option<(Point, String)>)
        ensures
            old(self).remaining().len() == 0 ==> r is None && final(self).remaining().len() == 0,
            old(self).remaining().len() > 0 ==> r is Some && item_view(r->Some_0) == old(self).remaining()[0]
                && final(self).remaining() == old(self).remaining().drop_first(),
    {
        if self.pos < self.items.len() {
            let item = &self.items[self.pos];
            let x = (item.0, item.1.clone());
            self.pos = self.pos + 1;
            proof {
                assert(self.remaining() =~= old(self).remaining().drop_first());
            }
            Some(x)
        } else {
            None
        }
    }
}

impl Cells {
    /// The items that are still to come.
    pub closed spec fn remaining(&self) -> Seq<(Point, Seq<char>)> {
        if self.pos <= self.items.len() {
            self.items@.skip(self.pos as int).map_values(|x: (Point, String)| item_view(x))
        } else {
            Seq::empty()
        }
    }

    /// Yields the next item.
    pub fn next(&mut self) -> (r: Option<(Point, String)>)
        ensures
            old(self).remaining().len() == 0 ==> r is None && final(self).remaining().len() == 0,
            old(self).remaining().len() > 0 ==> r is Some && item_view(r->Some_0) == old(self).remaining()[0]
                && final(self).remaining() == old(self).remaining().drop_first(),
    {
        if self.pos < self.items.len() {
            let item = &self.items[self.pos];
            let x = (item.0, item.1.clone());
            self.pos = self.pos + 1;
            proof {
                assert(self.remaining() =~= old(self).remaining().drop_first());
            }
            Some(x)
        } else {
            None
        }
    }
}


/// Appending the next item keeps the items a prefix of the whole sequence.
proof fn lemma_take_push(items: Seq<(Point, Seq<char>)>, all: Seq<(Point, Seq<char>)>, k: int, x: (Point, Seq<char>))
    requires
        0 <= k < all.len(),
        items == all.take(k),
        all[k] == x,
    ensures
        items.push(x) == all.take(k + 1),
{
    assert(items.push(x) =~= all.take(k + 1));
}

/// The views of a vector of items after pushing one more.
proof fn lemma_view_push(items: Seq<(Point, String)>, x: (Point, String))
    ensures
        items.push(x).map_values(|y: (Point, String)| item_view(y)) == items.map_values(|y: (Point, String)| item_view(y)).push(item_view(x)),
{
    assert(items.push(x).map_values(|y: (Point, String)| item_view(y)) =~= items.map_values(|y: (Point, String)| item_view(y)).push(item_view(x)));
}

/// The characters of column `c` of the lines strictly between `rs` and `re`.
fn column_text(mat: &[Vec<char>], rs: usize, re: usize, c: usize) -> (r: Vec<char>)
    requires
        rs < re <= mat@.len(),
    ensures
        r@ == v_edge_text(lines_view(mat), rs as int, re as int, c as int),
{
    let mut text: Vec<char> = Vec::new();
    let mut line = rs + 1;
    while line < re
        invariant
            rs < line <= re,
            re <= mat@.len(),
            text@ == Seq::new((line - rs - 1) as nat, |k: int| pad_char(lines_view(mat)[rs + 1 + k], c as int)),
        decreases re - line,
    {
        let l = &mat[line];
        if c < l.len() {
            text.push(l[c]);
        } else {
            text.push(' ');
        }
        line = line + 1;
        proof {
            assert(lines_view(mat)[line - 1] == mat@[line - 1]@);
            assert(text@ =~= Seq::new((line - rs - 1) as nat, |k: int| pad_char(lines_view(mat)[rs + 1 + k], c as int)));
        }
    }
    text
}

/// The characters of line `r` strictly between the positions `cs` and `ce`.
fn row_text(mat: &[Vec<char>], r: usize, cs: usize, ce: usize) -> (t: Vec<char>)
    requires
        r < mat@.len(),
        cs < ce <= mat@[r as int]@.len(),
    ensures
        t@ == h_edge_text(lines_view(mat), r as int, cs as int, ce as int),
{
    let l = &mat[r];
    let mut text: Vec<char> = Vec::new();
    let mut j = cs + 1;
    while j < ce
        invariant
            cs < j <= ce,
            ce <= l@.len(),
            l@ == lines_view(mat)[r as int],
            text@ == l@.subrange(cs + 1, j as int),
        decreases ce - j,
    {
        text.push(l[j]);
        j = j + 1;
        proof {
            assert(text@ =~= l@.subrange(cs + 1, j as int));
        }
    }
    text
}

/// The characters of the block of lines strictly between `rs`, `re` and positions strictly
/// between `cs`, `ce`, line after line, padded with spaces.
fn block_text(mat: &[Vec<char>], rs: usize, re: usize, cs: usize, ce: usize) -> (t: Vec<char>)
    requires
        rs < re <= mat@.len(),
        cs < ce,
    ensures
        t@ == cell_text(lines_view(mat), rs as int, re as int, cs as int, ce as int),
{
    let w = ce - cs - 1;
    let ghost all = cell_text(lines_view(mat), rs as int, re as int, cs as int, ce as int);
    let mut text: Vec<char> = Vec::new();
    let mut line = rs + 1;
    proof {
        assert(all.take(0) =~= text@);
        assert((line - rs - 1) * w == 0) by (nonlinear_arith)
            requires line == rs + 1;
    }
    while line < re
        invariant
            rs < line <= re,
            re <= mat@.len(),
            w == ce - cs - 1,
            all == cell_text(lines_view(mat), rs as int, re as int, cs as int, ce as int),
            text@ == all.take((line - rs - 1) * w),
            (line - rs - 1) * w <= all.len(),
        decreases re - line,
    {
        let l = &mat[line];
        let mut j = cs + 1;
        proof {
            assert((line - rs - 1) * w + w == (line - rs) * w) by (nonlinear_arith);
            assert((line - rs) * w <= (re - rs - 1) * w) by (nonlinear_arith)
                requires line < re, w >= 0;
        }
        while j < ce
            invariant
                rs < line < re,
                re <= mat@.len(),
                cs < j <= ce,
                w == ce - cs - 1,
                l@ == lines_view(mat)[line as int],
                all == cell_text(lines_view(mat), rs as int, re as int, cs as int, ce as int),
                text@ == all.take((line - rs - 1) * w + (j - cs - 1)),
                (line - rs) * w <= all.len(),
                (line - rs - 1) * w + w == (line - rs) * w,
            decreases ce - j,
        {
            let ghost k = (line - rs - 1) * w + (j - cs - 1);
            proof {
                lemma_div_mod_point(w as int, (line - rs - 1) as int, (j - cs - 1) as int);
                assert(all[k] == pad_char(lines_view(mat)[line as int], j as int));
            }
            if j < l.len() {
                text.push(l[j]);
            } else {
                text.push(' ');
            }
            proof {
                assert(text@ =~= all.take(k + 1));
            }
            j = j + 1;
        }
        line = line + 1;
    }
    proof {
        assert(all.take((re - rs - 1) * w) =~= all);
    }
    text
}

/// The index arithmetic of row-major order.
proof fn lemma_div_mod_point(n: int, r: int, c: int)
    requires
        0 <= c < n,
        0 <= r,
    ensures
        (r * n + c) / n == r,
        (r * n + c) % n == c,
{
    crate::geom::lemma_div_mod_point(n, r, c);
}

impl VEdges {
    /// The vertical edges of the lattice with the given row lines and columns.
    pub fn new(mat: &[Vec<char>], rows: &Vec<usize>, cols: &Vec<usize>) -> (r: VEdges)
        requires
            lattice_ok(lines_view(mat), ints(rows@), ints(cols@)),
            1 <= rows@.len() <= i32::MAX,
            1 <= cols@.len() <= i32::MAX,
        ensures
            r.remaining() == v_edges_of(lines_view(mat), ints(rows@), ints(cols@)),
    {
        let ghost all = v_edges_of(lines_view(mat), ints(rows@), ints(cols@));
        let n = cols.len();
        let mut items: Vec<(Point, String)> = Vec::new();
        let mut row: usize = 0;
        proof {
            assert(items@.map_values(|y: (Point, String)| item_view(y)) =~= all.take(0));
        }
        while row + 1 < rows.len()
            invariant
                lattice_ok(lines_view(mat), ints(rows@), ints(cols@)),
                1 <= rows@.len() <= i32::MAX,
                n == cols@.len(),
                1 <= n <= i32::MAX,
                row + 1 <= rows@.len(),
                all == v_edges_of(lines_view(mat), ints(rows@), ints(cols@)),
                items@.map_values(|y: (Point, String)| item_view(y)) == all.take(row * n),
                all.len() == (rows@.len() - 1) * n,
            decreases rows.len() - row,
        {
            let mut col: usize = 0;
            proof {
                assert((row + 1) * n <= (rows@.len() - 1) * n) by (nonlinear_arith)
                    requires row + 1 < rows@.len(), n >= 1;
                assert(row * n + n == (row + 1) * n) by (nonlinear_arith);
            }
            while col < n
                invariant
                    lattice_ok(lines_view(mat), ints(rows@), ints(cols@)),
                    1 <= rows@.len() <= i32::MAX,
                    n == cols@.len(),
                    1 <= n <= i32::MAX,
                    row + 1 < rows@.len(),
                    col <= n,
                    all == v_edges_of(lines_view(mat), ints(rows@), ints(cols@)),
                    items@.map_values(|y: (Point, String)| item_view(y)) == all.take(row * n + col),
                    all.len() == (rows@.len() - 1) * n,
                    (row + 1) * n <= all.len(),
                    row * n + n == (row + 1) * n,
                decreases n - col,
            {
                let rs = rows[row];
                let re = rows[row + 1];
                let c = cols[col];
                proof {
                    assert(ints(rows@)[row as int] == rs);
                    assert(ints(rows@)[row as int + 1] == re);
                    assert(ints(cols@)[col as int] == c);
                }
                let text = column_text(mat, rs, re, c);
                let item = (Point(row as i32, col as i32), string_from_chars(&text));
                proof {
                    let k = row * n + col;
                    lemma_div_mod_point(n as int, row as int, col as int);
                    lemma_view_push(items@, item);
                    lemma_take_push(items@.map_values(|y: (Point, String)| item_view(y)), all, k as int, item_view(item));
                }
                items.push(item);
                col = col + 1;
            }
            row = row + 1;
        }
        proof {
            assert(all.take(row * n) =~= all);
        }
        let r = VEdges { items: items, pos: 0 };
        proof {
            assert(r.items@.skip(0) =~= r.items@);
        }
        r
    }
}

impl HEdges {
    /// The horizontal edges of the lattice with the given row lines and columns.
    pub fn new(mat: &[Vec<char>], rows: &Vec<usize>, cols: &Vec<usize>) -> (r: HEdges)
        requires
            lattice_ok(lines_view(mat), ints(rows@), ints(cols@)),
            1 <= rows@.len() <= i32::MAX,
            1 <= cols@.len() <= i32::MAX,
        ensures
            r.remaining() == h_edges_of(lines_view(mat), ints(rows@), ints(cols@)),
    {
        let ghost all = h_edges_of(lines_view(mat), ints(rows@), ints(cols@));
        let n = cols.len() - 1;
        let mut items: Vec<(Point, String)> = Vec::new();
        let mut row: usize = 0;
        proof {
            assert(items@.map_values(|y: (Point, String)| item_view(y)) =~= all.take(0));
        }
        while row < rows.len()
            invariant
                lattice_ok(lines_view(mat), ints(rows@), ints(cols@)),
                1 <= rows@.len() <= i32::MAX,
                n + 1 == cols@.len(),
                0 <= n < i32::MAX,
                row <= rows@.len(),
                all == h_edges_of(lines_view(mat), ints(rows@), ints(cols@)),
                items@.map_values(|y: (Point, String)| item_view(y)) == all.take(row * n),
                all.len() == rows@.len() * n,
            decreases rows.len() - row,
        {
            let mut col: usize = 0;
            proof {
                assert((row + 1) * n <= rows@.len() * n) by (nonlinear_arith)
                    requires row < rows@.len(), n >= 0;
                assert(row * n + n == (row + 1) * n) by (nonlinear_arith);
            }
            while col < n
                invariant
                    lattice_ok(lines_view(mat), ints(rows@), ints(cols@)),
                    1 <= rows@.len() <= i32::MAX,
                    n + 1 == cols@.len(),
                    0 <= n < i32::MAX,
                    row < rows@.len(),
                    col <= n,
                    all == h_edges_of(lines_view(mat), ints(rows@), ints(cols@)),
                    items@.map_values(|y: (Point, String)| item_view(y)) == all.take(row * n + col),
                    all.len() == rows@.len() * n,
                    (row + 1) * n <= all.len(),
                    row * n + n == (row + 1) * n,
                decreases n - col,
            {
                let r = rows[row];
                let cs = cols[col];
                let ce = cols[col + 1];
                proof {
                    assert(ints(rows@)[row as int] == r);
                    assert(ints(cols@)[col as int] == cs);
                    assert(ints(cols@)[col as int + 1] == ce);
                    assert(ints(cols@).last() == ints(cols@)[n as int]);
                    assert(lines_view(mat)[r as int] == mat@[r as int]@);
                    if col + 1 < n {
                        assert(ints(cols@)[col as int + 1] < ints(cols@)[n as int]);
                    }
                }
                let text = row_text(mat, r, cs, ce);
                let item = (Point(row as i32, col as i32), string_from_chars(&text));
                proof {
                    let k = row * n + col;
                    lemma_div_mod_point(n as int, row as int, col as int);
                    lemma_view_push(items@, item);
                    lemma_take_push(items@.map_values(|y: (Point, String)| item_view(y)), all, k as int, item_view(item));
                }
                items.push(item);
                col = col + 1;
            }
            row = row + 1;
        }
        proof {
            assert(all.take(row * n) =~= all);
        }
        let r = HEdges { items: items, pos: 0 };
        proof {
            assert(r.items@.skip(0) =~= r.items@);
        }
        r
    }
}

impl Cells {
    /// The cells of the lattice with the given row lines and columns.
    pub fn new(mat: &[Vec<char>], rows: &Vec<usize>, cols: &Vec<usize>) -> (r: Cells)
        requires
            grid_lines_ok(lines_view(mat), ints(rows@), ints(cols@)),
            1 <= rows@.len() <= i32::MAX,
            1 <= cols@.len() <= i32::MAX,
        ensures
            r.remaining() == cells_of(lines_view(mat), ints(rows@), ints(cols@)),
    {
        let ghost all = cells_of(lines_view(mat), ints(rows@), ints(cols@));
        let n = cols.len() - 1;
        let mut items: Vec<(Point, String)> = Vec::new();
        let mut row: usize = 0;
        proof {
            assert(items@.map_values(|y: (Point, String)| item_view(y)) =~= all.take(0));
        }
        while row + 1 < rows.len()
            invariant
                grid_lines_ok(lines_view(mat), ints(rows@), ints(cols@)),
                1 <= rows@.len() <= i32::MAX,
                n + 1 == cols@.len(),
                0 <= n < i32::MAX,
                row + 1 <= rows@.len(),
                all == cells_of(lines_view(mat), ints(rows@), ints(cols@)),
                items@.map_values(|y: (Point, String)| item_view(y)) == all.take(row * n),
                all.len() == (rows@.len() - 1) * n,
            decreases rows.len() - row,
        {
            let mut col: usize = 0;
            proof {
                assert((row + 1) * n <= (rows@.len() - 1) * n) by (nonlinear_arith)
                    requires row + 1 < rows@.len(), n >= 0;
                assert(row * n + n == (row + 1) * n) by (nonlinear_arith);
            }
            while col < n
                invariant
                    grid_lines_ok(lines_view(mat), ints(rows@), ints(cols@)),
                    1 <= rows@.len() <= i32::MAX,
                    n + 1 == cols@.len(),
                    0 <= n < i32::MAX,
                    row + 1 < rows@.len(),
                    col <= n,
                    all == cells_of(lines_view(mat), ints(rows@), ints(cols@)),
                    items@.map_values(|y: (Point, String)| item_view(y)) == all.take(row * n + col),
                    all.len() == (rows@.len() - 1) * n,
                    (row + 1) * n <= all.len(),
                    row * n + n == (row + 1) * n,
                decreases n - col,
            {
                let rs = rows[row];
                let re = rows[row + 1];
                let cs = cols[col];
                let ce = cols[col + 1];
                proof {
                    assert(ints(rows@)[row as int] == rs);
                    assert(ints(rows@)[row as int + 1] == re);
                    assert(ints(cols@)[col as int] == cs);
                    assert(ints(cols@)[col as int + 1] == ce);
                }
                let text = block_text(mat, rs, re, cs, ce);
                let item = (Point(row as i32, col as i32), string_from_chars(&text));
                proof {
                    let k = row * n + col;
                    lemma_div_mod_point(n as int, row as int, col as int);
                    lemma_view_push(items@, item);
                    lemma_take_push(items@.map_values(|y: (Point, String)| item_view(y)), all, k as int, item_view(item));
                }
                items.push(item);
                col = col + 1;
            }
            row = row + 1;
        }
        proof {
            assert(all.take(row * n) =~= all);
        }
        let r = Cells { items: items, pos: 0 };
        proof {
            assert(r.items@.skip(0) =~= r.items@);
        }
        r
    }
}

/// Every row line has its first and its last `+` at the first and the last lattice
/// column, and a `+` at every lattice column.
pub open spec fn lattice_lines_ok(lines: Seq<Seq<char>>, rows: Seq<int>, cols: Seq<int>) -> bool {
    forall|k: int| 0 <= k < rows.len() ==> {
        let l = #[trigger] lines[rows[k]];
        let pp = plus_positions(l);
        &&& pp.len() > 0 && pp[0] == cols[0] && pp.last() == cols.last()
        &&& forall|j: int| 0 <= j < cols.len() ==> cols[j] < l.len() && l[cols[j]] == '+'
    }
}

/// Finds the lattice of `lines`: the lines holding a `+` are the rows and the `+` of the
/// first of them the columns. Returns them when every row line agrees with the columns
/// (see `lattice_lines_ok`), and nothing otherwise.
pub fn find_lattice(lines: &[Vec<char>]) -> (r: Option<(Vec<usize>, Vec<usize>)>)
    requires
        plus_rows(lines_view(lines)).len() >= 1,
    ensures
        r is Some <==> lattice_lines_ok(
            lines_view(lines),
            plus_rows(lines_view(lines)),
            plus_positions(lines_view(lines)[plus_rows(lines_view(lines))[0]]),
        ),
        r matches Some((a, b)) ==> same_ints(a@, plus_rows(lines_view(lines))) && same_ints(
            b@,
            plus_positions(lines_view(lines)[plus_rows(lines_view(lines))[0]]),
        ),
{
    let ghost lv = lines_view(lines);
    let rows = find_plus_rows(lines);
    let ghost prow = plus_rows(lv);
    proof {
        lemma_rows_have_plus(lv, 0);
        lemma_plus_rows_bound(lv);
        assert(lv[prow[0]].contains('+'));
        lemma_plus_nonempty(lv[prow[0]]);
    }
    assert(lv[prow[0]] == lines@[rows@[0] as int]@);
    let cols = find_plus(&lines[rows[0]]);
    let ghost pcol = plus_positions(lv[prow[0]]);
    let mut k: usize = 0;
    while k < rows.len()
        invariant
            k <= rows@.len(),
            lv == lines_view(lines),
            prow == plus_rows(lv),
            pcol == plus_positions(lv[prow[0]]),
            same_ints(rows@, prow),
            same_ints(cols@, pcol),
            pcol.len() >= 1,
            forall|r: int| 0 <= r < prow.len() ==> 0 <= #[trigger] prow[r] < lv.len(),
            forall|r: int| 0 <= r < prow.len() ==> #[trigger] lv[prow[r]].contains('+'),
            forall|q: int| 0 <= q < k ==> {
                let l = #[trigger] lv[prow[q]];
                let pp = plus_positions(l);
                &&& pp.len() > 0 && pp[0] == pcol[0] && pp.last() == pcol.last()
                &&& forall|j: int| 0 <= j < pcol.len() ==> pcol[j] < l.len() && l[pcol[j]] == '+'
            },
        decreases rows@.len() - k,
    {
        let r = rows[k];
        let line = &lines[r];
        assert(lv[prow[k as int]] == line@);
        let pp = find_plus(line);
        proof {
            lemma_plus_nonempty(line@);
        }
        let last = cols.len() - 1;
        if pp[0] != cols[0] || pp[pp.len() - 1] != cols[last] {
            return None;
        }
        let mut j: usize = 0;
        while j < cols.len()
            invariant
                j <= cols@.len(),
                same_ints(cols@, pcol),
                lv == lines_view(lines),
                prow == plus_rows(lv),
                pcol == plus_positions(lv[prow[0]]),
                k < prow.len(),
                line@ == lv[prow[k as int]],
                forall|t: int| 0 <= t < j ==> pcol[t] < line@.len() && line@[pcol[t]] == '+',
            decreases cols@.len() - j,
        {
            let c = cols[j];
            if line.len() <= c {
                assert(!(pcol[j as int] < lv[prow[k as int]].len()));
                return None;
            }
            if line[c] != '+' {
                assert(lv[prow[k as int]][pcol[j as int]] != '+');
                return None;
            }
            j = j + 1;
        }
        k = k + 1;
    }
    Some((rows, cols))
}

} // verus!
