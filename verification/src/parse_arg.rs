//! The values of the command line: the command, the output mode and the cell size, read
//! from their words, and the solving configuration they make.
use vstd::prelude::*;

use crate::pprint::{Config as PpConfig, Mode as PpMode};
use crate::text::str_chars;

verus! {

/// The commands.
#[derive(Copy, Clone, Debug, PartialEq, Eq, Structural)]
pub enum CommandType {
    /// Solve puzzles.
    Solve,
}

/// How the solutions are written.
#[derive(Copy, Clone, Debug, PartialEq, Eq, Structural)]
pub enum OutputModeArg {
    /// Pretty, in colour when the output is a terminal.
    Auto,
    /// Pretty, in colour.
    PrettyColor,
    /// Pretty, in plain characters.
    PrettyAscii,
    /// The puzzle text.
    Raw,
    /// Nothing.
    NoOutput,
}

/// A cell dimension given on the command line: a positive number.
#[derive(Copy, Clone, Debug)]
pub struct Size(pub usize);

/// How solutions are written.
#[derive(Copy, Clone, Debug)]
pub enum OutputMode {
    /// As a table.
    Pretty(PpConfig),
    /// As the puzzle text.
    Raw,
    /// Not at all.
    NoOutput,
}

/// The arguments of the solve command.
#[derive(Clone, Debug)]
pub struct SolveArgs {
    /// Whether every solution is wanted.
    pub derive_all: bool,
    /// The output mode asked for.
    pub output_mode: OutputModeArg,
    /// The cell width.
    pub width: Size,
    /// The cell height.
    pub height: Size,
    /// The puzzle files; none means standard input.
    pub input_files: Vec<String>,
}

/// What the solve command does.
#[derive(Clone, Debug)]
pub struct SolveConfig {
    /// Whether every solution is written.
    pub derive_all: bool,
    /// How solutions are written.
    pub output_mode: OutputMode,
    /// The puzzle files; none means standard input.
    pub input_files: Vec<String>,
}

/// A command with its configuration.
#[derive(Clone, Debug)]
pub enum Config {
    /// Solve puzzles.
    Solve(SolveConfig),
}

/// The characters of a word, compared with a literal.
fn is_word(s: &Vec<char>, w: &str) -> (r: bool)
    ensures
        r == (s@ == w@),
{
    let t = str_chars(w);
    if s.len() != t.len() {
        return false;
    }
    let mut i: usize = 0;
    while i < s.len()
        invariant
            i <= s@.len(),
            s@.len() == t@.len(),
            t@ == w@,
            s@.take(i as int) == t@.take(i as int),
        decreases s@.len() - i,
    {
        if s[i] != t[i] {
            assert(s@[i as int] != w@[i as int]);
            return false;
        }
        i = i + 1;
        assert(s@.take(i as int) =~= t@.take(i as int));
    }
    assert(s@ =~= s@.take(s@.len() as int));
    assert(t@ =~= t@.take(t@.len() as int));
    true
}

/// The command named `s`.
pub open spec fn command_of(s: Seq<char>) -> Option<CommandType> {
    if s == "solve"@ {
        Some(CommandType::Solve)
    } else {
        None
    }
}

/// Reads a command name.
pub fn parse_command(src: &str) -> (r: Result<CommandType, ()>)
    ensures
        match command_of(src@) {
            Some(c) => r == Ok::<CommandType, ()>(c),
            None => r is Err,
        },
{
    let s = str_chars(src);
    if is_word(&s, "solve") {
        Ok(CommandType::Solve)
    } else {
        Err(())
    }
}

impl Default for CommandType {
    fn default() -> (r: CommandType)
        ensures
            r == CommandType::Solve,
    {
        CommandType::Solve
    }
}

impl core::str::FromStr for CommandType {
    type Err = ();

    fn from_str(src: &str) -> (r: Result<CommandType, ()>)
        ensures
            match command_of(src@) {
                Some(v) => r == Ok::<CommandType, ()>(v),
                None => r is Err,
            },
    {
        parse_command(src)
    }
}

/// The output mode named `s`.
pub open spec fn output_mode_of(s: Seq<char>) -> Option<OutputModeArg> {
    if s == "auto"@ {
        Some(OutputModeArg::Auto)
    } else if s == "pretty-color"@ {
        Some(OutputModeArg::PrettyColor)
    } else if s == "pretty-ascii"@ {
        Some(OutputModeArg::PrettyAscii)
    } else if s == "raw"@ {
        Some(OutputModeArg::Raw)
    } else if s == "none"@ {
        Some(OutputModeArg::NoOutput)
    } else {
        None
    }
}

/// Reads an output mode name.
pub fn parse_output_mode(src: &str) -> (r: Result<OutputModeArg, ()>)
    ensures
        match output_mode_of(src@) {
            Some(m) => r == Ok::<OutputModeArg, ()>(m),
            None => r is Err,
        },
{
    let s = str_chars(src);
    if is_word(&s, "auto") {
        Ok(OutputModeArg::Auto)
    } else if is_word(&s, "pretty-color") {
        Ok(OutputModeArg::PrettyColor)
    } else if is_word(&s, "pretty-ascii") {
        Ok(OutputModeArg::PrettyAscii)
    } else if is_word(&s, "raw") {
        Ok(OutputModeArg::Raw)
    } else if is_word(&s, "none") {
        Ok(OutputModeArg::NoOutput)
    } else {
        Err(())
    }
}

impl core::str::FromStr for OutputModeArg {
    type Err = ();

    fn from_str(src: &str) -> (r: Result<OutputModeArg, ()>)
        ensures
            match output_mode_of(src@) {
                Some(v) => r == Ok::<OutputModeArg, ()>(v),
                None => r is Err,
            },
    {
        parse_output_mode(src)
    }
}

/// The value of a decimal digit.
pub open spec fn digit_value(c: char) -> int {
    c as int - '0' as int
}

/// Whether `c` is a decimal digit.
pub open spec fn is_digit(c: char) -> bool {
    '0' <= c <= '9'
}

/// The number written by the digits `s`.
pub open spec fn digits_value(s: Seq<char>) -> nat
    decreases s.len(),
{
    if s.len() == 0 {
        0
    } else {
        (10 * digits_value(s.drop_last()) + digit_value(s.last())) as nat
    }
}

/// Whether every character of `d` is a digit.
pub open spec fn all_digits(d: Seq<char>) -> bool {
    forall|i: int| 0 <= i < d.len() ==> is_digit(#[trigger] d[i])
}

/// The unsigned number written by `s`: digits after an optional `+`, at least one, and
/// small enough for `usize`.
pub open spec fn usize_of(s: Seq<char>) -> Option<nat> {
    let d = if s.len() > 0 && s[0] == '+' {
        s.drop_first()
    } else {
        s
    };
    if d.len() > 0 && all_digits(d) && digits_value(d) <= usize::MAX {
        Some(digits_value(d))
    } else {
        None
    }
}

/// A cell size: a positive number.
pub open spec fn size_of(s: Seq<char>) -> Option<Size> {
    match usize_of(s) {
        Some(v) => if v != 0 {
            Some(Size(v as usize))
        } else {
            None
        },
        None => None,
    }
}

/// Prefixes of digits are worth no more than the whole.
proof fn lemma_digits_prefix(d: Seq<char>, k: int)
    requires
        0 <= k <= d.len(),
        forall|i: int| 0 <= i < d.len() ==> is_digit(#[trigger] d[i]),
    ensures
        digits_value(d.take(k)) <= digits_value(d),
    decreases d.len() - k,
{
    if k < d.len() {
        lemma_digits_prefix(d, k + 1);
        assert(d.take(k + 1).drop_last() =~= d.take(k));
        assert(d.take(k + 1).last() == d[k]);
        assert(is_digit(d[k]));
    } else {
        assert(d.take(k) =~= d);
    }
}

/// Reads a cell size.
pub fn parse_size(src: &str) -> (r: Result<Size, ()>)
    ensures
        match size_of(src@) {
            Some(v) => r == Ok::<Size, ()>(v),
            None => r is Err,
        },
{
    let s = str_chars(src);
    let start: usize = if s.len() > 0 && s[0] == '+' {
        1
    } else {
        0
    };
    let ghost d = s@.skip(start as int);
    proof {
        if start == 1 {
            assert(d =~= s@.drop_first());
        } else {
            assert(d =~= s@);
        }
    }
    if start >= s.len() {
        return Err(());
    }
    let mut value: usize = 0;
    let mut i: usize = start;
    while i < s.len()
        invariant
            start <= i <= s@.len(),
            d == s@.skip(start as int),
            d == (if s@.len() > 0 && s@[0] == '+' {
                s@.drop_first()
            } else {
                s@
            }),
            s@ == src@,
            forall|j: int| 0 <= j < i - start ==> is_digit(#[trigger] d[j]),
            value == digits_value(d.take(i - start)),
        decreases s@.len() - i,
    {
        let c = s[i];
        assert(d[i - start] == c);
        if !('0' <= c && c <= '9') {
            assert(!is_digit(d[i - start]));
            assert(!all_digits(d));
            return Err(());
        }
        let dv = (c as u32 - '0' as u32) as usize;
        assert(d.take(i - start + 1).drop_last() =~= d.take(i - start));
        if value > (usize::MAX - dv) / 10 {
            proof {
                assert(digits_value(d.take(i - start + 1)) == 10 * value + dv);
                assert(10 * value + dv > usize::MAX) by (nonlinear_arith)
                    requires
                        value > (usize::MAX - dv) / 10,
                        dv <= 9,
                ;
                assert(d.take(i - start + 1).last() == c);
                if all_digits(d) {
                    lemma_digits_prefix(d, i - start + 1);
                }
            }
            return Err(());
        }
        value = value * 10 + dv;
        i = i + 1;
    }
    assert(d.take(d.len() as int) =~= d);
    if value == 0 {
        return Err(());
    }
    Ok(Size(value))
}

impl core::str::FromStr for Size {
    type Err = ();

    fn from_str(src: &str) -> (r: Result<Size, ()>)
        ensures
            match size_of(src@) {
                Some(v) => r == Ok::<Size, ()>(v),
                None => r is Err,
            },
    {
        parse_size(src)
    }
}

/// The output mode asked for, decided: pretty output in colour when asked, or when
/// left to the program and the output can show colours.
pub open spec fn output_mode_result(args: SolveArgs, pprintable: bool) -> OutputMode {
    let conf = |mode: PpMode| PpConfig { mode: mode, cell_width: args.width.0, cell_height: args.height.0 };
    match args.output_mode {
        OutputModeArg::Auto => OutputMode::Pretty(
            conf(
                if pprintable {
                    PpMode::Color
                } else {
                    PpMode::Ascii
                },
            ),
        ),
        OutputModeArg::PrettyColor => OutputMode::Pretty(conf(PpMode::Color)),
        OutputModeArg::PrettyAscii => OutputMode::Pretty(conf(PpMode::Ascii)),
        OutputModeArg::Raw => OutputMode::Raw,
        OutputModeArg::NoOutput => OutputMode::NoOutput,
    }
}

impl SolveArgs {
    /// The output mode; `pprintable` tells whether the output can show colours.
    pub fn output_mode(&self, pprintable: bool) -> (r: OutputMode)
        ensures
            r == output_mode_result(*self, pprintable),
    {
        let ppmode = match self.output_mode {
            OutputModeArg::Auto => {
                if pprintable {
                    PpMode::Color
                } else {
                    PpMode::Ascii
                }
            },
            OutputModeArg::PrettyColor => PpMode::Color,
            OutputModeArg::PrettyAscii => PpMode::Ascii,
            OutputModeArg::Raw => {
                return OutputMode::Raw;
            },
            OutputModeArg::NoOutput => {
                return OutputMode::NoOutput;
            },
        };
        OutputMode::Pretty(PpConfig { mode: ppmode, cell_width: self.width.0, cell_height: self.height.0 })
    }

    /// The configuration of the solve command.
    pub fn into_config(self, pprintable: bool) -> (r: SolveConfig)
        ensures
            r.derive_all == self.derive_all,
            r.output_mode == output_mode_result(self, pprintable),
            r.input_files@ == self.input_files@,
    {
        let mode = self.output_mode(pprintable);
        SolveConfig { derive_all: self.derive_all, output_mode: mode, input_files: self.input_files }
    }
}

impl Default for SolveArgs {
    fn default() -> (r: SolveArgs)
        ensures
            !r.derive_all,
            r.output_mode == OutputModeArg::Auto,
            r.width.0 == 2,
            r.height.0 == 1,
            r.input_files@.len() == 0,
    {
        SolveArgs {
            derive_all: false,
            output_mode: OutputModeArg::Auto,
            width: Size(2),
            height: Size(1),
            input_files: Vec::new(),
        }
    }
}

} // verus!
