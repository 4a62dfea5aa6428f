use vstd::prelude::*;

verus! {

/// Where in a TOML text a scan stands. A string is basic, between double
/// quotes, or literal, between single quotes; either kind spans lines where
/// three quotes open it.
#[derive(Debug, Clone, Copy, PartialEq, Eq, Structural)]
pub enum Mode {
    /// Outside strings and comments.
    Plain,
    /// In a comment, which the next line feed ends.
    Comment,
    /// Behind one quote that may open a string.
    Opening { basic: bool },
    /// Behind two such quotes: an empty string, or two thirds of an opening.
    OpeningTwice { basic: bool },
    /// In a string of one line.
    Line { basic: bool },
    /// Behind a backslash in a basic string of one line.
    LineEscape,
    /// In a string of several lines, behind `quotes` quotes in a row, two at most.
    Block { basic: bool, quotes: u8 },
    /// Behind a backslash in a basic string of several lines.
    BlockEscape,
    /// Behind the three quotes that close a string of several lines and
    /// `extra` more, two at most, which still belong to it.
    Closed { basic: bool, extra: u8 },
}

/// What a scan knows where it stands: how many brackets and braces are open,
/// how many periods the statement has had outside strings and comments, and
/// the greatest sum of the two so far.
#[derive(Debug, Clone, Copy, PartialEq, Eq, Structural)]
pub struct Scan {
    pub mode: Mode,
    pub open: usize,
    pub dots: usize,
    pub peak: usize,
}

/// The deepest nesting that a TOML text is read at. The parser descends once
/// or twice for each level and keeps no count, so that its stack grows with
/// the nesting; at this bound it needs a small part of the two mebibytes that
/// a thread has by default.
pub const MAX_NESTING: usize = 128;

/// The quote of a kind of string.
pub open spec fn quote(basic: bool) -> char {
    if basic {
        '"'
    } else {
        '\''
    }
}

/// One more, as far as the type goes.
pub open spec fn bump(x: usize) -> usize {
    if x < usize::MAX {
        (x + 1) as usize
    } else {
        x
    }
}

/// The scan in another mode.
pub open spec fn in_mode(s: Scan, mode: Mode) -> Scan {
    Scan { mode, open: s.open, dots: s.dots, peak: s.peak }
}

/// The scan with these counts, and its peak raised to their sum where that
/// is greater.
pub open spec fn counted(s: Scan, open: usize, dots: usize) -> Scan {
    let sum = if open + dots <= usize::MAX {
        (open + dots) as usize
    } else {
        usize::MAX
    };
    Scan {
        mode: s.mode,
        open,
        dots,
        peak: if sum > s.peak {
            sum
        } else {
            s.peak
        },
    }
}

/// The scan behind a character outside strings and comments. A bracket or a
/// brace opens or closes a level; a period counts; a line feed ends the
/// statement, and with it the count of periods, where nothing is open.
pub open spec fn plain_step(s: Scan, c: char) -> Scan {
    if c == '[' || c == '{' {
        counted(s, bump(s.open), s.dots)
    } else if c == ']' || c == '}' {
        counted(
            s,
            if s.open > 0 {
                (s.open - 1) as usize
            } else {
                0
            },
            s.dots,
        )
    } else if c == '.' {
        counted(s, s.open, bump(s.dots))
    } else if c == '#' {
        in_mode(s, Mode::Comment)
    } else if c == '"' {
        in_mode(s, Mode::Opening { basic: true })
    } else if c == '\'' {
        in_mode(s, Mode::Opening { basic: false })
    } else if c == '\n' && s.open == 0 {
        counted(s, 0, 0)
    } else {
        s
    }
}

/// The scan behind a character of a string of one line.
pub open spec fn line_step(s: Scan, basic: bool, c: char) -> Scan {
    if c == quote(basic) {
        in_mode(s, Mode::Plain)
    } else if basic && c == '\\' {
        in_mode(s, Mode::LineEscape)
    } else if c == '\n' {
        plain_step(in_mode(s, Mode::Plain), c)
    } else {
        in_mode(s, Mode::Line { basic })
    }
}

/// The scan behind one more character.
pub open spec fn scan_step(s: Scan, c: char) -> Scan {
    match s.mode {
        Mode::Plain => plain_step(s, c),
        Mode::Comment => if c == '\n' {
            plain_step(in_mode(s, Mode::Plain), c)
        } else {
            s
        },
        Mode::Opening { basic } => if c == quote(basic) {
            in_mode(s, Mode::OpeningTwice { basic })
        } else {
            line_step(s, basic, c)
        },
        Mode::OpeningTwice { basic } => if c == quote(basic) {
            in_mode(s, Mode::Block { basic, quotes: 0 })
        } else {
            plain_step(in_mode(s, Mode::Plain), c)
        },
        Mode::Line { basic } => line_step(s, basic, c),
        Mode::LineEscape => in_mode(s, Mode::Line { basic: true }),
        Mode::Block { basic, quotes } => if c == quote(basic) {
            if quotes >= 2 {
                in_mode(s, Mode::Closed { basic, extra: 0 })
            } else {
                in_mode(s, Mode::Block { basic, quotes: (quotes + 1) as u8 })
            }
        } else if basic && c == '\\' {
            in_mode(s, Mode::BlockEscape)
        } else {
            in_mode(s, Mode::Block { basic, quotes: 0 })
        },
        Mode::BlockEscape => in_mode(s, Mode::Block { basic: true, quotes: 0 }),
        Mode::Closed { basic, extra } => if c == quote(basic) {
            if extra < 2 {
                in_mode(s, Mode::Closed { basic, extra: (extra + 1) as u8 })
            } else {
                in_mode(s, Mode::Opening { basic })
            }
        } else {
            plain_step(in_mode(s, Mode::Plain), c)
        },
    }
}

/// The scan before the first character.
pub open spec fn scan_start() -> Scan {
    Scan { mode: Mode::Plain, open: 0, dots: 0, peak: 0 }
}

/// The scan behind the first `upto` characters of a text.
pub open spec fn scanned(text: Seq<char>, upto: int) -> Scan
    decreases upto,
{
    if upto <= 0 {
        scan_start()
    } else {
        scan_step(scanned(text, upto - 1), text[upto - 1])
    }
}

/// How deeply a text is nested, at most: the greatest number, at any place
/// outside its strings and comments, of the brackets and braces that are open
/// there and the periods that its statement has had so far. Strings and
/// comments are told as the TOML grammar tells them. A table header of so
/// many parts, a dotted key of so many parts and a value of so many levels
/// all stay below this number.
pub open spec fn nesting(text: Seq<char>) -> nat {
    scanned(text, text.len() as int).peak as nat
}

fn bumped(x: usize) -> (r: usize)
    ensures
        r == bump(x),
{
    if x < usize::MAX {
        x + 1
    } else {
        x
    }
}

fn with_counts(s: Scan, open: usize, dots: usize) -> (r: Scan)
    ensures
        r == counted(s, open, dots),
{
    let sum = if open <= usize::MAX - dots {
        open + dots
    } else {
        usize::MAX
    };
    Scan {
        mode: s.mode,
        open,
        dots,
        peak: if sum > s.peak {
            sum
        } else {
            s.peak
        },
    }
}

fn with_mode(s: Scan, mode: Mode) -> (r: Scan)
    ensures
        r == in_mode(s, mode),
{
    Scan { mode, open: s.open, dots: s.dots, peak: s.peak }
}

fn step_plain(s: Scan, c: char) -> (r: Scan)
    ensures
        r == plain_step(s, c),
{
    if c == '[' || c == '{' {
        with_counts(s, bumped(s.open), s.dots)
    } else if c == ']' || c == '}' {
        with_counts(
            s,
            if s.open > 0 {
                s.open - 1
            } else {
                0
            },
            s.dots,
        )
    } else if c == '.' {
        with_counts(s, s.open, bumped(s.dots))
    } else if c == '#' {
        with_mode(s, Mode::Comment)
    } else if c == '"' {
        with_mode(s, Mode::Opening { basic: true })
    } else if c == '\'' {
        with_mode(s, Mode::Opening { basic: false })
    } else if c == '\n' && s.open == 0 {
        with_counts(s, 0, 0)
    } else {
        s
    }
}

fn quote_of(basic: bool) -> (c: char)
    ensures
        c == quote(basic),
{
    if basic {
        '"'
    } else {
        '\''
    }
}

fn step_line(s: Scan, basic: bool, c: char) -> (r: Scan)
    ensures
        r == line_step(s, basic, c),
{
    if c == quote_of(basic) {
        with_mode(s, Mode::Plain)
    } else if basic && c == '\\' {
        with_mode(s, Mode::LineEscape)
    } else if c == '\n' {
        step_plain(with_mode(s, Mode::Plain), c)
    } else {
        with_mode(s, Mode::Line { basic })
    }
}

/// The scan behind one more character.
pub fn step(s: Scan, c: char) -> (r: Scan)
    ensures
        r == scan_step(s, c),
{
    match s.mode {
        Mode::Plain => step_plain(s, c),
        Mode::Comment => {
            if c == '\n' {
                step_plain(with_mode(s, Mode::Plain), c)
            } else {
                s
            }
        },
        Mode::Opening { basic } => {
            if c == quote_of(basic) {
                with_mode(s, Mode::OpeningTwice { basic })
            } else {
                step_line(s, basic, c)
            }
        },
        Mode::OpeningTwice { basic } => {
            if c == quote_of(basic) {
                with_mode(s, Mode::Block { basic, quotes: 0 })
            } else {
                step_plain(with_mode(s, Mode::Plain), c)
            }
        },
        Mode::Line { basic } => step_line(s, basic, c),
        Mode::LineEscape => with_mode(s, Mode::Line { basic: true }),
        Mode::Block { basic, quotes } => {
            if c == quote_of(basic) {
                if quotes >= 2 {
                    with_mode(s, Mode::Closed { basic, extra: 0 })
                } else {
                    with_mode(s, Mode::Block { basic, quotes: quotes + 1 })
                }
            } else if basic && c == '\\' {
                with_mode(s, Mode::BlockEscape)
            } else {
                with_mode(s, Mode::Block { basic, quotes: 0 })
            }
        },
        Mode::BlockEscape => with_mode(s, Mode::Block { basic: true, quotes: 0 }),
        Mode::Closed { basic, extra } => {
            if c == quote_of(basic) {
                if extra < 2 {
                    with_mode(s, Mode::Closed { basic, extra: extra + 1 })
                } else {
                    with_mode(s, Mode::Opening { basic })
                }
            } else {
                step_plain(with_mode(s, Mode::Plain), c)
            }
        },
    }
}

/// How deeply a text is nested, at most.
pub fn nesting_of(text: &str) -> (n: usize)
    ensures
        n == nesting(text@),
{
    let len = text.unicode_len();
    let mut s = Scan { mode: Mode::Plain, open: 0, dots: 0, peak: 0 };
    let mut i: usize = 0;
    for c in it: text.chars()
        invariant
            i == it.index(),
            it.seq() == text@,
            len == text@.len(),
            s == scanned(text@, i as int),
    {
        s = step(s, c);
        i += 1;
    }
    s.peak
}

} // verus!
