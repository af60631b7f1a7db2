//! The colours of the display and the escape sequences that select them.

use vstd::prelude::*;
use vstd::string::*;
use vstd::utf8::encode_utf8_decode_utf8;
use termion::color::{AnsiValue, Reset};
use crate::text::decimal;

verus! {

/// The sixteen colours that a terminal names.
#[derive(Debug, Clone, Copy, PartialEq, Eq, Structural)]
pub enum Color {
    Black,
    Red,
    Green,
    Yellow,
    Blue,
    Magenta,
    Cyan,
    White,
    LightBlack,
    LightRed,
    LightGreen,
    LightYellow,
    LightBlue,
    LightMagenta,
    LightCyan,
    LightWhite,
}

impl Color {
    /// The number of the colour in the terminal's palette.
    pub open spec fn code(self) -> u8 {
        match self {
            Color::Black => 0,
            Color::Red => 1,
            Color::Green => 2,
            Color::Yellow => 3,
            Color::Blue => 4,
            Color::Magenta => 5,
            Color::Cyan => 6,
            Color::White => 7,
            Color::LightBlack => 8,
            Color::LightRed => 9,
            Color::LightGreen => 10,
            Color::LightYellow => 11,
            Color::LightBlue => 12,
            Color::LightMagenta => 13,
            Color::LightCyan => 14,
            Color::LightWhite => 15,
        }
    }

    /// The number of the colour in the terminal's palette.
    pub fn ansi_code(&self) -> (c: u8)
        ensures
            c == self.code(),
    {
        match self {
            Color::Black => 0,
            Color::Red => 1,
            Color::Green => 2,
            Color::Yellow => 3,
            Color::Blue => 4,
            Color::Magenta => 5,
            Color::Cyan => 6,
            Color::White => 7,
            Color::LightBlack => 8,
            Color::LightRed => 9,
            Color::LightGreen => 10,
            Color::LightYellow => 11,
            Color::LightBlue => 12,
            Color::LightMagenta => 13,
            Color::LightCyan => 14,
            Color::LightWhite => 15,
        }
    }

    /// The sequence that makes this the colour of the text.
    pub fn fg(&self) -> (s: String)
        ensures
            s@ == fg_text(self.code()),
    {
        fg_sequence(self.ansi_code())
    }

    /// The sequence that makes this the colour behind the text.
    pub fn bg(&self) -> (s: String)
        ensures
            s@ == bg_text(self.code()),
    {
        bg_sequence(self.ansi_code())
    }
}

/// The escape sequence that selects a colour of the palette for the text.
pub open spec fn fg_text(code: u8) -> Seq<char> {
    "\x1B[38;5;"@ + decimal(code as nat) + "m"@
}

/// The escape sequence that selects a colour of the palette for the
/// background.
pub open spec fn bg_text(code: u8) -> Seq<char> {
    "\x1B[48;5;"@ + decimal(code as nat) + "m"@
}

/// `AnsiValue::fg_string`: the control sequence introducer, `38;5;`, the
/// colour's number in decimal, and `m`.
#[verifier::external_body]
pub(crate) fn fg_sequence(code: u8) -> (s: String)
    ensures
        s@ == fg_text(code),
{
    AnsiValue(code).fg_string()
}

/// `AnsiValue::bg_string`: the control sequence introducer, `48;5;`, the
/// colour's number in decimal, and `m`.
#[verifier::external_body]
pub(crate) fn bg_sequence(code: u8) -> (s: String)
    ensures
        s@ == bg_text(code),
{
    AnsiValue(code).bg_string()
}

/// `Reset::fg_str`: the sequence that gives the text its default colour.
#[verifier::external_body]
pub(crate) fn fg_reset() -> (s: &'static str)
    ensures
        s@ == "\x1B[39m"@,
{
    Reset.fg_str()
}

/// `Reset::bg_str`: the sequence that gives the background its default
/// colour.
#[verifier::external_body]
pub(crate) fn bg_reset() -> (s: &'static str)
    ensures
        s@ == "\x1B[49m"@,
{
    Reset.bg_str()
}

/// Whether two texts are the same.
pub fn str_eq(a: &str, b: &str) -> (r: bool)
    ensures
        r == (a@ == b@),
{
    let x = a.as_bytes();
    let y = b.as_bytes();
    if x.len() != y.len() {
        return false;
    }
    let mut i: usize = 0;
    while i < x.len()
        invariant
            x@ == a.spec_bytes(),
            y@ == b.spec_bytes(),
            x@.len() == y@.len(),
            i <= x@.len(),
            x@.take(i as int) == y@.take(i as int),
        decreases x.len() - i,
    {
        if x[i] != y[i] {
            return false;
        }
        i += 1;
        assert(x@.take(i as int) =~= y@.take(i as int)) by {
            assert(x@.take(i as int) =~= x@.take(i - 1).push(x@[i - 1]));
            assert(y@.take(i as int) =~= y@.take(i - 1).push(y@[i - 1]));
        }
    }
    proof {
        assert(x@ =~= x@.take(i as int));
        assert(y@ =~= y@.take(i as int));
        encode_utf8_decode_utf8(a@);
        encode_utf8_decode_utf8(b@);
    }
    true
}

/// The colour that a name stands for.
pub open spec fn named_color(name: Seq<char>) -> Option<Color> {
    if name == "black"@ {
        Some(Color::Black)
    } else if name == "blue"@ {
        Some(Color::Blue)
    } else if name == "cyan"@ {
        Some(Color::Cyan)
    } else if name == "green"@ {
        Some(Color::Green)
    } else if name == "magenta"@ {
        Some(Color::Magenta)
    } else if name == "red"@ {
        Some(Color::Red)
    } else if name == "white"@ {
        Some(Color::White)
    } else if name == "yellow"@ {
        Some(Color::Yellow)
    } else if name == "lightblack"@ {
        Some(Color::LightBlack)
    } else if name == "lightblue"@ {
        Some(Color::LightBlue)
    } else if name == "lightcyan"@ {
        Some(Color::LightCyan)
    } else if name == "lightgreen"@ {
        Some(Color::LightGreen)
    } else if name == "lightmagenta"@ {
        Some(Color::LightMagenta)
    } else if name == "lightred"@ {
        Some(Color::LightRed)
    } else if name == "lightwhite"@ {
        Some(Color::LightWhite)
    } else if name == "lightyellow"@ {
        Some(Color::LightYellow)
    } else {
        None
    }
}

/// The names of the colours, in the order in which they are offered.
pub open spec fn color_names() -> Seq<Seq<char>> {
    seq![
        "black"@,
        "blue"@,
        "cyan"@,
        "green"@,
        "magenta"@,
        "red"@,
        "white"@,
        "yellow"@,
        "lightblack"@,
        "lightblue"@,
        "lightcyan"@,
        "lightgreen"@,
        "lightmagenta"@,
        "lightred"@,
        "lightwhite"@,
        "lightyellow"@,
    ]
}

/// The names of the colours, in the order in which they are offered; each of
/// them names a colour.
pub fn colors() -> (names: Vec<&'static str>)
    ensures
        names@.len() == 16,
        forall|i: int| 0 <= i < 16 ==> (#[trigger] names@[i])@ == color_names()[i],
        forall|i: int| 0 <= i < 16 ==> named_color(#[trigger] names@[i]@) is Some,
{
    let names = vec![
        "black",
        "blue",
        "cyan",
        "green",
        "magenta",
        "red",
        "white",
        "yellow",
        "lightblack",
        "lightblue",
        "lightcyan",
        "lightgreen",
        "lightmagenta",
        "lightred",
        "lightwhite",
        "lightyellow",
    ];
    names
}

/// The colour that a name of `colors` stands for.
pub fn string_to_color(cs: &str) -> (c: Color)
    requires
        named_color(cs@) is Some,
    ensures
        Some(c) == named_color(cs@),
{
    if str_eq(cs, "black") {
        Color::Black
    } else if str_eq(cs, "blue") {
        Color::Blue
    } else if str_eq(cs, "cyan") {
        Color::Cyan
    } else if str_eq(cs, "green") {
        Color::Green
    } else if str_eq(cs, "magenta") {
        Color::Magenta
    } else if str_eq(cs, "red") {
        Color::Red
    } else if str_eq(cs, "white") {
        Color::White
    } else if str_eq(cs, "yellow") {
        Color::Yellow
    } else if str_eq(cs, "lightblack") {
        Color::LightBlack
    } else if str_eq(cs, "lightblue") {
        Color::LightBlue
    } else if str_eq(cs, "lightcyan") {
        Color::LightCyan
    } else if str_eq(cs, "lightgreen") {
        Color::LightGreen
    } else if str_eq(cs, "lightmagenta") {
        Color::LightMagenta
    } else if str_eq(cs, "lightred") {
        Color::LightRed
    } else if str_eq(cs, "lightwhite") {
        Color::LightWhite
    } else {
        Color::LightYellow
    }
}

} // verus!
