//! ANSI terminal colours.
use vstd::prelude::*;
use vstd::string::StringExecFns;

verus! {

/// An ANSI terminal colour or attribute.
#[derive(Debug, Clone, Copy, PartialEq, Eq, Structural)]
pub enum Color {
    Red,
    Green,
    Yellow,
    Blue,
    Cyan,
    Gray,
    Magenta,
    Bold,
    Reset,
}

/// The escape sequence that switches the terminal to colour `c`.
pub open spec fn ansi_code(c: Color) -> Seq<char> {
    match c {
        Color::Red => "\x1b[31m"@,
        Color::Green => "\x1b[32m"@,
        Color::Yellow => "\x1b[33m"@,
        Color::Blue => "\x1b[34m"@,
        Color::Cyan => "\x1b[36m"@,
        Color::Gray => "\x1b[38;5;8m"@,
        Color::Magenta => "\x1b[35m"@,
        Color::Bold => "\x1b[1m"@,
        Color::Reset => "\x1b[0m"@,
    }
}

/// `text` wrapped in colour `c`: the colour's escape sequence, the text, then the reset sequence.
pub open spec fn styled_spec(text: Seq<char>, c: Color) -> Seq<char> {
    ansi_code(c) + text + ansi_code(Color::Reset)
}

impl Color {
    /// The escape sequence of this colour, as a static string.
    pub fn code(&self) -> (r: &'static str)
        ensures
            r@ == ansi_code(*self),
    {
        match self {
            Color::Red => "\x1b[31m",
            Color::Green => "\x1b[32m",
            Color::Yellow => "\x1b[33m",
            Color::Blue => "\x1b[34m",
            Color::Cyan => "\x1b[36m",
            Color::Gray => "\x1b[38;5;8m",
            Color::Magenta => "\x1b[35m",
            Color::Bold => "\x1b[1m",
            Color::Reset => "\x1b[0m",
        }
    }

    /// The escape sequence of this colour: what the colour prints as.
    pub fn ansi(&self) -> (r: String)
        ensures
            r@ == ansi_code(*self),
    {
        self.code().to_owned()
    }
}

/// Wraps `text` in ANSI colour `color`, resetting the terminal afterwards.
pub fn styled(text: &str, color: Color) -> (r: String)
    ensures
        r@ == styled_spec(text@, color),
{
    let mut out = color.ansi();
    out.append(text);
    out.append(Color::Reset.code());
    out
}

} // verus!
