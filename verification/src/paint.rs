//! Colors of the terminal.

use vstd::prelude::*;

verus! {

/// A color of the terminal.
#[derive(Debug, Clone, Copy, PartialEq, Eq, Structural)]
pub enum Ink {
    DarkGray,
    BoldWhite,
    BoldYellow,
    Cyan,
    Green,
    Magenta,
}

/// The escape code that starts the color.
pub open spec fn ink_code(ink: Ink) -> Seq<char> {
    match ink {
        Ink::DarkGray => "\u{1b}[90m"@,
        Ink::BoldWhite => "\u{1b}[1;37m"@,
        Ink::BoldYellow => "\u{1b}[1;33m"@,
        Ink::Cyan => "\u{1b}[36m"@,
        Ink::Green => "\u{1b}[32m"@,
        Ink::Magenta => "\u{1b}[35m"@,
    }
}

/// A text in color: the escape code, the text, and the code that ends it.
pub open spec fn painted(ink: Ink, s: Seq<char>) -> Seq<char> {
    ink_code(ink) + s + "\u{1b}[0m"@
}

/// Calls `nu_ansi_term::Style::paint` and writes the result out: the text
/// between the escape codes of the color.
#[verifier::external_body]
pub(crate) fn paint(ink: Ink, s: &str) -> (r: String)
    ensures
        r@ == painted(ink, s@),
{
    let style = match ink {
        Ink::DarkGray => nu_ansi_term::Color::DarkGray.normal(),
        Ink::BoldWhite => nu_ansi_term::Color::White.bold(),
        Ink::BoldYellow => nu_ansi_term::Color::Yellow.bold(),
        Ink::Cyan => nu_ansi_term::Color::Cyan.normal(),
        Ink::Green => nu_ansi_term::Color::Green.normal(),
        Ink::Magenta => nu_ansi_term::Color::Magenta.normal(),
    };
    style.paint(s).to_string()
}

} // verus!
