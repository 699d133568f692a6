//! Emphasis for the terminal.
//!
//! Whether emphasis shows depends on where the program runs: on the terminal,
//! on the environment, on a switch that the program may set. Painted text is
//! therefore one of two things, the text as it stands or the text between the
//! sequences that switch a style on and off, and every function that paints
//! states its result for both.

use vstd::prelude::*;
use colored::Colorize;
use crate::text::contains;

verus! {

/// The sequence that switches every style off.
pub open spec fn reset() -> Seq<char> {
    seq!['\u{1b}', '[', '0', 'm']
}

/// `text` between the sequence that switches the style `code` on and the one
/// that switches it off.
pub open spec fn styled(text: Seq<char>, code: Seq<char>) -> Seq<char> {
    seq!['\u{1b}', '['] + code + seq!['m'] + text + reset()
}

/// `shown` is `text` painted in the style `code`: the text as it stands where
/// emphasis is off, the styled text where it is on. Of text that itself
/// switches styles off nothing is said.
pub open spec fn is_painted(shown: Seq<char>, text: Seq<char>, code: Seq<char>) -> bool {
    contains(text, reset()) || shown == text || shown == styled(text, code)
}

/// The style of a tag: cyan.
pub open spec fn tag_style() -> Seq<char> {
    seq!['3', '6']
}

/// The style of what a search found, and of a weekday: purple.
pub open spec fn match_style() -> Seq<char> {
    seq!['3', '5']
}

/// The style of a highlighted day: bold green.
pub open spec fn day_style() -> Seq<char> {
    seq!['1', ';', '3', '2']
}

/// The style of the month and the year above a calendar: bold, underlined cyan.
pub open spec fn month_style() -> Seq<char> {
    seq!['1', ';', '4', ';', '3', '6']
}

/// The style of the weekday names above a calendar: bright yellow.
pub open spec fn header_style() -> Seq<char> {
    seq!['9', '3']
}

/// The style of the date above an entry: bold, underlined yellow.
pub open spec fn title_style() -> Seq<char> {
    seq!['1', ';', '4', ';', '3', '3']
}

/// Trusted: `Colorize::cyan`, shown as text. The crate writes the text as
/// it stands where colours are off, and between `ESC[36m` and `ESC[0m` where
/// they are on; inside text that itself holds `ESC[0m` it writes more.
#[verifier::external_body]
pub(crate) fn cyan(text: &str) -> (shown: String)
    ensures
        is_painted(shown@, text@, tag_style()),
{
    text.cyan().to_string()
}

/// Trusted: `Colorize::purple`, shown as text: the text as it stands, or
/// between `ESC[35m` and `ESC[0m`.
#[verifier::external_body]
pub(crate) fn purple(text: &str) -> (shown: String)
    ensures
        is_painted(shown@, text@, match_style()),
{
    text.purple().to_string()
}

/// Trusted: `Colorize::green` and `Colorize::bold`, shown as text: the text
/// as it stands, or between `ESC[1;32m` and `ESC[0m`.
#[verifier::external_body]
pub(crate) fn green_bold(text: &str) -> (shown: String)
    ensures
        is_painted(shown@, text@, day_style()),
{
    text.green().bold().to_string()
}

/// Trusted: `Colorize::cyan`, `Colorize::bold` and `Colorize::underline`,
/// shown as text: the text as it stands, or between `ESC[1;4;36m` and
/// `ESC[0m`.
#[verifier::external_body]
pub(crate) fn cyan_bold_underline(text: &str) -> (shown: String)
    ensures
        is_painted(shown@, text@, month_style()),
{
    text.cyan().bold().underline().to_string()
}

/// Trusted: `Colorize::bright_yellow`, shown as text: the text as it stands,
/// or between `ESC[93m` and `ESC[0m`.
#[verifier::external_body]
pub(crate) fn bright_yellow(text: &str) -> (shown: String)
    ensures
        is_painted(shown@, text@, header_style()),
{
    text.bright_yellow().to_string()
}

/// Trusted: `Colorize::bold`, `Colorize::yellow` and `Colorize::underline`,
/// shown as text: the text as it stands, or between `ESC[1;4;33m` and
/// `ESC[0m`.
#[verifier::external_body]
pub(crate) fn bold_yellow_underline(text: &str) -> (shown: String)
    ensures
        is_painted(shown@, text@, title_style()),
{
    text.bold().yellow().underline().to_string()
}

} // verus!
