//! Text with terminal colours and weights.

use owo_colors::OwoColorize;
use vstd::prelude::*;

verus! {

/// A text in bold: switched on before it, all styles switched off after it.
pub open spec fn in_bold(text: Seq<char>) -> Seq<char> {
    "\x1b[1m"@ + text + "\x1b[0m"@
}

/// A text dimmed: switched on before it, all styles switched off after it.
pub open spec fn in_dim(text: Seq<char>) -> Seq<char> {
    "\x1b[2m"@ + text + "\x1b[0m"@
}

/// A text in red, with the default colour after it.
pub open spec fn in_red(text: Seq<char>) -> Seq<char> {
    "\x1b[31m"@ + text + "\x1b[39m"@
}

/// A text in green, with the default colour after it.
pub open spec fn in_green(text: Seq<char>) -> Seq<char> {
    "\x1b[32m"@ + text + "\x1b[39m"@
}

/// What `owo_colors::OwoColorize::bold` shows of a text: the escape sequence
/// for bold, the text as it is, and the escape sequence that ends all styles.
#[verifier::external_body]
pub(crate) fn bold(text: &str) -> (styled: String)
    ensures
        styled@ == in_bold(text@),
{
    text.bold().to_string()
}

/// What `owo_colors::OwoColorize::dimmed` shows of a text: the escape sequence
/// for dim, the text as it is, and the escape sequence that ends all styles.
#[verifier::external_body]
pub(crate) fn dimmed(text: &str) -> (styled: String)
    ensures
        styled@ == in_dim(text@),
{
    text.dimmed().to_string()
}

/// What `owo_colors::OwoColorize::red` shows of a text: the escape sequence
/// for red, the text as it is, and the escape sequence for the default colour.
#[verifier::external_body]
pub(crate) fn red(text: &str) -> (styled: String)
    ensures
        styled@ == in_red(text@),
{
    text.red().to_string()
}

/// What `owo_colors::OwoColorize::green` shows of a text: the escape sequence
/// for green, the text as it is, and the escape sequence for the default colour.
#[verifier::external_body]
pub(crate) fn green(text: &str) -> (styled: String)
    ensures
        styled@ == in_green(text@),
{
    text.green().to_string()
}

} // verus!
