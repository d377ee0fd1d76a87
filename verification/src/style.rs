//! The one trusted boundary: styling a token for terminal display.

use crate::matcher::wraps;
use colored::Colorize;
use vstd::prelude::*;

verus! {

/// Relies on colored's `Colorize` builders (`underline`, `red`, `bold`) and on
/// the `Display` impl of `ColoredString`: when colouring is disabled the
/// output is the input itself, and when it is enabled the output is the input
/// between a style prefix and a reset suffix. An input without an escape
/// character is written through verbatim either way, so the result always
/// holds the input as one contiguous substring.
#[verifier::external_body]
pub(crate) fn style_marker(s: &str) -> (r: String)
    requires
        forall|i: int| 0 <= i < s@.len() ==> s@[i] != '\u{1b}',
    ensures
        wraps(r@, s@),
{
    s.underline().red().bold().to_string()
}

} // verus!
