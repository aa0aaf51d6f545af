//! Terminal colours. Whether text is coloured at all is for the terminal and
//! the environment to say; either way the text itself is in what comes back.

use vstd::prelude::*;
use colored::Colorize;

verus! {

/// The character that begins every colour sequence.
pub const ESCAPE: char = '\u{1b}';

/// The sequence that switches colours off again.
pub const RESET: &'static str = "\u{1b}[0m";

/// The sequence that switches red on.
pub const RED_ON: &'static str = "\u{1b}[31m";

/// The sequence that switches green on.
pub const GREEN_ON: &'static str = "\u{1b}[32m";

/// The sequence that switches yellow on.
pub const YELLOW_ON: &'static str = "\u{1b}[33m";

/// The sequence that switches blue on.
pub const BLUE_ON: &'static str = "\u{1b}[34m";

/// The text holds no escape character, so no colour sequence of its own.
pub open spec fn holds_no_escape(text: Seq<char>) -> bool {
    forall|i: int| 0 <= i < text.len() ==> text[i] != ESCAPE
}

/// `shown` is `text` as it comes back painted: the text as it is where colours
/// are off, the text between the colour's sequence and the reset sequence where
/// they are on, and the text followed by the reset sequence where they are
/// switched off while the text is being painted.
pub open spec fn painted(text: Seq<char>, on: Seq<char>, shown: Seq<char>) -> bool {
    ||| shown == text
    ||| shown == on + text + RESET@
    ||| shown == text + RESET@
}

/// `shown` is `text` painted, as far as anything is known of it: text that
/// holds escape characters of its own may come back changed inside.
pub open spec fn tinted(text: Seq<char>, on: Seq<char>, shown: Seq<char>) -> bool {
    holds_no_escape(text) ==> painted(text, on, shown)
}

/// `colored::Colorize::green`, rendered. Trusted: text without escape
/// characters comes back as it is or between the green and the reset sequence,
/// or followed by the reset sequence alone; which, the environment decides.
#[verifier::external_body]
pub(crate) fn green(text: &str) -> (shown: String)
    ensures
        tinted(text@, GREEN_ON@, shown@),
{
    text.green().to_string()
}

/// `colored::Colorize::blue`, rendered. Trusted: text without escape
/// characters comes back as it is or between the blue and the reset sequence,
/// or followed by the reset sequence alone; which, the environment decides.
#[verifier::external_body]
pub(crate) fn blue(text: &str) -> (shown: String)
    ensures
        tinted(text@, BLUE_ON@, shown@),
{
    text.blue().to_string()
}

/// `colored::Colorize::red`, rendered. Trusted: text without escape
/// characters comes back as it is or between the red and the reset sequence,
/// or followed by the reset sequence alone; which, the environment decides.
#[verifier::external_body]
pub(crate) fn red(text: &str) -> (shown: String)
    ensures
        tinted(text@, RED_ON@, shown@),
{
    text.red().to_string()
}

/// `colored::Colorize::yellow`, rendered. Trusted: text without escape
/// characters comes back as it is or between the yellow and the reset
/// sequence, or followed by the reset sequence alone; which, the environment
/// decides.
#[verifier::external_body]
pub(crate) fn yellow(text: &str) -> (shown: String)
    ensures
        tinted(text@, YELLOW_ON@, shown@),
{
    text.yellow().to_string()
}

} // verus!
