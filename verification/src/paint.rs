//! Colouring text for a terminal.

use colored::Colorize;
use vstd::prelude::*;

verus! {

/// The colours of paths and line numbers.
#[derive(Debug, PartialEq, Eq, Clone, Copy, Structural)]
pub enum Color {
    Cyan,
    BrightBlue,
    Yellow,
}

/// The escape sequence that switches a colour on.
pub open spec fn color_code(color: Color) -> Seq<char> {
    match color {
        Color::Cyan => seq!['\u{1b}', '[', '3', '6', 'm'],
        Color::BrightBlue => seq!['\u{1b}', '[', '9', '4', 'm'],
        Color::Yellow => seq!['\u{1b}', '[', '3', '3', 'm'],
    }
}

/// The escape sequence that switches the style of a match on: bold and red.
pub open spec fn match_code() -> Seq<char> {
    seq!['\u{1b}', '[', '1', ';', '3', '1', 'm']
}

/// The escape sequence that switches every style off.
pub open spec fn reset_code() -> Seq<char> {
    seq!['\u{1b}', '[', '0', 'm']
}

/// A text with `code` put behind each escape sequence in it that switches every style off.
pub open spec fn reopened(text: Seq<char>, code: Seq<char>) -> Seq<char>
    decreases text.len(),
{
    if text.len() == 0 {
        text
    } else if reset_code().is_prefix_of(text) {
        reset_code() + code + reopened(text.skip(4), code)
    } else {
        seq![text[0]] + reopened(text.skip(1), code)
    }
}

/// A text between the escape sequences of a style. `opened` tells whether the sequence that
/// switches the style on is there, `repaired` whether it is also repeated behind each sequence
/// in the text that would end the style early.
pub open spec fn styled(text: Seq<char>, code: Seq<char>, opened: bool, repaired: bool) -> Seq<
    char,
> {
    (if opened {
        code
    } else {
        seq![]
    }) + (if repaired {
        reopened(text, code)
    } else {
        text
    }) + reset_code()
}

/// The switch of the whole process that decides whether texts are coloured. The environment and the
/// terminal set it, and the program may turn it at any time.
#[derive(Debug, PartialEq, Eq, Clone, Copy, Structural)]
pub enum Switch {
    /// It stays off.
    Off,
    /// It stays on.
    On,
    /// It may be turned between one look at it and the next.
    Turning,
}

/// The state of the switch that all painting shares.
///
/// It may be turned, and no more than that is claimed of it. No other module sees which state this
/// is, so whatever is proved there is proved of a switch that stays on, one that stays off and one
/// that turns alike: a report has every piece painted under the one state, and a piece that was
/// never painted is none.
pub closed spec fn process_switch() -> Switch {
    Switch::Turning
}

/// Whether `out` is what painting makes of a text in a style: the bare text while the switch is
/// off, and the text between the sequences of the style while it is on.
pub open spec fn is_painting(
    text: Seq<char>,
    code: Seq<char>,
    switch: Switch,
    out: Seq<char>,
) -> bool {
    match switch {
        Switch::Off => out == text,
        Switch::On => out == styled(text, code, true, true),
        Switch::Turning => {
            ||| out == text
            ||| exists|opened: bool, repaired: bool|
                out == #[trigger] styled(text, code, opened, repaired)
        },
    }
}

/// Calls `Colorize::color` of the crate `colored` and prints the result. The crate prints the bare
/// text while its process-wide switch is off. While it is on, it prints the sequence of the colour,
/// the text with that sequence repeated behind each inner reset, and a reset. It reads the switch
/// again for the first of these parts and for the second.
#[verifier::external_body]
pub(crate) fn paint(text: &str, color: Color) -> (r: String)
    ensures
        is_painting(text@, color_code(color), process_switch(), r@),
{
    let color = match color {
        Color::Cyan => colored::Color::Cyan,
        Color::BrightBlue => colored::Color::BrightBlue,
        Color::Yellow => colored::Color::Yellow,
    };
    text.color(color).to_string()
}

/// Calls `Colorize::red` and `Colorize::bold` of the crate `colored` and prints the result, as for
/// a colour, with the sequence for both.
#[verifier::external_body]
pub(crate) fn paint_match(text: &str) -> (r: String)
    ensures
        is_painting(text@, match_code(), process_switch(), r@),
{
    text.red().bold().to_string()
}

/// A text without escape sequences is not changed between the sequences of its style.
pub proof fn lemma_nothing_reopened(text: Seq<char>, code: Seq<char>)
    requires
        !text.contains('\u{1b}'),
    ensures
        reopened(text, code) == text,
    decreases text.len(),
{
    if text.len() > 0 {
        let rest = text.skip(1);
        assert(text.contains(text[0]));
        assert(reset_code()[0] == '\u{1b}');
        if reset_code().is_prefix_of(text) {
            assert(text.subrange(0, 4)[0] == text[0]);
        }
        assert forall|i: int| 0 <= i < rest.len() implies rest[i] != '\u{1b}' by {
            assert(text.contains(text[i + 1]));
        }
        lemma_nothing_reopened(rest, code);
        assert(seq![text[0]] + rest =~= text);
    }
}

} // verus!
