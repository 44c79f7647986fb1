//! The speech bubble of a talking cow.

use unicode_width::UnicodeWidthStr;
use vstd::prelude::*;

verus! {

/// The number of columns that a text takes on a terminal.
pub uninterp spec fn display_width(text: Seq<char>) -> nat;

/// Asks `UnicodeWidthStr::width` for the number of columns of `text`. It
/// is computed from the codepoints of the text and tables of the crate.
#[verifier::external_body]
fn width(text: &str) -> (columns: usize)
    ensures
        columns == display_width(text@),
{
    UnicodeWidthStr::width(text)
}

/// `count` times the codepoint `ch`.
pub open spec fn repeated(ch: char, count: nat) -> Seq<char> {
    Seq::new(count, |i: int| ch)
}

/// A line of `count` times `ch` behind two spaces.
pub open spec fn rule(ch: char, count: nat) -> Seq<char> {
    seq![' ', ' '] + repeated(ch, count)
}

/// The three lines of the bubble around `text`: a line of underscores as
/// wide as the text is on a terminal, the text between `<` and `>`, and a
/// line of hyphens of the same width.
pub open spec fn bubble(text: Seq<char>) -> Seq<Seq<char>> {
    seq![
        rule('_', display_width(text)),
        seq!['<', ' '] + text + seq![' ', '>'],
        rule('-', display_width(text)),
    ]
}

fn rule_line(ch: char, count: usize) -> (line: String)
    ensures
        line@ == rule(ch, count as nat),
{
    let mut line = String::new();
    line.push(' ');
    line.push(' ');
    let mut i: usize = 0;
    while i < count
        invariant
            i <= count,
            line@ == rule(ch, i as nat),
        decreases count - i,
    {
        line.push(ch);
        i += 1;
        assert(line@ =~= rule(ch, i as nat));
    }
    line
}

/// The lines of the bubble around `text`.
pub fn callout(text: &str) -> (lines: Vec<String>)
    ensures
        lines@.len() == 3,
        forall|i: int| 0 <= i < 3 ==> (#[trigger] lines@[i])@ == bubble(text@)[i],
{
    let width = width(text);
    let mut middle = String::new();
    middle.push('<');
    middle.push(' ');
    middle.push_str(text);
    middle.push(' ');
    middle.push('>');
    assert(middle@ =~= seq!['<', ' '] + text@ + seq![' ', '>']);
    let mut lines: Vec<String> = Vec::new();
    lines.push(rule_line('_', width));
    lines.push(middle);
    lines.push(rule_line('-', width));
    lines
}

} // verus!
