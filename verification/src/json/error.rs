use vstd::prelude::*;

verus! {

/// What the parser was looking for when it met a codepoint it could not use.
#[derive(Debug, Clone, Copy, PartialEq, Eq, Structural)]
pub enum Expected {
    /// The first codepoint of a value: `"`, `-`, a digit, `{`, `[`, `t`, `f` or `n`.
    ValueStart,
    /// An ASCII decimal digit, or a hexadecimal digit inside a `\u` escape.
    Digit,
    /// The sign that must follow the `e` of an exponent.
    Sign,
    /// `,` or `}` after an object member.
    CommaOrBrace,
    /// `,` or `]` after an array element.
    CommaOrBracket,
    /// One of the codepoints that may follow a backslash.
    Escape,
    /// Exactly this codepoint.
    Symbol(char),
    /// The end of the input.
    Eof,
}

/// The first violation of the grammar met while parsing.
#[derive(Debug, Clone, Copy, PartialEq, Eq, Structural)]
pub enum JsonError {
    /// A codepoint other than the ones the grammar allows at this point.
    UnexpectedChar { got: char, wanted: Expected },
    /// The input ended in the middle of a value.
    UnexpectedEof,
    /// A `\u` escape, or a combined surrogate pair, that is no scalar value.
    BadCodePoint { value: u32 },
    /// A high surrogate that is not followed by a low surrogate escape.
    /// `low` is the value of the escape that followed, or `None` when what
    /// followed does not begin with `\u`.
    BadSurrogatePair { high: u32, low: Option<u32> },
}

} // verus!
