//! The JSON grammar as functions on sequences of codepoints.
//!
//! Each function takes the codepoints that are still to be read and gives
//! either what it recognised together with the codepoints that follow it, or
//! the first violation it met.

use super::error::{Expected, JsonError};
use super::value::JsonValue;
use vstd::prelude::*;

verus! {

/// What a grammar rule makes of its input.
pub enum Parsed<T> {
    /// The rule recognised `value`; `rest` follows it in the input.
    Done { value: T, rest: Seq<char> },
    /// The input violates the grammar.
    Fail { error: JsonError },
}

pub open spec fn is_white_space(ch: char) -> bool {
    ch == ' ' || ch == '\t' || ch == '\n' || ch == '\r'
}

pub open spec fn is_digit(ch: char) -> bool {
    '0' <= ch <= '9'
}

pub open spec fn is_hex_digit(ch: char) -> bool {
    '0' <= ch <= '9' || 'a' <= ch <= 'f' || 'A' <= ch <= 'F'
}

/// The number that a hexadecimal digit stands for.
pub open spec fn hex_value(ch: char) -> int {
    if '0' <= ch <= '9' {
        ch as int - '0' as int
    } else if 'a' <= ch <= 'f' {
        ch as int - 'a' as int + 10
    } else {
        ch as int - 'A' as int + 10
    }
}

/// Whether `value` is a Unicode scalar value, that is a codepoint other
/// than a surrogate.
pub open spec fn is_scalar_value(value: int) -> bool {
    0 <= value <= 0xD7FF || 0xE000 <= value <= 0x10FFFF
}

pub open spec fn is_high_surrogate(value: int) -> bool {
    0xD800 <= value <= 0xDBFF
}

pub open spec fn is_low_surrogate(value: int) -> bool {
    0xDC00 <= value <= 0xDFFF
}

/// The codepoint that a surrogate pair encodes.
pub open spec fn combine_surrogates(high: int, low: int) -> int {
    0x10000 + (high - 0xD800) * 0x400 + (low - 0xDC00)
}

/// The input without its leading white space.
pub open spec fn skip_white_spaces(s: Seq<char>) -> Seq<char>
    decreases s.len(),
{
    if s.len() > 0 && is_white_space(s[0]) {
        skip_white_spaces(s.drop_first())
    } else {
        s
    }
}

/// Consumes exactly the codepoints of `expected`.
pub open spec fn skip_str(s: Seq<char>, expected: Seq<char>) -> Parsed<()>
    decreases expected.len(),
{
    if expected.len() == 0 {
        Parsed::Done { value: (), rest: s }
    } else if s.len() == 0 {
        Parsed::Fail { error: JsonError::UnexpectedEof }
    } else if s[0] != expected[0] {
        Parsed::Fail {
            error: JsonError::UnexpectedChar { got: s[0], wanted: Expected::Symbol(expected[0]) },
        }
    } else {
        skip_str(s.drop_first(), expected.drop_first())
    }
}

/// Zero or more digits, appended to `text`.
pub open spec fn more_digits(s: Seq<char>, text: Seq<char>) -> Parsed<Seq<char>>
    decreases s.len(),
{
    if s.len() > 0 && is_digit(s[0]) {
        more_digits(s.drop_first(), text.push(s[0]))
    } else {
        Parsed::Done { value: text, rest: s }
    }
}

/// One or more digits, appended to `text`.
pub open spec fn digits(s: Seq<char>, text: Seq<char>) -> Parsed<Seq<char>> {
    if s.len() == 0 {
        Parsed::Fail { error: JsonError::UnexpectedEof }
    } else if !is_digit(s[0]) {
        Parsed::Fail { error: JsonError::UnexpectedChar { got: s[0], wanted: Expected::Digit } }
    } else {
        more_digits(s.drop_first(), text.push(s[0]))
    }
}

/// The optional fraction of a number: a point and one or more digits.
pub open spec fn fraction(s: Seq<char>, text: Seq<char>) -> Parsed<Seq<char>> {
    if s.len() > 0 && s[0] == '.' {
        digits(s.drop_first(), text.push('.'))
    } else {
        Parsed::Done { value: text, rest: s }
    }
}

/// The integer part of a number, a single `0` or digits that begin with
/// 1 to 9, and the fraction that may follow it.
pub open spec fn integer_and_fraction(s: Seq<char>, text: Seq<char>) -> Parsed<Seq<char>> {
    if s.len() == 0 {
        Parsed::Fail { error: JsonError::UnexpectedEof }
    } else if s[0] == '0' {
        fraction(s.drop_first(), text.push('0'))
    } else if is_digit(s[0]) {
        match digits(s, text) {
            Parsed::Done { value, rest } => fraction(rest, value),
            Parsed::Fail { error } => Parsed::Fail { error },
        }
    } else {
        Parsed::Fail { error: JsonError::UnexpectedChar { got: s[0], wanted: Expected::Digit } }
    }
}

/// The optional exponent of a number: `e` or `E`, a sign that may not be
/// left out, and one or more digits. The mark is recorded as `e`.
pub open spec fn exponent(s: Seq<char>, text: Seq<char>) -> Parsed<Seq<char>> {
    if s.len() > 0 && (s[0] == 'e' || s[0] == 'E') {
        if s.len() == 1 {
            Parsed::Fail { error: JsonError::UnexpectedEof }
        } else if s[1] == '-' || s[1] == '+' {
            digits(s.skip(2), text.push('e').push(s[1]))
        } else {
            Parsed::Fail { error: JsonError::UnexpectedChar { got: s[1], wanted: Expected::Sign } }
        }
    } else {
        Parsed::Done { value: text, rest: s }
    }
}

/// The text of a number literal: an optional `-`, the integer part, an
/// optional fraction and an optional exponent.
pub open spec fn number_text(s: Seq<char>) -> Parsed<Seq<char>> {
    let signed = s.len() > 0 && s[0] == '-';
    let body = if signed {
        integer_and_fraction(s.drop_first(), seq!['-'])
    } else {
        integer_and_fraction(s, Seq::empty())
    };
    match body {
        Parsed::Done { value, rest } => exponent(rest, value),
        Parsed::Fail { error } => Parsed::Fail { error },
    }
}

/// `count` hexadecimal digits, read as a number that continues `value`.
pub open spec fn hex_digits(s: Seq<char>, count: nat, value: int) -> Parsed<int>
    decreases count,
{
    if count == 0 {
        Parsed::Done { value, rest: s }
    } else if s.len() == 0 {
        Parsed::Fail { error: JsonError::UnexpectedEof }
    } else if !is_hex_digit(s[0]) {
        Parsed::Fail { error: JsonError::UnexpectedChar { got: s[0], wanted: Expected::Digit } }
    } else {
        hex_digits(s.drop_first(), (count - 1) as nat, value * 16 + hex_value(s[0]))
    }
}

/// The four hexadecimal digits of a `\u` escape, as a 16-bit value.
pub open spec fn code_point_digits(s: Seq<char>) -> Parsed<int> {
    hex_digits(s, 4, 0)
}

/// The codepoint of number `value`, if it is a scalar value.
pub open spec fn scalar(value: int, rest: Seq<char>) -> Parsed<char> {
    if is_scalar_value(value) {
        Parsed::Done { value: value as char, rest }
    } else {
        Parsed::Fail { error: JsonError::BadCodePoint { value: value as u32 } }
    }
}

/// The low half that must follow a high surrogate: another `\u` escape with
/// a value in the low surrogate range.
pub open spec fn low_surrogate(s: Seq<char>, high: int) -> Parsed<char> {
    if s.len() == 0 {
        Parsed::Fail { error: JsonError::UnexpectedEof }
    } else if s[0] != '\\' {
        Parsed::Fail { error: JsonError::BadSurrogatePair { high: high as u32, low: None } }
    } else if s.len() == 1 {
        Parsed::Fail { error: JsonError::UnexpectedEof }
    } else if s[1] != 'u' {
        Parsed::Fail { error: JsonError::BadSurrogatePair { high: high as u32, low: None } }
    } else {
        match code_point_digits(s.skip(2)) {
            Parsed::Done { value: low, rest } => if is_low_surrogate(low) {
                scalar(combine_surrogates(high, low), rest)
            } else {
                Parsed::Fail {
                    error: JsonError::BadSurrogatePair {
                        high: high as u32,
                        low: Some(low as u32),
                    },
                }
            },
            Parsed::Fail { error } => Parsed::Fail { error },
        }
    }
}

/// What follows `\u`: four hexadecimal digits and, if they are a high
/// surrogate, the escape of the low surrogate that completes the pair.
pub open spec fn code_point(s: Seq<char>) -> Parsed<char> {
    match code_point_digits(s) {
        Parsed::Done { value: high, rest } => if is_high_surrogate(high) {
            low_surrogate(rest, high)
        } else {
            scalar(high, rest)
        },
        Parsed::Fail { error } => Parsed::Fail { error },
    }
}

/// What follows a backslash inside a string.
pub open spec fn escaped_char(s: Seq<char>) -> Parsed<char> {
    if s.len() == 0 {
        Parsed::Fail { error: JsonError::UnexpectedEof }
    } else {
        let rest = s.drop_first();
        if s[0] == '"' {
            Parsed::Done { value: '"', rest }
        } else if s[0] == '\\' {
            Parsed::Done { value: '\\', rest }
        } else if s[0] == '/' {
            Parsed::Done { value: '/', rest }
        } else if s[0] == 'b' {
            Parsed::Done { value: '\x08', rest }
        } else if s[0] == 'f' {
            Parsed::Done { value: '\x0C', rest }
        } else if s[0] == 'n' {
            Parsed::Done { value: '\x0A', rest }
        } else if s[0] == 'r' {
            Parsed::Done { value: '\x0D', rest }
        } else if s[0] == 't' {
            Parsed::Done { value: '\x09', rest }
        } else if s[0] == 'u' {
            code_point(rest)
        } else {
            Parsed::Fail {
                error: JsonError::UnexpectedChar { got: s[0], wanted: Expected::Escape },
            }
        }
    }
}

/// The inside of a string up to and with its closing quote, appended to
/// `text`.
pub open spec fn string_tail(s: Seq<char>, text: Seq<char>) -> Parsed<Seq<char>>
    decreases s.len(),
{
    if s.len() == 0 {
        Parsed::Fail { error: JsonError::UnexpectedEof }
    } else if s[0] == '"' {
        Parsed::Done { value: text, rest: s.drop_first() }
    } else if s[0] == '\\' {
        match escaped_char(s.drop_first()) {
            Parsed::Done { value, rest } => {
                proof {
                    lemma_escaped_char_consumes(s.drop_first());
                }
                string_tail(rest, text.push(value))
            },
            Parsed::Fail { error } => Parsed::Fail { error },
        }
    } else {
        string_tail(s.drop_first(), text.push(s[0]))
    }
}

/// The text of a string: a quote, then codepoints and escapes up to the
/// closing quote.
pub open spec fn string_text(s: Seq<char>) -> Parsed<Seq<char>> {
    if s.len() == 0 {
        Parsed::Fail { error: JsonError::UnexpectedEof }
    } else if s[0] != '"' {
        Parsed::Fail {
            error: JsonError::UnexpectedChar { got: s[0], wanted: Expected::Symbol('"') },
        }
    } else {
        string_tail(s.drop_first(), Seq::empty())
    }
}

/// A string.
pub open spec fn string(s: Seq<char>) -> Parsed<JsonValue> {
    match string_text(s) {
        Parsed::Done { value, rest } => Parsed::Done { value: JsonValue::String(value), rest },
        Parsed::Fail { error } => Parsed::Fail { error },
    }
}

/// A number. Its value is the text of the literal.
pub open spec fn number(s: Seq<char>) -> Parsed<JsonValue> {
    match number_text(s) {
        Parsed::Done { value, rest } => Parsed::Done { value: JsonValue::Number(value), rest },
        Parsed::Fail { error } => Parsed::Fail { error },
    }
}

/// One of the words `true`, `false` and `null`, which stands for `value`.
pub open spec fn literal(s: Seq<char>, word: Seq<char>, value: JsonValue) -> Parsed<JsonValue> {
    match skip_str(s, word) {
        Parsed::Done { value: _, rest } => Parsed::Done { value, rest },
        Parsed::Fail { error } => Parsed::Fail { error },
    }
}

/// A value, chosen by its first codepoint.
pub open spec fn value(s: Seq<char>) -> Parsed<JsonValue>
    decreases s.len(), 1nat,
{
    if s.len() == 0 {
        Parsed::Fail { error: JsonError::UnexpectedEof }
    } else if s[0] == '"' {
        string(s)
    } else if s[0] == '-' || is_digit(s[0]) {
        number(s)
    } else if s[0] == '{' {
        object(s)
    } else if s[0] == '[' {
        array(s)
    } else if s[0] == 't' {
        literal(s, "true"@, JsonValue::Boolean(true))
    } else if s[0] == 'f' {
        literal(s, "false"@, JsonValue::Boolean(false))
    } else if s[0] == 'n' {
        literal(s, "null"@, JsonValue::Null)
    } else {
        Parsed::Fail {
            error: JsonError::UnexpectedChar { got: s[0], wanted: Expected::ValueStart },
        }
    }
}

/// What must follow an element of an array or a member of an object: a
/// comma, or the bracket `close` that ends the collection.
pub enum Follow {
    /// A comma, with what comes after it.
    More { rest: Seq<char> },
    /// The closing bracket, with what comes after it.
    End { rest: Seq<char> },
    Fail { error: JsonError },
}

pub open spec fn follow(s: Seq<char>, close: char, wanted: Expected) -> Follow {
    if s.len() == 0 {
        Follow::Fail { error: JsonError::UnexpectedEof }
    } else if s[0] == ',' {
        Follow::More { rest: s.drop_first() }
    } else if s[0] == close {
        Follow::End { rest: s.drop_first() }
    } else {
        Follow::Fail { error: JsonError::UnexpectedChar { got: s[0], wanted } }
    }
}

/// An array: `[`, then values with commas between them, then `]`.
pub open spec fn array(s: Seq<char>) -> Parsed<JsonValue>
    decreases s.len(), 0nat,
{
    if s.len() == 0 {
        Parsed::Fail { error: JsonError::UnexpectedEof }
    } else if s[0] != '[' {
        Parsed::Fail {
            error: JsonError::UnexpectedChar { got: s[0], wanted: Expected::Symbol('[') },
        }
    } else {
        match array_items(s.drop_first(), Seq::empty()) {
            Parsed::Done { value, rest } => Parsed::Done { value: JsonValue::Array(value), rest },
            Parsed::Fail { error } => Parsed::Fail { error },
        }
    }
}

/// The elements of an array after its `[` or after a `,`, up to and with the
/// closing `]`, appended to `items`.
///
/// An element takes at least one codepoint, so what follows it is shorter
/// than `s`. The definition tests that before it goes on, which lets it be
/// seen to end; [`lemma_value_consumes`] shows that the test never fails.
pub open spec fn array_items(s: Seq<char>, items: Seq<JsonValue>) -> Parsed<Seq<JsonValue>>
    decreases s.len(), 2nat,
{
    let start = skip_white_spaces(s);
    proof {
        lemma_skip_white_spaces_suffix(s);
    }
    match value(start) {
        Parsed::Done { value: item, rest } => {
            match follow(skip_white_spaces(rest), ']', Expected::CommaOrBracket) {
                Follow::More { rest } => if rest.len() < s.len() {
                    array_items(rest, items.push(item))
                } else {
                    Parsed::Fail { error: JsonError::UnexpectedEof }
                },
                Follow::End { rest } => Parsed::Done { value: items.push(item), rest },
                Follow::Fail { error } => Parsed::Fail { error },
            }
        },
        Parsed::Fail { error } => Parsed::Fail { error },
    }
}

/// An object: `{`, then members with commas between them, then `}`.
pub open spec fn object(s: Seq<char>) -> Parsed<JsonValue>
    decreases s.len(), 0nat,
{
    if s.len() == 0 {
        Parsed::Fail { error: JsonError::UnexpectedEof }
    } else if s[0] != '{' {
        Parsed::Fail {
            error: JsonError::UnexpectedChar { got: s[0], wanted: Expected::Symbol('{') },
        }
    } else {
        match object_members(s.drop_first(), Map::empty()) {
            Parsed::Done { value, rest } => Parsed::Done { value: JsonValue::Object(value), rest },
            Parsed::Fail { error } => Parsed::Fail { error },
        }
    }
}

/// The key of a member and the colon after it, with white space around
/// both.
pub open spec fn member_key(s: Seq<char>) -> Parsed<Seq<char>> {
    match string_text(skip_white_spaces(s)) {
        Parsed::Done { value: key, rest } => {
            match skip_str(skip_white_spaces(rest), seq![':']) {
                Parsed::Done { value: _, rest } => Parsed::Done {
                    value: key,
                    rest: skip_white_spaces(rest),
                },
                Parsed::Fail { error } => Parsed::Fail { error },
            }
        },
        Parsed::Fail { error } => Parsed::Fail { error },
    }
}

/// The members of an object after its `{` or after a `,`, up to and with the
/// closing `}`, added to `members`. A key that is already there gets the
/// new value.
///
/// As in [`array_items`], the tests of lengths never fail.
pub open spec fn object_members(s: Seq<char>, members: Map<Seq<char>, JsonValue>) -> Parsed<
    Map<Seq<char>, JsonValue>,
>
    decreases s.len(), 2nat,
{
    match member_key(s) {
        Parsed::Done { value: key, rest: start } => {
            proof {
                lemma_member_key_consumes(s);
            }
            match value(start) {
                Parsed::Done { value: member, rest } => {
                    match follow(skip_white_spaces(rest), '}', Expected::CommaOrBrace) {
                        Follow::More { rest } => if rest.len() < s.len() {
                            object_members(rest, members.insert(key, member))
                        } else {
                            Parsed::Fail { error: JsonError::UnexpectedEof }
                        },
                        Follow::End { rest } => Parsed::Done {
                            value: members.insert(key, member),
                            rest,
                        },
                        Follow::Fail { error } => Parsed::Fail { error },
                    }
                },
                Parsed::Fail { error } => Parsed::Fail { error },
            }
        },
        Parsed::Fail { error } => Parsed::Fail { error },
    }
}

/// A whole document: one value with white space around it and nothing else.
pub open spec fn document(s: Seq<char>) -> Result<JsonValue, JsonError> {
    match value(skip_white_spaces(s)) {
        Parsed::Done { value, rest } => {
            let after = skip_white_spaces(rest);
            if after.len() == 0 {
                Ok(value)
            } else {
                Err(JsonError::UnexpectedChar { got: after[0], wanted: Expected::Eof })
            }
        },
        Parsed::Fail { error } => Err(error),
    }
}

/// The white space at the head of the input is all that is skipped.
pub proof fn lemma_skip_white_spaces_suffix(s: Seq<char>)
    ensures
        skip_white_spaces(s).len() <= s.len(),
        skip_white_spaces(s) == s.skip(s.len() - skip_white_spaces(s).len()),
    decreases s.len(),
{
    if s.len() > 0 && is_white_space(s[0]) {
        lemma_skip_white_spaces_suffix(s.drop_first());
        let rest = skip_white_spaces(s);
        assert(rest =~= s.skip(s.len() - rest.len()));
    } else {
        assert(s =~= s.skip(0));
    }
}

/// A suffix of a suffix is a suffix.
pub proof fn lemma_suffix_of_suffix(a: Seq<char>, b: Seq<char>, c: Seq<char>)
    requires
        is_suffix(a, b),
        is_suffix(b, c),
    ensures
        is_suffix(a, c),
{
    assert(a =~= c.skip(c.len() - a.len()));
}

/// Exact skipping takes as many codepoints as were expected.
pub proof fn lemma_skip_str_consumes(s: Seq<char>, expected: Seq<char>)
    ensures
        skip_str(s, expected) matches Parsed::Done { value: _, rest } ==> expected.len() <= s.len()
            && rest == s.skip(expected.len() as int),
    decreases expected.len(),
{
    if expected.len() == 0 {
        assert(s =~= s.skip(0));
    } else if s.len() > 0 && s[0] == expected[0] {
        lemma_skip_str_consumes(s.drop_first(), expected.drop_first());
        if skip_str(s, expected) is Done {
            assert(s.drop_first().skip(expected.len() - 1) =~= s.skip(expected.len() as int));
        }
    }
}

/// The inside of a string takes at least its closing quote.
pub proof fn lemma_string_tail_consumes(s: Seq<char>, text: Seq<char>)
    ensures
        string_tail(s, text) matches Parsed::Done { value: _, rest } ==> is_proper_suffix(rest, s),
    decreases s.len(),
{
    if s.len() > 0 {
        let tail = s.drop_first();
        assert(tail =~= s.skip(1));
        if s[0] == '"' {
        } else if s[0] == '\\' {
            lemma_escaped_char_consumes(tail);
            if let Parsed::Done { value, rest } = escaped_char(tail) {
                lemma_string_tail_consumes(rest, text.push(value));
                if let Parsed::Done { value: _, rest: last } = string_tail(rest, text.push(value)) {
                    lemma_suffix_of_suffix(last, rest, tail);
                    lemma_suffix_of_suffix(last, tail, s);
                }
            }
        } else {
            lemma_string_tail_consumes(tail, text.push(s[0]));
            if let Parsed::Done { value: _, rest: last } = string_tail(tail, text.push(s[0])) {
                lemma_suffix_of_suffix(last, tail, s);
            }
        }
    }
}

/// A string takes at least its two quotes.
pub proof fn lemma_string_consumes(s: Seq<char>)
    ensures
        string(s) matches Parsed::Done { value: _, rest } ==> is_proper_suffix(rest, s),
{
    if s.len() > 0 && s[0] == '"' {
        let tail = s.drop_first();
        assert(tail =~= s.skip(1));
        lemma_string_tail_consumes(tail, Seq::empty());
        if let Parsed::Done { value: _, rest: last } = string_tail(tail, Seq::empty()) {
            lemma_suffix_of_suffix(last, tail, s);
        }
    }
}

/// A key and its colon take at least three codepoints.
pub proof fn lemma_member_key_consumes(s: Seq<char>)
    ensures
        member_key(s) matches Parsed::Done { value: _, rest } ==> is_proper_suffix(rest, s),
{
    let start = skip_white_spaces(s);
    lemma_skip_white_spaces_suffix(s);
    lemma_string_consumes(start);
    if let Parsed::Done { value: _, rest: after_key } = string_text(start) {
        let colon = skip_white_spaces(after_key);
        lemma_skip_white_spaces_suffix(after_key);
        lemma_skip_str_consumes(colon, seq![':']);
        if let Parsed::Done { value: _, rest: after_colon } = skip_str(colon, seq![':']) {
            let last = skip_white_spaces(after_colon);
            lemma_skip_white_spaces_suffix(after_colon);
            lemma_suffix_of_suffix(after_key, start, s);
            lemma_suffix_of_suffix(colon, after_key, s);
            lemma_suffix_of_suffix(after_colon, colon, s);
            lemma_suffix_of_suffix(last, after_colon, s);
        }
    }
}

/// Whether `rest` is `s` without some of its first codepoints.
pub open spec fn is_suffix(rest: Seq<char>, s: Seq<char>) -> bool {
    rest.len() <= s.len() && rest == s.skip(s.len() - rest.len())
}

/// Whether `rest` is `s` without one or more of its first codepoints.
pub open spec fn is_proper_suffix(rest: Seq<char>, s: Seq<char>) -> bool {
    rest.len() < s.len() && rest == s.skip(s.len() - rest.len())
}

/// Digits are taken from the head of the input.
pub proof fn lemma_more_digits_consumes(s: Seq<char>, text: Seq<char>)
    ensures
        more_digits(s, text) matches Parsed::Done { value: _, rest } && is_suffix(rest, s),
    decreases s.len(),
{
    if s.len() > 0 && is_digit(s[0]) {
        lemma_more_digits_consumes(s.drop_first(), text.push(s[0]));
        let rest = more_digits(s, text)->rest;
        assert(rest =~= s.skip(s.len() - rest.len()));
    } else {
        assert(s =~= s.skip(0));
    }
}

/// One or more digits take at least one codepoint.
pub proof fn lemma_digits_consumes(s: Seq<char>, text: Seq<char>)
    ensures
        digits(s, text) matches Parsed::Done { value: _, rest } ==> is_proper_suffix(rest, s),
{
    if s.len() > 0 && is_digit(s[0]) {
        lemma_more_digits_consumes(s.drop_first(), text.push(s[0]));
        assert(s.drop_first() =~= s.skip(1));
        lemma_suffix_of_suffix(digits(s, text)->rest, s.drop_first(), s);
    }
}

pub proof fn lemma_fraction_consumes(s: Seq<char>, text: Seq<char>)
    ensures
        fraction(s, text) matches Parsed::Done { value: _, rest } ==> is_suffix(rest, s),
{
    if s.len() > 0 && s[0] == '.' {
        lemma_digits_consumes(s.drop_first(), text.push('.'));
        assert(s.drop_first() =~= s.skip(1));
        if let Parsed::Done { value: _, rest } = fraction(s, text) {
            lemma_suffix_of_suffix(rest, s.drop_first(), s);
        }
    } else {
        assert(s =~= s.skip(0));
    }
}

pub proof fn lemma_integer_and_fraction_consumes(s: Seq<char>, text: Seq<char>)
    ensures
        integer_and_fraction(s, text) matches Parsed::Done { value: _, rest } ==> is_proper_suffix(
            rest,
            s,
        ),
{
    if s.len() > 0 {
        if s[0] == '0' {
            lemma_fraction_consumes(s.drop_first(), text.push('0'));
            assert(s.drop_first() =~= s.skip(1));
            if let Parsed::Done { value: _, rest } = integer_and_fraction(s, text) {
                lemma_suffix_of_suffix(rest, s.drop_first(), s);
            }
        } else if is_digit(s[0]) {
            lemma_digits_consumes(s, text);
            if let Parsed::Done { value, rest: after } = digits(s, text) {
                lemma_fraction_consumes(after, value);
                if let Parsed::Done { value: _, rest } = fraction(after, value) {
                    lemma_suffix_of_suffix(rest, after, s);
                }
            }
        }
    }
}

pub proof fn lemma_exponent_consumes(s: Seq<char>, text: Seq<char>)
    ensures
        exponent(s, text) matches Parsed::Done { value: _, rest } ==> is_suffix(rest, s),
{
    if s.len() > 0 && (s[0] == 'e' || s[0] == 'E') {
        if s.len() > 1 && (s[1] == '-' || s[1] == '+') {
            lemma_digits_consumes(s.skip(2), text.push('e').push(s[1]));
            if let Parsed::Done { value: _, rest } = exponent(s, text) {
                lemma_suffix_of_suffix(rest, s.skip(2), s);
            }
        }
    } else {
        assert(s =~= s.skip(0));
    }
}

/// A number takes at least one digit.
pub proof fn lemma_number_consumes(s: Seq<char>)
    ensures
        number_text(s) matches Parsed::Done { value: _, rest } ==> is_proper_suffix(rest, s),
{
    let signed = s.len() > 0 && s[0] == '-';
    let body = if signed { s.drop_first() } else { s };
    let sign = if signed { seq!['-'] } else { Seq::empty() };
    assert(body =~= s.skip(s.len() - body.len()));
    lemma_integer_and_fraction_consumes(body, sign);
    if let Parsed::Done { value: whole, rest: after_body } = integer_and_fraction(body, sign) {
        lemma_suffix_of_suffix(after_body, body, s);
        lemma_exponent_consumes(after_body, whole);
        if let Parsed::Done { value: _, rest: last } = exponent(after_body, whole) {
            lemma_suffix_of_suffix(last, after_body, s);
        }
    }
}

/// Every value takes at least one codepoint from the head of the input.
pub proof fn lemma_value_consumes(s: Seq<char>)
    ensures
        value(s) matches Parsed::Done { value: _, rest } ==> is_proper_suffix(rest, s),
    decreases s.len(), 1nat,
{
    if s.len() > 0 {
        assert(s.drop_first() =~= s.skip(1));
        if s[0] == '"' {
            lemma_string_consumes(s);
        } else if s[0] == '-' || is_digit(s[0]) {
            lemma_number_consumes(s);
        } else if s[0] == '{' {
            lemma_object_members_consume(s.drop_first(), Map::empty());
            if let Parsed::Done { value: _, rest } = value(s) {
                lemma_suffix_of_suffix(rest, s.drop_first(), s);
            }
        } else if s[0] == '[' {
            lemma_array_items_consume(s.drop_first(), Seq::empty());
            if let Parsed::Done { value: _, rest } = value(s) {
                lemma_suffix_of_suffix(rest, s.drop_first(), s);
            }
        } else if s[0] == 't' {
            reveal_strlit("true");
            lemma_skip_str_consumes(s, "true"@);
        } else if s[0] == 'f' {
            reveal_strlit("false");
            lemma_skip_str_consumes(s, "false"@);
        } else if s[0] == 'n' {
            reveal_strlit("null");
            lemma_skip_str_consumes(s, "null"@);
        }
    }
}

/// The elements of an array and its closing bracket take at least two
/// codepoints.
pub proof fn lemma_array_items_consume(s: Seq<char>, items: Seq<JsonValue>)
    ensures
        array_items(s, items) matches Parsed::Done { value: _, rest } ==> is_proper_suffix(rest, s),
    decreases s.len(), 2nat,
{
    let start = skip_white_spaces(s);
    lemma_skip_white_spaces_suffix(s);
    lemma_value_consumes(start);
    if let Parsed::Done { value: item, rest: after_item } = value(start) {
        let next = skip_white_spaces(after_item);
        lemma_skip_white_spaces_suffix(after_item);
        lemma_suffix_of_suffix(after_item, start, s);
        lemma_suffix_of_suffix(next, after_item, s);
        if next.len() > 0 {
            assert(next.drop_first() =~= next.skip(1));
            lemma_suffix_of_suffix(next.drop_first(), next, s);
            if next[0] == ',' {
                lemma_array_items_consume(next.drop_first(), items.push(item));
                if let Parsed::Done { value: _, rest: last } = array_items(
                    next.drop_first(),
                    items.push(item),
                ) {
                    lemma_suffix_of_suffix(last, next.drop_first(), s);
                }
            }
        }
    }
}

/// The members of an object and its closing bracket take at least five
/// codepoints.
pub proof fn lemma_object_members_consume(s: Seq<char>, members: Map<Seq<char>, JsonValue>)
    ensures
        object_members(s, members) matches Parsed::Done { value: _, rest } ==> is_proper_suffix(
            rest,
            s,
        ),
    decreases s.len(), 2nat,
{
    lemma_member_key_consumes(s);
    if let Parsed::Done { value: key, rest: start } = member_key(s) {
        lemma_value_consumes(start);
        if let Parsed::Done { value: member, rest: after_member } = value(start) {
            let next = skip_white_spaces(after_member);
            lemma_skip_white_spaces_suffix(after_member);
            lemma_suffix_of_suffix(after_member, start, s);
            lemma_suffix_of_suffix(next, after_member, s);
            if next.len() > 0 {
                assert(next.drop_first() =~= next.skip(1));
                lemma_suffix_of_suffix(next.drop_first(), next, s);
                if next[0] == ',' {
                    lemma_object_members_consume(next.drop_first(), members.insert(key, member));
                    if let Parsed::Done { value: _, rest: last } = object_members(
                        next.drop_first(),
                        members.insert(key, member),
                    ) {
                        lemma_suffix_of_suffix(last, next.drop_first(), s);
                    }
                }
            }
        }
    }
}

/// Four hexadecimal digits leave what follows them.
pub proof fn lemma_hex_digits_consumes(s: Seq<char>, count: nat, value: int)
    ensures
        hex_digits(s, count, value) matches Parsed::Done { value: _, rest } ==> count <= s.len()
            && rest == s.skip(count as int),
    decreases count,
{
    if count > 0 && s.len() > 0 && is_hex_digit(s[0]) {
        lemma_hex_digits_consumes(
            s.drop_first(),
            (count - 1) as nat,
            value * 16 + hex_value(s[0]),
        );
        if hex_digits(s, count, value) is Done {
            assert(s.drop_first().skip(count - 1) =~= s.skip(count as int));
        }
    } else if count == 0 {
        assert(s.skip(0) =~= s);
    }
}

/// What follows `\u` takes four codepoints, or ten for a surrogate pair.
pub proof fn lemma_code_point_consumes(s: Seq<char>)
    ensures
        code_point(s) matches Parsed::Done { value: _, rest } ==> is_proper_suffix(rest, s),
{
    lemma_hex_digits_consumes(s, 4, 0);
    if let Parsed::Done { value: high, rest } = code_point_digits(s) {
        if is_high_surrogate(high) && rest.len() >= 2 {
            lemma_hex_digits_consumes(rest.skip(2), 4, 0);
            if let Parsed::Done { value: _, rest: last } = code_point(s) {
                assert(last == rest.skip(2).skip(4));
                assert(last =~= s.skip(s.len() - last.len()));
            }
        } else {
            assert(rest =~= s.skip(s.len() - rest.len()));
        }
    }
}

/// An escape takes at least the codepoint that names it.
pub proof fn lemma_escaped_char_consumes(s: Seq<char>)
    ensures
        escaped_char(s) matches Parsed::Done { value: _, rest } ==> is_proper_suffix(rest, s),
{
    if s.len() > 0 {
        let tail = s.drop_first();
        assert(tail =~= s.skip(s.len() - tail.len()));
        if s[0] == 'u' {
            lemma_code_point_consumes(tail);
            if let Parsed::Done { value: _, rest } = code_point(tail) {
                assert(rest =~= s.skip(s.len() - rest.len()));
            }
        }
    }
}

/// Whether every codepoint of `d` is a digit.
pub open spec fn all_digits(d: Seq<char>) -> bool {
    forall|i: int| 0 <= i < d.len() ==> is_digit(#[trigger] d[i])
}

/// Whether `t` does not go on with a digit.
pub open spec fn no_digit_ahead(t: Seq<char>) -> bool {
    t.len() == 0 || !is_digit(t[0])
}

/// Whether `text` is a number literal of the grammar from its first
/// codepoint to its last, with `e` for the mark of its exponent.
pub open spec fn is_number_literal(text: Seq<char>) -> bool {
    number_text(text) == (Parsed::Done { value: text, rest: Seq::<char>::empty() })
}

/// What `more_digits` takes is a run of digits, as long as it can be.
proof fn lemma_more_digits_shape(s: Seq<char>, text: Seq<char>)
    ensures
        more_digits(s, text) is Done,
        ({
            let rest = more_digits(s, text)->rest;
            let run = s.take(s.len() - rest.len());
            &&& rest.len() <= s.len()
            &&& more_digits(s, text)->value == text + run
            &&& s == run + rest
            &&& all_digits(run)
            &&& no_digit_ahead(rest)
        }),
    decreases s.len(),
{
    if s.len() > 0 && is_digit(s[0]) {
        let tail = s.drop_first();
        lemma_more_digits_shape(tail, text.push(s[0]));
        let rest = more_digits(s, text)->rest;
        let run = s.take(s.len() - rest.len());
        let tail_run = tail.take(tail.len() - rest.len());
        assert(run =~= seq![s[0]] + tail_run);
        assert(text + run =~= text.push(s[0]) + tail_run);
        assert(s =~= seq![s[0]] + tail);
        assert(tail == tail_run + rest);
        assert(s =~= run + rest);
    } else {
        let run = s.take(0);
        assert(text + run =~= text);
        assert(s =~= run + s);
    }
}

/// A run of digits before something else is taken whole.
proof fn lemma_more_digits_replay(run: Seq<char>, rest: Seq<char>, text: Seq<char>)
    requires
        all_digits(run),
        no_digit_ahead(rest),
    ensures
        more_digits(run + rest, text) == (Parsed::Done { value: text + run, rest }),
    decreases run.len(),
{
    if run.len() == 0 {
        assert(run + rest =~= rest);
        assert(text + run =~= text);
    } else {
        let s = run + rest;
        assert(s[0] == run[0]);
        assert(s.drop_first() =~= run.drop_first() + rest);
        lemma_more_digits_replay(run.drop_first(), rest, text.push(run[0]));
        assert(text.push(run[0]) + run.drop_first() =~= text + run);
    }
}

/// The digits of a literal, read again before `rest`, give the same text.
proof fn lemma_digits_replay(s: Seq<char>, text: Seq<char>, again: Seq<char>, rest: Seq<char>)
    requires
        digits(s, text) is Done,
        no_digit_ahead(rest),
    ensures
        ({
            let added = digits(s, text)->value.skip(text.len() as int);
            &&& digits(s, text)->value == text + added
            &&& added.len() > 0
            &&& is_digit(added[0])
            &&& added[0] == s[0]
            &&& digits(added + rest, again) == (Parsed::Done { value: again + added, rest })
        }),
{
    let tail = s.drop_first();
    lemma_more_digits_shape(tail, text.push(s[0]));
    let left = more_digits(tail, text.push(s[0]))->rest;
    let run = tail.take(tail.len() - left.len());
    let added = digits(s, text)->value.skip(text.len() as int);
    assert(digits(s, text)->value == text.push(s[0]) + run);
    assert(added =~= seq![s[0]] + run);
    assert(text + added =~= text.push(s[0]) + run);
    lemma_more_digits_replay(run, rest, again.push(s[0]));
    assert((added + rest).drop_first() =~= run + rest);
    assert(again.push(s[0]) + run =~= again + added);
}

/// The exponent of a literal, read again at the end of a text, gives the
/// same text.
proof fn lemma_exponent_literal(s: Seq<char>, text: Seq<char>)
    requires
        exponent(s, text) is Done,
    ensures
        ({
            let exp = exponent(s, text)->value.skip(text.len() as int);
            &&& exponent(s, text)->value == text + exp
            &&& exp.len() == 0 || exp[0] == 'e'
            &&& forall|again: Seq<char>| #[trigger]
                exponent(exp, again) == (Parsed::Done {
                    value: again + exp,
                    rest: Seq::<char>::empty(),
                })
        }),
{
    let nothing = Seq::<char>::empty();
    let exp = exponent(s, text)->value.skip(text.len() as int);
    if s.len() > 0 && (s[0] == 'e' || s[0] == 'E') {
        let start = text.push('e').push(s[1]);
        lemma_digits_replay(s.skip(2), start, start, nothing);
        let added = digits(s.skip(2), start)->value.skip(start.len() as int);
        assert(exp =~= seq!['e', s[1]] + added);
        assert(text + exp =~= start + added);
        assert forall|again: Seq<char>| #[trigger]
            exponent(exp, again) == (Parsed::Done { value: again + exp, rest: nothing }) by {
            lemma_digits_replay(s.skip(2), start, again.push('e').push(s[1]), nothing);
            assert(exp.skip(2) =~= added + nothing);
            assert(again.push('e').push(s[1]) + added =~= again + exp);
        }
    } else {
        assert(exp =~= nothing);
        assert(text + exp =~= text);
        assert forall|again: Seq<char>| #[trigger]
            exponent(exp, again) == (Parsed::Done { value: again + exp, rest: nothing }) by {
            assert(again + exp =~= again);
        }
    }
}

/// The fraction of a literal, read again before an exponent or the end of
/// the text, gives the same text.
proof fn lemma_fraction_literal(s: Seq<char>, text: Seq<char>, rest: Seq<char>)
    requires
        fraction(s, text) is Done,
        rest.len() == 0 || rest[0] == 'e',
    ensures
        ({
            let frac = fraction(s, text)->value.skip(text.len() as int);
            &&& fraction(s, text)->value == text + frac
            &&& frac.len() == 0 || frac[0] == '.'
            &&& forall|again: Seq<char>| #[trigger]
                fraction(frac + rest, again) == (Parsed::Done { value: again + frac, rest })
        }),
{
    let frac = fraction(s, text)->value.skip(text.len() as int);
    if s.len() > 0 && s[0] == '.' {
        let start = text.push('.');
        lemma_digits_replay(s.drop_first(), start, start, rest);
        let added = digits(s.drop_first(), start)->value.skip(start.len() as int);
        assert(frac =~= seq!['.'] + added);
        assert(text + frac =~= start + added);
        assert forall|again: Seq<char>| #[trigger]
            fraction(frac + rest, again) == (Parsed::Done { value: again + frac, rest }) by {
            lemma_digits_replay(s.drop_first(), start, again.push('.'), rest);
            assert((frac + rest).drop_first() =~= added + rest);
            assert(again.push('.') + added =~= again + frac);
        }
    } else {
        assert(frac =~= Seq::<char>::empty());
        assert(text + frac =~= text);
        assert forall|again: Seq<char>| #[trigger]
            fraction(frac + rest, again) == (Parsed::Done { value: again + frac, rest }) by {
            assert(frac + rest =~= rest);
            assert(again + frac =~= again);
        }
    }
}

/// The integer part and the fraction of a literal, read again before an
/// exponent or the end of the text, give the same text.
proof fn lemma_integer_and_fraction_literal(s: Seq<char>, text: Seq<char>, rest: Seq<char>)
    requires
        integer_and_fraction(s, text) is Done,
        rest.len() == 0 || rest[0] == 'e',
    ensures
        ({
            let body = integer_and_fraction(s, text)->value.skip(text.len() as int);
            &&& integer_and_fraction(s, text)->value == text + body
            &&& body.len() > 0
            &&& is_digit(body[0])
            &&& forall|again: Seq<char>| #[trigger]
                integer_and_fraction(body + rest, again) == (Parsed::Done {
                    value: again + body,
                    rest,
                })
        }),
{
    let body = integer_and_fraction(s, text)->value.skip(text.len() as int);
    if s[0] == '0' {
        let start = text.push('0');
        lemma_fraction_literal(s.drop_first(), start, rest);
        let frac = fraction(s.drop_first(), start)->value.skip(start.len() as int);
        assert(body =~= seq!['0'] + frac);
        assert(text + body =~= start + frac);
        assert forall|again: Seq<char>| #[trigger]
            integer_and_fraction(body + rest, again) == (Parsed::Done {
                value: again + body,
                rest,
            }) by {
            assert((body + rest).drop_first() =~= frac + rest);
            assert(fraction(frac + rest, again.push('0')) == (Parsed::Done {
                value: again.push('0') + frac,
                rest,
            }));
            assert(again.push('0') + frac =~= again + body);
        }
    } else {
        lemma_digits_replay(s, text, text, rest);
        let whole = digits(s, text);
        let int_part = whole->value.skip(text.len() as int);
        lemma_fraction_literal(whole->rest, whole->value, rest);
        let frac = fraction(whole->rest, whole->value)->value.skip(whole->value.len() as int);
        assert(body =~= int_part + frac);
        assert(text + body =~= whole->value + frac);
        assert(no_digit_ahead(frac + rest)) by {
            if frac.len() == 0 {
                assert(frac + rest =~= rest);
            }
        }
        assert forall|again: Seq<char>| #[trigger]
            integer_and_fraction(body + rest, again) == (Parsed::Done {
                value: again + body,
                rest,
            }) by {
            lemma_digits_replay(s, text, again, frac + rest);
            assert(body + rest =~= int_part + (frac + rest));
            assert((body + rest)[0] == s[0]);
            assert(fraction(frac + rest, again + int_part) == (Parsed::Done {
                value: (again + int_part) + frac,
                rest,
            }));
            assert((again + int_part) + frac =~= again + body);
        }
    }
}

/// The text that a number is read as is itself a number literal: read
/// again, it gives itself and leaves nothing.
pub proof fn lemma_number_text_is_literal(s: Seq<char>)
    requires
        number_text(s) is Done,
    ensures
        is_number_literal(number_text(s)->value),
{
    let nothing = Seq::<char>::empty();
    let signed = s.len() > 0 && s[0] == '-';
    let start = if signed { s.drop_first() } else { s };
    let sign: Seq<char> = if signed { seq!['-'] } else { nothing };
    let whole = integer_and_fraction(start, sign);
    let literal = number_text(s)->value;
    lemma_exponent_literal(whole->rest, whole->value);
    let exp = literal.skip(whole->value.len() as int);
    lemma_integer_and_fraction_literal(start, sign, exp);
    let body = whole->value.skip(sign.len() as int);
    assert(literal =~= sign + (body + exp));
    if signed {
        assert(literal.drop_first() =~= body + exp);
    } else {
        assert(literal =~= body + exp);
        assert(sign + body =~= body);
    }
    assert(integer_and_fraction(body + exp, sign) == (Parsed::Done {
        value: sign + body,
        rest: exp,
    }));
    assert(exponent(exp, whole->value) == (Parsed::Done {
        value: whole->value + exp,
        rest: nothing,
    }));
}

/// Whether every number in a value is held as a number literal.
pub open spec fn numbers_are_literals(v: JsonValue) -> bool
    decreases v,
{
    match v {
        JsonValue::Number(text) => is_number_literal(text),
        JsonValue::Array(items) => forall|i: int|
            0 <= i < items.len() ==> numbers_are_literals(#[trigger] items[i]),
        JsonValue::Object(members) => forall|key: Seq<char>|
            members.contains_key(key) ==> numbers_are_literals(#[trigger] members[key]),
        _ => true,
    }
}

/// Every number of a value that was read is held as a number literal.
pub proof fn lemma_value_numbers(s: Seq<char>)
    ensures
        value(s) matches Parsed::Done { value: v, rest: _ } ==> numbers_are_literals(v),
    decreases s.len(), 1nat,
{
    if s.len() > 0 {
        if s[0] == '-' || is_digit(s[0]) {
            if number_text(s) is Done {
                lemma_number_text_is_literal(s);
            }
        } else if s[0] == '{' {
            lemma_object_members_numbers(s.drop_first(), Map::empty());
        } else if s[0] == '[' {
            lemma_array_items_numbers(s.drop_first(), Seq::empty());
        }
    }
}

proof fn lemma_array_items_numbers(s: Seq<char>, items: Seq<JsonValue>)
    requires
        forall|i: int| 0 <= i < items.len() ==> numbers_are_literals(#[trigger] items[i]),
    ensures
        array_items(s, items) matches Parsed::Done { value: all, rest: _ } ==> forall|i: int|
            0 <= i < all.len() ==> numbers_are_literals(#[trigger] all[i]),
    decreases s.len(), 2nat,
{
    let start = skip_white_spaces(s);
    lemma_skip_white_spaces_suffix(s);
    lemma_value_numbers(start);
    if let Parsed::Done { value: item, rest } = value(start) {
        let grown = items.push(item);
        assert forall|i: int| 0 <= i < grown.len() implies numbers_are_literals(
            #[trigger] grown[i],
        ) by {
            if i < items.len() {
                assert(grown[i] == items[i]);
            }
        }
        if let Follow::More { rest: next } = follow(
            skip_white_spaces(rest),
            ']',
            Expected::CommaOrBracket,
        ) {
            if next.len() < s.len() {
                lemma_array_items_numbers(next, grown);
            }
        }
    }
}

proof fn lemma_object_members_numbers(s: Seq<char>, members: Map<Seq<char>, JsonValue>)
    requires
        forall|key: Seq<char>|
            members.contains_key(key) ==> numbers_are_literals(#[trigger] members[key]),
    ensures
        object_members(s, members) matches Parsed::Done { value: all, rest: _ } ==> forall|
            key: Seq<char>,
        | all.contains_key(key) ==> numbers_are_literals(#[trigger] all[key]),
    decreases s.len(), 2nat,
{
    lemma_member_key_consumes(s);
    if let Parsed::Done { value: key, rest: start } = member_key(s) {
        lemma_value_numbers(start);
        if let Parsed::Done { value: member, rest } = value(start) {
            let grown = members.insert(key, member);
            assert forall|k: Seq<char>| grown.contains_key(k) implies numbers_are_literals(
                #[trigger] grown[k],
            ) by {
                if k != key {
                    assert(grown[k] == members[k]);
                }
            }
            if let Follow::More { rest: next } = follow(
                skip_white_spaces(rest),
                '}',
                Expected::CommaOrBrace,
            ) {
                if next.len() < s.len() {
                    lemma_object_members_numbers(next, grown);
                }
            }
        }
    }
}

/// Every number of a document is held as a number literal.
pub proof fn lemma_document_numbers(s: Seq<char>)
    ensures
        document(s) matches Ok(v) ==> numbers_are_literals(v),
{
    lemma_value_numbers(skip_white_spaces(s));
}

} // verus!
