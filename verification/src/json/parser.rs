use super::error::{Expected, JsonError};
use super::grammar;
use super::grammar::Parsed;
use super::reader::JsonReader;
use super::source::decode;
use super::value::{items_view, Json, JsonObject};
use vstd::string::StringSliceAdditionalSpecFns;
use vstd::prelude::*;
use vstd::string::StrSliceExecFns;

verus! {

/// Whether a routine that returned `result` and left `left` unread did what
/// the grammar rule with outcome `expected` says.
pub open spec fn agrees<T: View>(
    result: Result<T, JsonError>,
    left: Seq<char>,
    expected: Parsed<T::V>,
) -> bool {
    match expected {
        Parsed::Done { value, rest } => result matches Ok(v) && v@ == value && left == rest,
        Parsed::Fail { error } => result matches Err(e) && e == error,
    }
}

/// Converts a number to the codepoint of that number, as `char::from_u32`
/// documents it: `None` for a surrogate and for a number above 0x10FFFF.
pub assume_specification[ char::from_u32 ](value: u32) -> (ch: Option<char>)
    ensures
        ch == if grammar::is_scalar_value(value as int) {
            Some(value as char)
        } else {
            None::<char>
        },
;

fn is_white_space(ch: char) -> (b: bool)
    ensures
        b == grammar::is_white_space(ch),
{
    ch == '\x20' || ch == '\x09' || ch == '\x0A' || ch == '\x0D'
}

fn is_digit(ch: char) -> (b: bool)
    ensures
        b == grammar::is_digit(ch),
{
    '0' <= ch && ch <= '9'
}

fn hex_digit_value(ch: char) -> (digit: Option<u32>)
    ensures
        match digit {
            Some(d) => grammar::is_hex_digit(ch) && d == grammar::hex_value(ch),
            None => !grammar::is_hex_digit(ch),
        },
{
    if '0' <= ch && ch <= '9' {
        Some(ch as u32 - '0' as u32)
    } else if 'a' <= ch && ch <= 'f' {
        Some(ch as u32 - 'a' as u32 + 10)
    } else if 'A' <= ch && ch <= 'F' {
        Some(ch as u32 - 'A' as u32 + 10)
    } else {
        None
    }
}

impl<'a> JsonReader<'a> {
    /// Consumes the white space at the head of the input: spaces, tabs, line
    /// feeds and carriage returns.
    pub fn skip_white_spaces(&mut self)
        ensures
            final(self)@ == grammar::skip_white_spaces(old(self)@),
    {
        loop
            invariant
                grammar::skip_white_spaces(self@) == grammar::skip_white_spaces(old(self)@),
            ensures
                self@ == grammar::skip_white_spaces(old(self)@),
            decreases self@.len(),
        {
            match self.peek_char() {
                Some(ch) => {
                    if is_white_space(ch) {
                        self.read_char();
                    } else {
                        break ;
                    }
                },
                None => {
                    break ;
                },
            }
        }
    }

    /// Consumes exactly the codepoints of `expected`.
    pub fn skip_str(&mut self, expected: &str) -> (result: Result<(), JsonError>)
        ensures
            agrees(result, final(self)@, grammar::skip_str(old(self)@, expected@)),
    {
        let n = expected.unicode_len();
        let mut i: usize = 0;
        assert(expected@.skip(0) =~= expected@);
        while i < n
            invariant
                n == expected@.len(),
                i <= n,
                grammar::skip_str(self@, expected@.skip(i as int)) == grammar::skip_str(
                    old(self)@,
                    expected@,
                ),
            decreases n - i,
        {
            let want_ch = expected.get_char(i);
            proof {
                assert(expected@.skip(i as int).drop_first() =~= expected@.skip(i + 1));
            }
            match self.read_char() {
                Some(ch) => {
                    if ch != want_ch {
                        return Err(
                            JsonError::UnexpectedChar { got: ch, wanted: Expected::Symbol(want_ch) },
                        );
                    }
                },
                None => {
                    return Err(JsonError::UnexpectedEof);
                },
            }
            i += 1;
        }
        Ok(())
    }

    /// Reads one or more digits and appends them to `text`.
    pub fn read_digits(&mut self, text: &mut String) -> (result: Result<(), JsonError>)
        ensures
            match grammar::digits(old(self)@, old(text)@) {
                Parsed::Done { value, rest } => {
                    &&& result is Ok
                    &&& final(text)@ == value
                    &&& final(self)@ == rest
                },
                Parsed::Fail { error } => result matches Err(e) && e == error,
            },
    {
        match self.read_char() {
            Some(ch) => {
                if is_digit(ch) {
                    text.push(ch);
                } else {
                    return Err(JsonError::UnexpectedChar { got: ch, wanted: Expected::Digit });
                }
            },
            None => {
                return Err(JsonError::UnexpectedEof);
            },
        }
        loop
            invariant
                old(self)@.len() > 0,
                grammar::more_digits(self@, text@) == grammar::more_digits(
                    old(self)@.drop_first(),
                    old(text)@.push(old(self)@[0]),
                ),
            ensures
                grammar::more_digits(old(self)@.drop_first(), old(text)@.push(old(self)@[0]))
                    == (Parsed::Done { value: text@, rest: self@ }),
            decreases self@.len(),
        {
            match self.peek_char() {
                Some(ch) => {
                    if is_digit(ch) {
                        self.read_char();
                        text.push(ch);
                    } else {
                        break ;
                    }
                },
                None => {
                    break ;
                },
            }
        }
        Ok(())
    }

    /// Reads the fraction of a number, if one follows, and appends it to
    /// `text`.
    fn read_fraction(&mut self, text: &mut String) -> (result: Result<(), JsonError>)
        ensures
            match grammar::fraction(old(self)@, old(text)@) {
                Parsed::Done { value, rest } => {
                    &&& result is Ok
                    &&& final(text)@ == value
                    &&& final(self)@ == rest
                },
                Parsed::Fail { error } => result matches Err(e) && e == error,
            },
    {
        match self.peek_char() {
            Some(ch) => {
                if ch == '.' {
                    self.read_char();
                    text.push('.');
                    self.read_digits(text)
                } else {
                    Ok(())
                }
            },
            None => Ok(()),
        }
    }

    /// Reads the exponent of a number, if one follows, and appends it to
    /// `text`, with `e` for its mark.
    fn read_exponent(&mut self, text: &mut String) -> (result: Result<(), JsonError>)
        ensures
            match grammar::exponent(old(self)@, old(text)@) {
                Parsed::Done { value, rest } => {
                    &&& result is Ok
                    &&& final(text)@ == value
                    &&& final(self)@ == rest
                },
                Parsed::Fail { error } => result matches Err(e) && e == error,
            },
    {
        match self.peek_char() {
            Some(mark) => {
                if mark == 'e' || mark == 'E' {
                    self.read_char();
                    text.push('e');
                    match self.read_char() {
                        Some(sign) => {
                            if sign == '-' || sign == '+' {
                                text.push(sign);
                                assert(old(self)@.drop_first().drop_first() =~= old(self)@.skip(2));
                                self.read_digits(text)
                            } else {
                                Err(
                                    JsonError::UnexpectedChar {
                                        got: sign,
                                        wanted: Expected::Sign,
                                    },
                                )
                            }
                        },
                        None => Err(JsonError::UnexpectedEof),
                    }
                } else {
                    Ok(())
                }
            },
            None => Ok(()),
        }
    }

    /// Reads a number and returns the text of its literal.
    pub fn read_number(&mut self) -> (result: Result<Json, JsonError>)
        ensures
            agrees(result, final(self)@, grammar::number(old(self)@)),
    {
        let mut text = String::new();

        // sign
        match self.peek_char() {
            Some(ch) => {
                if ch == '-' {
                    self.read_char();
                    text.push('-');
                }
            },
            None => {},
        }
        assert(text@ =~= if old(self)@.len() > 0 && old(self)@[0] == '-' {
            seq!['-']
        } else {
            Seq::empty()
        });

        // integer part and fraction
        let ghost body = self@;
        let ghost sign = text@;
        match self.peek_char() {
            Some(ch) => {
                if ch == '0' {
                    self.read_char();
                    text.push('0');
                    match self.read_fraction(&mut text) {
                        Ok(()) => {},
                        Err(e) => {
                            return Err(e);
                        },
                    }
                } else if is_digit(ch) {
                    match self.read_digits(&mut text) {
                        Ok(()) => {},
                        Err(e) => {
                            return Err(e);
                        },
                    }
                    match self.read_fraction(&mut text) {
                        Ok(()) => {},
                        Err(e) => {
                            return Err(e);
                        },
                    }
                } else {
                    return Err(JsonError::UnexpectedChar { got: ch, wanted: Expected::Digit });
                }
            },
            None => {
                return Err(JsonError::UnexpectedEof);
            },
        }
        assert(grammar::integer_and_fraction(body, sign) == (Parsed::Done {
            value: text@,
            rest: self@,
        }));

        // exponent
        match self.read_exponent(&mut text) {
            Ok(()) => Ok(Json::Number(text)),
            Err(e) => Err(e),
        }
    }

    /// Reads the four hexadecimal digits of a `\u` escape.
    pub fn read_code_point_digits(&mut self) -> (result: Result<u32, JsonError>)
        ensures
            match grammar::code_point_digits(old(self)@) {
                Parsed::Done { value, rest } => {
                    &&& result matches Ok(v)
                    &&& v == value
                    &&& value <= 0xFFFF
                    &&& final(self)@ == rest
                },
                Parsed::Fail { error } => result matches Err(e) && e == error,
            },
    {
        let mut value: u32 = 0;
        let mut i: u32 = 0;
        while i < 4
            invariant
                i <= 4,
                (i == 0 ==> value == 0) && (i == 1 ==> value < 0x10) && (i == 2 ==> value < 0x100)
                    && (i == 3 ==> value < 0x1000) && (i == 4 ==> value < 0x10000),
                grammar::hex_digits(self@, (4 - i) as nat, value as int)
                    == grammar::code_point_digits(old(self)@),
            decreases 4 - i,
        {
            match self.read_char() {
                Some(ch) => {
                    match hex_digit_value(ch) {
                        Some(digit) => {
                            value = value * 16 + digit;
                        },
                        None => {
                            return Err(
                                JsonError::UnexpectedChar { got: ch, wanted: Expected::Digit },
                            );
                        },
                    }
                },
                None => {
                    return Err(JsonError::UnexpectedEof);
                },
            }
            i += 1;
        }
        Ok(value)
    }

    /// Reads what follows `\u`: four hexadecimal digits and, after a high
    /// surrogate, the escape of the low surrogate that completes the pair.
    pub fn read_code_point(&mut self) -> (result: Result<char, JsonError>)
        ensures
            agrees(result, final(self)@, grammar::code_point(old(self)@)),
    {
        let high = match self.read_code_point_digits() {
            Ok(high) => high,
            Err(e) => {
                return Err(e);
            },
        };
        let code_point = if 0xD800 <= high && high <= 0xDBFF {
            let ghost pair = self@;
            match self.read_char() {
                Some(ch) => {
                    if ch != '\\' {
                        return Err(JsonError::BadSurrogatePair { high, low: None });
                    }
                },
                None => {
                    return Err(JsonError::UnexpectedEof);
                },
            }
            match self.read_char() {
                Some(ch) => {
                    if ch != 'u' {
                        return Err(JsonError::BadSurrogatePair { high, low: None });
                    }
                },
                None => {
                    return Err(JsonError::UnexpectedEof);
                },
            }
            assert(self@ =~= pair.skip(2));
            let lower = match self.read_code_point_digits() {
                Ok(lower) => lower,
                Err(e) => {
                    return Err(e);
                },
            };
            if lower < 0xDC00 || 0xDFFF < lower {
                return Err(JsonError::BadSurrogatePair { high, low: Some(lower) });
            }
            0x10000 + (high - 0xD800) * 0x400 + (lower - 0xDC00)
        } else {
            high
        };

        match char::from_u32(code_point) {
            Some(ch) => Ok(ch),
            None => Err(JsonError::BadCodePoint { value: code_point }),
        }
    }

    /// Reads what follows a backslash inside a string.
    pub fn read_escaped_char(&mut self) -> (result: Result<char, JsonError>)
        ensures
            agrees(result, final(self)@, grammar::escaped_char(old(self)@)),
    {
        match self.read_char() {
            Some(ch) => {
                if ch == '"' {
                    Ok('"')
                } else if ch == '\\' {
                    Ok('\\')
                } else if ch == '/' {
                    Ok('/')
                } else if ch == 'b' {
                    Ok('\x08')
                } else if ch == 'f' {
                    Ok('\x0C')
                } else if ch == 'n' {
                    Ok('\x0A')
                } else if ch == 'r' {
                    Ok('\x0D')
                } else if ch == 't' {
                    Ok('\x09')
                } else if ch == 'u' {
                    self.read_code_point()
                } else {
                    Err(JsonError::UnexpectedChar { got: ch, wanted: Expected::Escape })
                }
            },
            None => Err(JsonError::UnexpectedEof),
        }
    }

    /// Reads a string, from its opening quote to its closing quote.
    pub fn read_string(&mut self) -> (result: Result<Json, JsonError>)
        ensures
            agrees(result, final(self)@, grammar::string(old(self)@)),
    {
        let mut text = String::new();
        match self.read_char() {
            Some(ch) => {
                if ch != '"' {
                    return Err(
                        JsonError::UnexpectedChar { got: ch, wanted: Expected::Symbol('"') },
                    );
                }
            },
            None => {
                return Err(JsonError::UnexpectedEof);
            },
        }
        loop
            invariant
                old(self)@.len() > 0,
                old(self)@[0] == '"',
                grammar::string_tail(self@, text@) == grammar::string_tail(
                    old(self)@.drop_first(),
                    Seq::empty(),
                ),
            decreases self@.len(),
        {
            match self.read_char() {
                Some(ch) => {
                    if ch == '"' {
                        return Ok(Json::String(text));
                    } else if ch == '\\' {
                        proof {
                            grammar::lemma_escaped_char_consumes(self@);
                        }
                        match self.read_escaped_char() {
                            Ok(escaped) => {
                                text.push(escaped);
                            },
                            Err(e) => {
                                return Err(e);
                            },
                        }
                    } else {
                        text.push(ch);
                    }
                },
                None => {
                    return Err(JsonError::UnexpectedEof);
                },
            }
        }
    }

    /// Reads the word `true`.
    pub fn read_true(&mut self) -> (result: Result<Json, JsonError>)
        ensures
            agrees(
                result,
                final(self)@,
                grammar::literal(old(self)@, "true"@, super::value::JsonValue::Boolean(true)),
            ),
    {
        match self.skip_str("true") {
            Ok(()) => Ok(Json::Boolean(true)),
            Err(e) => Err(e),
        }
    }

    /// Reads the word `false`.
    pub fn read_false(&mut self) -> (result: Result<Json, JsonError>)
        ensures
            agrees(
                result,
                final(self)@,
                grammar::literal(old(self)@, "false"@, super::value::JsonValue::Boolean(false)),
            ),
    {
        match self.skip_str("false") {
            Ok(()) => Ok(Json::Boolean(false)),
            Err(e) => Err(e),
        }
    }

    /// Reads the word `null`.
    pub fn read_null(&mut self) -> (result: Result<Json, JsonError>)
        ensures
            agrees(
                result,
                final(self)@,
                grammar::literal(old(self)@, "null"@, super::value::JsonValue::Null),
            ),
    {
        match self.skip_str("null") {
            Ok(()) => Ok(Json::Null),
            Err(e) => Err(e),
        }
    }

    /// Reads one value, chosen by the codepoint it begins with.
    pub fn read_value(&mut self) -> (result: Result<Json, JsonError>)
        ensures
            agrees(result, final(self)@, grammar::value(old(self)@)),
        decreases old(self)@.len(), 1nat,
    {
        match self.peek_char() {
            Some(ch) => {
                if ch == '"' {
                    self.read_string()
                } else if ch == '-' || is_digit(ch) {
                    self.read_number()
                } else if ch == '{' {
                    self.read_object()
                } else if ch == '[' {
                    self.read_array()
                } else if ch == 't' {
                    self.read_true()
                } else if ch == 'f' {
                    self.read_false()
                } else if ch == 'n' {
                    self.read_null()
                } else {
                    Err(JsonError::UnexpectedChar { got: ch, wanted: Expected::ValueStart })
                }
            },
            None => Err(JsonError::UnexpectedEof),
        }
    }

    /// Reads an array, from `[` to `]`.
    pub fn read_array(&mut self) -> (result: Result<Json, JsonError>)
        ensures
            agrees(result, final(self)@, grammar::array(old(self)@)),
        decreases old(self)@.len(), 0nat,
    {
        let mut array: Vec<Json> = Vec::new();
        match self.read_char() {
            Some(ch) => {
                if ch != '[' {
                    return Err(
                        JsonError::UnexpectedChar { got: ch, wanted: Expected::Symbol('[') },
                    );
                }
            },
            None => {
                return Err(JsonError::UnexpectedEof);
            },
        }
        loop
            invariant
                old(self)@.len() > 0,
                old(self)@[0] == '[',
                self@.len() < old(self)@.len(),
                grammar::array_items(self@, items_view(array@)) == grammar::array_items(
                    old(self)@.drop_first(),
                    Seq::empty(),
                ),
            decreases self@.len(),
        {
            let ghost here = self@;
            self.skip_white_spaces();
            proof {
                grammar::lemma_skip_white_spaces_suffix(here);
                grammar::lemma_value_consumes(self@);
            }
            let item = match self.read_value() {
                Ok(item) => item,
                Err(e) => {
                    return Err(e);
                },
            };
            proof {
                grammar::lemma_skip_white_spaces_suffix(self@);
                assert(array@.push(item).drop_last() =~= array@);
            }
            array.push(item);
            self.skip_white_spaces();
            match self.read_char() {
                Some(ch) => {
                    if ch == ',' {
                    } else if ch == ']' {
                        return Ok(Json::Array(array));
                    } else {
                        return Err(
                            JsonError::UnexpectedChar {
                                got: ch,
                                wanted: Expected::CommaOrBracket,
                            },
                        );
                    }
                },
                None => {
                    return Err(JsonError::UnexpectedEof);
                },
            }
        }
    }

    /// Reads an object, from `{` to `}`. A key that occurs again replaces
    /// the value that it had.
    pub fn read_object(&mut self) -> (result: Result<Json, JsonError>)
        ensures
            agrees(result, final(self)@, grammar::object(old(self)@)),
        decreases old(self)@.len(), 0nat,
    {
        let mut obj = JsonObject::new();
        match self.read_char() {
            Some(ch) => {
                if ch != '{' {
                    return Err(
                        JsonError::UnexpectedChar { got: ch, wanted: Expected::Symbol('{') },
                    );
                }
            },
            None => {
                return Err(JsonError::UnexpectedEof);
            },
        }
        loop
            invariant
                old(self)@.len() > 0,
                old(self)@[0] == '{',
                self@.len() < old(self)@.len(),
                grammar::object_members(self@, obj@) == grammar::object_members(
                    old(self)@.drop_first(),
                    Map::empty(),
                ),
            decreases self@.len(),
        {
            proof {
                grammar::lemma_member_key_consumes(self@);
            }
            self.skip_white_spaces();
            let key = match self.read_string() {
                Ok(Json::String(key)) => key,
                Ok(_) => unreached(),
                Err(e) => {
                    return Err(e);
                },
            };
            self.skip_white_spaces();
            proof {
                reveal_strlit(":");
                assert(":"@ =~= seq![':']);
            }
            match self.skip_str(":") {
                Ok(()) => {},
                Err(e) => {
                    return Err(e);
                },
            }
            self.skip_white_spaces();
            proof {
                grammar::lemma_value_consumes(self@);
            }
            let value = match self.read_value() {
                Ok(value) => value,
                Err(e) => {
                    return Err(e);
                },
            };
            proof {
                grammar::lemma_skip_white_spaces_suffix(self@);
            }
            self.skip_white_spaces();
            obj.insert(key, value);
            match self.read_char() {
                Some(ch) => {
                    if ch == ',' {
                    } else if ch == '}' {
                        return Ok(Json::Object(obj));
                    } else {
                        return Err(
                            JsonError::UnexpectedChar { got: ch, wanted: Expected::CommaOrBrace },
                        );
                    }
                },
                None => {
                    return Err(JsonError::UnexpectedEof);
                },
            }
        }
    }
}

/// Parses the document that the codepoints of `bytes` spell.
pub fn parse(bytes: &[u8]) -> (result: Result<Json, JsonError>)
    ensures
        match grammar::document(decode(bytes@)) {
            Ok(value) => result matches Ok(json) && json@ == value,
            Err(error) => result matches Err(e) && e == error,
        },
        result matches Ok(json) ==> grammar::numbers_are_literals(json@),
{
    proof {
        grammar::lemma_document_numbers(decode(bytes@));
    }
    let mut json_reader = JsonReader::new(bytes);
    json_reader.skip_white_spaces();
    let value = match json_reader.read_value() {
        Ok(value) => value,
        Err(e) => {
            return Err(e);
        },
    };
    json_reader.skip_white_spaces();
    match json_reader.read_char() {
        Some(ch) => Err(JsonError::UnexpectedChar { got: ch, wanted: Expected::Eof }),
        None => Ok(value),
    }
}

/// Parses the document that `s` spells.
pub fn parse_str(s: &str) -> (result: Result<Json, JsonError>)
    ensures
        match grammar::document(decode(s.spec_bytes())) {
            Ok(value) => result matches Ok(json) && json@ == value,
            Err(error) => result matches Err(e) && e == error,
        },
        result matches Ok(json) ==> grammar::numbers_are_literals(json@),
{
    parse(s.as_bytes())
}

} // verus!
