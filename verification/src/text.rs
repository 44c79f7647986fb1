//! What this crate uses of std's strings, and decimal notation.

use vstd::prelude::*;

verus! {

/// Appends a codepoint to a string, as `String::push` documents it.
pub assume_specification[ std::string::String::push ](text: &mut std::string::String, ch: char)
    ensures
        final(text)@ == old(text)@.push(ch),
;

/// Appends a string slice to a string, as `String::push_str` documents it.
pub assume_specification[ std::string::String::push_str ](
    text: &mut std::string::String,
    tail: &str,
)
    ensures
        final(text)@ == old(text)@ + tail@,
;

/// Equality of two string slices, codepoint by codepoint, as `str`'s
/// `PartialEq` documents it.
pub assume_specification[ <str as PartialEq>::eq ](a: &str, b: &str) -> (r: bool)
    ensures
        r == (a@ == b@),
;

/// The digit that stands for a number below ten.
pub open spec fn digit_char(d: nat) -> char
    recommends
        d < 10,
{
    ('0' as nat + d) as char
}

/// The decimal notation of a number, without leading zeros.
pub open spec fn decimal(n: nat) -> Seq<char>
    decreases n,
{
    if n < 10 {
        seq![digit_char(n)]
    } else {
        decimal(n / 10).push(digit_char(n % 10))
    }
}

/// The digit that stands for `d`.
pub fn digit(d: u8) -> (ch: char)
    requires
        d < 10,
    ensures
        ch == digit_char(d as nat),
{
    (48u8 + d) as char
}

/// The decimal notation of `n`.
pub fn decimal_string(n: u64) -> (text: String)
    ensures
        text@ == decimal(n as nat),
{
    let mut reversed: Vec<char> = Vec::new();
    let mut rest = n;
    while rest >= 10
        invariant
            decimal(n as nat) == decimal(rest as nat) + Seq::new(
                reversed@.len(),
                |i: int| reversed@[reversed@.len() - 1 - i],
            ),
        decreases rest,
    {
        let ghost before = reversed@;
        reversed.push(digit((rest % 10) as u8));
        proof {
            let tail = Seq::new(before.len(), |i: int| before[before.len() - 1 - i]);
            let grown = Seq::new(reversed@.len(), |i: int| reversed@[reversed@.len() - 1 - i]);
            assert(grown =~= seq![digit_char((rest % 10) as nat)] + tail);
            assert(decimal(rest as nat) + tail =~= decimal((rest / 10) as nat) + grown);
        }
        rest = rest / 10;
    }
    let mut text = String::new();
    text.push(digit(rest as u8));
    let mut k = reversed.len();
    while k > 0
        invariant
            k <= reversed@.len(),
            rest < 10,
            text@ == decimal(rest as nat) + Seq::new(
                (reversed@.len() - k) as nat,
                |i: int| reversed@[reversed@.len() - 1 - i],
            ),
        decreases k,
    {
        k -= 1;
        text.push(reversed[k]);
        assert(text@ =~= decimal(rest as nat) + Seq::new(
            (reversed@.len() - k) as nat,
            |i: int| reversed@[reversed@.len() - 1 - i],
        ));
    }
    assert(text@ =~= decimal(rest as nat) + Seq::new(
        reversed@.len(),
        |i: int| reversed@[reversed@.len() - 1 - i],
    ));
    text
}

/// Whether a codepoint has the Unicode property `White_Space`.
pub uninterp spec fn white_space(ch: char) -> bool;

/// `char::is_whitespace` tells whether a codepoint has the property
/// `White_Space`; which codepoints have it is laid down by Unicode and
/// depends on nothing else.
pub assume_specification[ char::is_whitespace ](ch: char) -> (b: bool)
    ensures
        b == white_space(ch),
;

/// The texts that a list of strings holds.
pub open spec fn texts(strings: Seq<String>) -> Seq<Seq<char>> {
    strings.map_values(|s: String| s@)
}

/// `done`, with `word` behind it unless `word` is empty.
pub open spec fn with_word(done: Seq<Seq<char>>, word: Seq<char>) -> Seq<Seq<char>> {
    if word.len() == 0 {
        done
    } else {
        done.push(word)
    }
}

/// The words of `text` that follow the words `done` and the beginning
/// `word` of a word: white space ends a word, and what stands between
/// white space is a word.
pub open spec fn words_after(text: Seq<char>, word: Seq<char>, done: Seq<Seq<char>>) -> Seq<
    Seq<char>,
>
    decreases text.len(),
{
    if text.len() == 0 {
        with_word(done, word)
    } else if white_space(text[0]) {
        words_after(text.drop_first(), Seq::empty(), with_word(done, word))
    } else {
        words_after(text.drop_first(), word.push(text[0]), done)
    }
}

/// The words of a text: its longest pieces without white space.
pub open spec fn words_of(text: Seq<char>) -> Seq<Seq<char>> {
    words_after(text, Seq::empty(), Seq::empty())
}

/// The words of `text`, in their order.
pub fn words(text: &str) -> (found: Vec<String>)
    ensures
        texts(found@) == words_of(text@),
{
    let mut found: Vec<String> = Vec::new();
    let mut word = String::new();
    assert(texts(found@) =~= Seq::<Seq<char>>::empty());
    assert(text@.skip(0) =~= text@);
    for ch in iter: text.chars()
        invariant
            iter.seq() == text@,
            words_after(text@.skip(iter.index() as int), word@, texts(found@)) == words_of(text@),
    {
        let ghost rest = text@.skip(iter.index() as int);
        let ghost done = texts(found@);
        let ghost begun = word@;
        proof {
            assert(rest.drop_first() =~= text@.skip(iter.index() + 1));
            assert(rest[0] == ch);
        }
        if ch.is_whitespace() {
            if !word.as_str().is_empty() {
                found.push(word);
                word = String::new();
                assert(texts(found@) =~= done.push(begun));
            }
            assert(texts(found@) == with_word(done, begun));
            assert(word@ =~= Seq::<char>::empty());
        } else {
            word.push(ch);
        }
    }
    if !word.as_str().is_empty() {
        proof {
            assert(texts(found@.push(word)) =~= texts(found@).push(word@));
        }
        found.push(word);
    } else {
        assert(word@.len() == 0);
    }
    found
}

/// The codepoints of `text`.
pub fn chars_of(text: &str) -> (chars: Vec<char>)
    ensures
        chars@ == text@,
{
    let mut chars: Vec<char> = Vec::new();
    for c in iter: text.chars()
        invariant
            iter.seq() == text@,
            chars@ == text@.take(iter.index() as int),
    {
        assert(text@.take(iter.index() + 1) =~= text@.take(iter.index() as int).push(c));
        chars.push(c);
    }
    assert(text@.take(text@.len() as int) =~= text@);
    chars
}

/// The string of the codepoints of `chars` from place `from` up to place
/// `to`.
pub fn string_of(chars: &Vec<char>, from: usize, to: usize) -> (text: String)
    requires
        from <= to <= chars@.len(),
    ensures
        text@ == chars@.subrange(from as int, to as int),
{
    let mut text = String::new();
    let mut i = from;
    while i < to
        invariant
            from <= i <= to <= chars@.len(),
            text@ == chars@.subrange(from as int, i as int),
        decreases to - i,
    {
        text.push(chars[i]);
        i += 1;
        assert(text@ =~= chars@.subrange(from as int, i as int));
    }
    text
}

} // verus!
