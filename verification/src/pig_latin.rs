//! Translation of English words into pig latin.
//!
//! Each rule is a regular expression with a template for what takes the
//! place of a word that it matches; the first rule that matches a word
//! decides.

use crate::text::{texts, words, words_of};
use regex::Regex;
use vstd::prelude::*;

verus! {

/// Whether the regular expression `pattern` matches somewhere in `text`;
/// `None` if `pattern` is no regular expression that the regex crate
/// compiles.
pub uninterp spec fn regex_is_match(pattern: Seq<char>, text: Seq<char>) -> Option<bool>;

/// `text` with its leftmost match of the regular expression `pattern`
/// replaced by the expansion of `template`, and `text` itself if nothing
/// matches; `None` if `pattern` is no regular expression that the regex
/// crate compiles.
pub uninterp spec fn regex_replace(pattern: Seq<char>, text: Seq<char>, template: Seq<char>) -> Option<
    Seq<char>,
>;

/// Compiles `pattern` with `Regex::new` and asks `Regex::is_match` whether
/// it matches in `text`. Both depend on their arguments alone.
#[verifier::external_body]
fn is_match(pattern: &str, text: &str) -> (found: Option<bool>)
    ensures
        found == regex_is_match(pattern@, text@),
{
    match Regex::new(pattern) {
        Ok(re) => Some(re.is_match(text)),
        Err(_) => None,
    }
}

/// Compiles `pattern` with `Regex::new` and has `Regex::replace` replace
/// its leftmost match in `text` by `template`. Both depend on their
/// arguments alone.
#[verifier::external_body]
fn replace(pattern: &str, text: &str, template: &str) -> (replaced: Option<String>)
    ensures
        match replaced {
            Some(result) => regex_replace(pattern@, text@, template@) == Some(result@),
            None => regex_replace(pattern@, text@, template@) is None,
        },
{
    match Regex::new(pattern) {
        Ok(re) => Some(re.replace(text, template).to_string()),
        Err(_) => None,
    }
}

/// What a rule makes of a word: nothing if its pattern does not match.
pub open spec fn applied(word: Seq<char>, pattern: Seq<char>, template: Seq<char>) -> Option<
    Seq<char>,
> {
    if regex_is_match(pattern, word) == Some(true) {
        regex_replace(pattern, word, template)
    } else {
        None
    }
}

/// The first of the results of the rules that is there, and `word` if none
/// is.
pub open spec fn first_of(word: Seq<char>, results: Seq<Option<Seq<char>>>) -> Seq<char>
    decreases results.len(),
{
    if results.len() == 0 {
        word
    } else if let Some(result) = results[0] {
        result
    } else {
        first_of(word, results.drop_first())
    }
}

/// The results of the five rules, in the order in which they are tried:
/// words that begin with `xr` or `yt`; consonants before a `y`; consonants
/// with `qu` at their end; consonants; vowels.
pub open spec fn rule_results(word: Seq<char>) -> Seq<Option<Seq<char>>> {
    seq![
        applied(word, r"^(xr|yt)\S+$"@, "${0}ay"@),
        applied(word, r"^([bcdfghjklmnpqrstvwxyz]+)(y\S*)$"@, "${2}${1}ay"@),
        applied(word, r"^([bcdfghjklmnpqrstvwxyz]*qu)(\S*)$"@, "${2}${1}ay"@),
        applied(word, r"^([bcdfghjklmnpqrstvwxyz]+)(\S*)$"@, "${2}${1}ay"@),
        applied(word, r"^[aeiouy]+\S+$"@, "${0}ay"@),
    ]
}

/// A word in pig latin.
pub open spec fn translated_word(word: Seq<char>) -> Seq<char> {
    first_of(word, rule_results(word))
}

/// Applies one rule to a word.
fn apply(word: &str, pattern: &str, template: &str) -> (result: Option<String>)
    ensures
        match result {
            Some(text) => applied(word@, pattern@, template@) == Some(text@),
            None => applied(word@, pattern@, template@) is None,
        },
{
    match is_match(pattern, word) {
        Some(true) => replace(pattern, word, template),
        _ => None,
    }
}

/// Translates one word.
pub fn translate_word(word: &str) -> (result: String)
    ensures
        result@ == translated_word(word@),
{
    proof {
        reveal_with_fuel(first_of, 6);
    }
    // Rule 1-1
    if let Some(result) = apply(word, r"^(xr|yt)\S+$", "${0}ay") {
        return result;
    }
    // Rule 4

    if let Some(result) = apply(word, r"^([bcdfghjklmnpqrstvwxyz]+)(y\S*)$", "${2}${1}ay") {
        return result;
    }
    // Rule 3

    if let Some(result) = apply(word, r"^([bcdfghjklmnpqrstvwxyz]*qu)(\S*)$", "${2}${1}ay") {
        return result;
    }
    // Rule 2

    if let Some(result) = apply(word, r"^([bcdfghjklmnpqrstvwxyz]+)(\S*)$", "${2}${1}ay") {
        return result;
    }
    // Rule 1-2

    if let Some(result) = apply(word, r"^[aeiouy]+\S+$", "${0}ay") {
        return result;
    }
    word.to_string()
}

/// The words one after the other, with a space before each word that does
/// not stand at the beginning of the text.
pub open spec fn joined(words: Seq<Seq<char>>) -> Seq<char>
    decreases words.len(),
{
    if words.len() == 0 {
        Seq::empty()
    } else if joined(words.drop_last()).len() == 0 {
        words.last()
    } else {
        joined(words.drop_last()) + seq![' '] + words.last()
    }
}

/// A text in pig latin: its words translated, with a space between them.
pub open spec fn translated(input: Seq<char>) -> Seq<char> {
    joined(words_of(input).map_values(|word: Seq<char>| translated_word(word)))
}

/// Translates every word of `input`.
pub fn translate(input: &str) -> (out: String)
    ensures
        out@ == translated(input@),
{
    let found = words(input);
    let ghost pieces = words_of(input@).map_values(|word: Seq<char>| translated_word(word));
    let mut out = String::new();
    let mut i: usize = 0;
    while i < found.len()
        invariant
            i <= found@.len(),
            texts(found@) == words_of(input@),
            pieces == words_of(input@).map_values(|word: Seq<char>| translated_word(word)),
            out@ == joined(pieces.take(i as int)),
        decreases found@.len() - i,
    {
        let word = translate_word(found[i].as_str());
        proof {
            assert(texts(found@)[i as int] == found@[i as int]@);
            assert(pieces[i as int] == word@);
            assert(pieces.take(i + 1).drop_last() =~= pieces.take(i as int));
            assert(pieces.take(i + 1).last() == word@);
        }
        let ghost before = out@;
        if !out.as_str().is_empty() {
            out.push(' ');
        }
        out.push_str(word.as_str());
        proof {
            if before.len() == 0 {
                assert(out@ =~= word@);
            } else {
                assert(out@ =~= before + seq![' '] + word@);
            }
        }
        i += 1;
    }
    assert(pieces.take(found@.len() as int) =~= pieces);
    out
}

} // verus!
