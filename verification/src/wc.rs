//! Counting the lines, words and bytes of a text.

use crate::text::white_space;
use vstd::prelude::*;
use vstd::string::StringSliceAdditionalSpecFns;

verus! {

pub open spec fn one_if(b: bool) -> nat {
    if b {
        1
    } else {
        0
    }
}

/// The number of lines of a text: every line feed ends a line, and what
/// follows the last line feed is a line if it is not empty.
pub open spec fn lines_of(text: Seq<char>) -> nat {
    text.filter(|c: char| c == '\n').len() + one_if(text.len() > 0 && text.last() != '\n')
}

/// The number of words that begin in `text`, which follows the codepoint
/// `prev` in its line. A word begins with a codepoint that is no white
/// space and follows white space or stands first in its line; a carriage
/// return before a line feed belongs to the end of the line.
pub open spec fn words_from(text: Seq<char>, prev: char) -> nat
    decreases text.len(),
{
    if text.len() == 0 {
        0
    } else if text[0] == '\n' {
        words_from(text.drop_first(), ' ')
    } else if text[0] == '\r' && text.len() > 1 && text[1] == '\n' {
        words_from(text.drop_first(), prev)
    } else {
        one_if(!white_space(text[0]) && white_space(prev)) + words_from(text.drop_first(), text[0])
    }
}

/// The number of words of a text.
pub open spec fn words_of(text: Seq<char>) -> nat {
    words_from(text, ' ')
}

proof fn lemma_filter_push(s: Seq<char>, c: char)
    ensures
        s.push(c).filter(|c: char| c == '\n') == if c == '\n' {
            s.filter(|c: char| c == '\n').push(c)
        } else {
            s.filter(|c: char| c == '\n')
        },
{
    reveal(Seq::filter);
    assert(s.push(c).drop_last() =~= s);
}

proof fn lemma_filter_bound(s: Seq<char>)
    ensures
        s.filter(|c: char| c == '\n').len() + one_if(s.len() > 0 && s.last() != '\n') <= s.len(),
    decreases s.len(),
{
    reveal(Seq::filter);
    if s.len() > 0 {
        lemma_filter_bound(s.drop_last());
    }
}

/// The numbers of lines, of words and of bytes of `text`.
pub fn count(text: &str) -> (counts: (usize, usize, usize))
    ensures
        counts.0 == lines_of(text@),
        counts.1 == words_of(text@),
        counts.2 == text.spec_bytes().len(),
{
    let mut chars: Vec<char> = Vec::new();
    for c in iter: text.chars()
        invariant
            iter.seq() == text@,
            chars@ == text@.take(iter.index() as int),
    {
        assert(text@.take(iter.index() + 1) =~= text@.take(iter.index() as int).push(c));
        chars.push(c);
    }
    assert(text@.take(text@.len() as int) =~= text@);

    let mut lines: usize = 0;
    let mut words: usize = 0;
    let mut prev_c = ' ';
    let mut i: usize = 0;
    assert(chars@.skip(0) =~= chars@);
    assert(chars@.take(0).filter(|c: char| c == '\n') =~= Seq::<char>::empty()) by {
        reveal(Seq::filter);
    }
    while i < chars.len()
        invariant
            i <= chars@.len(),
            lines == chars@.take(i as int).filter(|c: char| c == '\n').len(),
            words <= i,
            words + words_from(chars@.skip(i as int), prev_c) == words_of(chars@),
        decreases chars@.len() - i,
    {
        let c = chars[i];
        proof {
            assert(chars@.skip(i as int).drop_first() =~= chars@.skip(i + 1));
            assert(chars@.take(i + 1) =~= chars@.take(i as int).push(c));
            lemma_filter_push(chars@.take(i as int), c);
            lemma_filter_bound(chars@.take(i + 1));
        }
        if c == '\n' {
            lines += 1;
            prev_c = ' ';
        } else if c == '\r' && i + 1 < chars.len() && chars[i + 1] == '\n' {
        } else {
            if !c.is_whitespace() && prev_c.is_whitespace() {
                words += 1;
            }
            prev_c = c;
        }
        i += 1;
    }
    proof {
        assert(chars@.take(chars@.len() as int) =~= chars@);
        lemma_filter_bound(chars@);
    }
    if chars.len() > 0 && chars[chars.len() - 1] != '\n' {
        lines += 1;
    }
    (lines, words, text.as_bytes().len())
}

} // verus!
