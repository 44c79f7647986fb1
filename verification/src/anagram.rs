//! Finding the anagrams of a word among candidates.

use vstd::prelude::*;
use vstd::relations::{sorted_by, total_ordering};
use vstd::seq_lib::lemma_sorted_unique;

verus! {

/// The lowercase form of a text, as Unicode lays it down.
pub uninterp spec fn lowercase(text: Seq<char>) -> Seq<char>;

/// `str::to_lowercase` returns the lowercase equivalent of a string slice;
/// it depends on the codepoints of the slice alone.
pub assume_specification[ str::to_lowercase ](text: &str) -> (lower: std::string::String)
    ensures
        lower@ == lowercase(text@),
;

/// The order of codepoints by their numbers.
pub open spec fn char_leq() -> spec_fn(char, char) -> bool {
    |a: char, b: char| a <= b
}

/// Sorts the codepoints with `sort` of slices, which puts them into
/// ascending order and neither adds nor drops one.
#[verifier::external_body]
fn sort_chars(chars: &mut Vec<char>)
    ensures
        sorted_by(final(chars)@, char_leq()),
        final(chars)@.to_multiset() == old(chars)@.to_multiset(),
{
    chars.sort()
}

/// Whether `candidate` is an anagram of `word`: written with the same
/// letters, as often each, without regard to case, and not the same word.
pub open spec fn is_anagram(word: Seq<char>, candidate: Seq<char>) -> bool {
    &&& lowercase(candidate) != lowercase(word)
    &&& lowercase(candidate).to_multiset() == lowercase(word).to_multiset()
}

/// The codepoints of the lowercase form of `word`, in ascending order.
pub fn norm(word: &str) -> (chars: Vec<char>)
    ensures
        sorted_by(chars@, char_leq()),
        chars@.to_multiset() == lowercase(word@).to_multiset(),
{
    let lower = word.to_lowercase();
    let mut chars: Vec<char> = Vec::new();
    for c in iter: lower.as_str().chars()
        invariant
            iter.seq() == lower@,
            chars@ == lower@.take(iter.index() as int),
    {
        assert(lower@.take(iter.index() + 1) =~= lower@.take(iter.index() as int).push(c));
        chars.push(c);
    }
    assert(lower@.take(lower@.len() as int) =~= lower@);
    sort_chars(&mut chars);
    chars
}

fn same_chars(a: &Vec<char>, b: &Vec<char>) -> (same: bool)
    ensures
        same == (a@ == b@),
{
    if a.len() != b.len() {
        return false;
    }
    let mut i: usize = 0;
    while i < a.len()
        invariant
            a@.len() == b@.len(),
            i <= a@.len(),
            forall|k: int| 0 <= k < i ==> a@[k] == b@[k],
        decreases a@.len() - i,
    {
        if a[i] != b[i] {
            return false;
        }
        i += 1;
    }
    assert(a@ =~= b@);
    true
}

/// Whether one of `found` has the text of `candidate`.
fn holds(found: &Vec<&str>, candidate: &str) -> (held: bool)
    ensures
        held == exists|i: int| 0 <= i < found@.len() && (#[trigger] found@[i])@ == candidate@,
{
    let mut i: usize = 0;
    while i < found.len()
        invariant
            i <= found@.len(),
            forall|k: int| 0 <= k < i ==> (#[trigger] found@[k])@ != candidate@,
        decreases found@.len() - i,
    {
        if found[i].eq(candidate) {
            return true;
        }
        i += 1;
    }
    false
}

/// The candidates that are anagrams of `word`, each text once, in the
/// order in which they first occur.
pub fn anagrams_for<'a>(word: &str, possible_anagrams: &[&'a str]) -> (found: Vec<&'a str>)
    ensures
        forall|i: int| 0 <= i < found@.len() ==> is_anagram(word@, (#[trigger] found@[i])@),
        forall|i: int| 0 <= i < found@.len() ==> possible_anagrams@.contains(#[trigger] found@[i]),
        forall|j: int|
            0 <= j < possible_anagrams@.len() && is_anagram(word@, (#[trigger] possible_anagrams@[j])@)
                ==> exists|i: int| 0 <= i < found@.len() && (#[trigger] found@[i])@ == possible_anagrams@[j]@,
        forall|i: int, k: int| 0 <= i < k < found@.len() ==> found@[i]@ != found@[k]@,
{
    let norm_word = norm(word);
    let lower_word = word.to_lowercase();
    let mut found: Vec<&'a str> = Vec::new();
    let mut n: usize = 0;
    while n < possible_anagrams.len()
        invariant
            n <= possible_anagrams@.len(),
            lower_word@ == lowercase(word@),
            sorted_by(norm_word@, char_leq()),
            norm_word@.to_multiset() == lowercase(word@).to_multiset(),
            forall|i: int| 0 <= i < found@.len() ==> is_anagram(word@, (#[trigger] found@[i])@),
            forall|i: int| 0 <= i < found@.len() ==> possible_anagrams@.contains(#[trigger] found@[i]),
            forall|j: int|
                0 <= j < n && is_anagram(word@, (#[trigger] possible_anagrams@[j])@) ==> exists|i: int|
                    0 <= i < found@.len() && (#[trigger] found@[i])@ == possible_anagrams@[j]@,
            forall|i: int, k: int| 0 <= i < k < found@.len() ==> found@[i]@ != found@[k]@,
        decreases possible_anagrams@.len() - n,
    {
        let candidate = possible_anagrams[n];
        let differs = candidate.to_lowercase() != lower_word;
        let norm_candidate = norm(candidate);
        let same_letters = same_chars(&norm_candidate, &norm_word);
        proof {
            assert(total_ordering(char_leq()));
            if norm_candidate@.to_multiset() == norm_word@.to_multiset() {
                lemma_sorted_unique(norm_candidate@, norm_word@, char_leq());
            }
            assert((differs && same_letters) == is_anagram(word@, candidate@));
        }
        let ghost before = found@;
        if differs && same_letters && !holds(&found, candidate) {
            found.push(candidate);
            proof {
                assert forall|i: int| 0 <= i < found@.len() implies possible_anagrams@.contains(
                    #[trigger] found@[i],
                ) by {
                    if i < before.len() {
                        assert(found@[i] == before[i]);
                    } else {
                        assert(possible_anagrams@[n as int] == found@[i]);
                    }
                }
                assert forall|j: int|
                    0 <= j < n + 1 && is_anagram(word@, (#[trigger] possible_anagrams@[j])@) implies exists|
                    i: int,
                | 0 <= i < found@.len() && (#[trigger] found@[i])@ == possible_anagrams@[j]@ by {
                    if j < n {
                        let i = choose|i: int|
                            0 <= i < before.len() && (#[trigger] before[i])@ == possible_anagrams@[j]@;
                        assert(found@[i]@ == possible_anagrams@[j]@);
                    } else {
                        assert(found@[found@.len() - 1]@ == possible_anagrams@[j]@);
                    }
                }
            }
        }
        n += 1;
    }
    found
}

} // verus!
