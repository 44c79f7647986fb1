//! Cleaning up telephone numbers of the North American Numbering Plan.

use vstd::prelude::*;

verus! {

pub open spec fn is_digit(c: char) -> bool {
    '0' <= c <= '9'
}

/// The digits of a text, in their order.
pub open spec fn digits_of(text: Seq<char>) -> Seq<char> {
    text.filter(|c: char| is_digit(c))
}

/// The digits without the country code 1, if they begin with it and are
/// eleven.
pub open spec fn national(digits: Seq<char>) -> Seq<char> {
    if digits.len() == 11 && digits[0] == '1' {
        digits.drop_first()
    } else {
        digits
    }
}

/// Whether ten digits are a number of the plan: neither the area code nor
/// the exchange code begins with 0 or 1.
pub open spec fn valid(digits: Seq<char>) -> bool {
    &&& digits.len() == 10
    &&& digits[0] != '0' && digits[0] != '1'
    &&& digits[3] != '0' && digits[3] != '1'
}

/// The ten digits of the number that `user_number` holds, if it holds one.
pub fn number(user_number: &str) -> (cleaned: Option<String>)
    ensures
        match cleaned {
            Some(digits) => digits@ == national(digits_of(user_number@)) && valid(digits@),
            None => !valid(national(digits_of(user_number@))),
        },
{
    let mut digits: Vec<char> = Vec::new();
    for c in iter: user_number.chars()
        invariant
            iter.seq() == user_number@,
            digits@ == digits_of(user_number@.take(iter.index() as int)),
    {
        proof {
            let upto = user_number@.take(iter.index() as int);
            let next = user_number@.take(iter.index() + 1);
            assert(next =~= upto.push(c));
            assert(next.drop_last() =~= upto);
            reveal(Seq::filter);
        }
        if '0' <= c && c <= '9' {
            digits.push(c);
        }
    }
    assert(user_number@.take(user_number@.len() as int) =~= user_number@);

    if digits.len() == 11 && digits[0] == '1' {
        digits.remove(0);
        assert(digits@ =~= national(digits_of(user_number@)));
    }
    if digits.len() != 10 {
        return None;
    }
    // verify head of area code

    if digits[0] == '0' || digits[0] == '1' {
        return None;
    }
    // verify head of exchange code

    if digits[3] == '0' || digits[3] == '1' {
        return None;
    }
    let mut cleaned = String::new();
    let mut i: usize = 0;
    while i < digits.len()
        invariant
            i <= digits@.len(),
            cleaned@ == digits@.take(i as int),
        decreases digits@.len() - i,
    {
        cleaned.push(digits[i]);
        assert(cleaned@ =~= digits@.take(i + 1));
        i += 1;
    }
    assert(digits@.take(digits@.len() as int) =~= digits@);
    Some(cleaned)
}

} // verus!
