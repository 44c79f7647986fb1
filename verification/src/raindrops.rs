//! Numbers spoken as raindrops.

use crate::text::{decimal, decimal_string};
use vstd::prelude::*;

verus! {

/// The sounds of `num`: `Pling` if 3 divides it, then `Plang` if 5 does,
/// then `Plong` if 7 does.
pub open spec fn sounds(num: nat) -> Seq<char> {
    (if num % 3 == 0 {
        "Pling"@
    } else {
        Seq::empty()
    }) + (if num % 5 == 0 {
        "Plang"@
    } else {
        Seq::empty()
    }) + (if num % 7 == 0 {
        "Plong"@
    } else {
        Seq::empty()
    })
}

/// The sounds of `num`, or its decimal notation if it makes none.
pub open spec fn drops(num: nat) -> Seq<char> {
    if num % 3 == 0 || num % 5 == 0 || num % 7 == 0 {
        sounds(num)
    } else {
        decimal(num)
    }
}

pub fn raindrops(num: u64) -> (text: String)
    ensures
        text@ == drops(num as nat),
{
    proof {
        reveal_strlit("Pling");
        reveal_strlit("Plang");
        reveal_strlit("Plong");
        reveal_strlit("PlingPlang");
        reveal_strlit("PlingPlong");
        reveal_strlit("PlangPlong");
        reveal_strlit("PlingPlangPlong");
        assert(num % 105 == 0 <==> num % 3 == 0 && num % 5 == 0 && num % 7 == 0);
        assert(num % 15 == 0 <==> num % 3 == 0 && num % 5 == 0);
        assert(num % 21 == 0 <==> num % 3 == 0 && num % 7 == 0);
        assert(num % 35 == 0 <==> num % 5 == 0 && num % 7 == 0);
    }
    if num % (3 * 5 * 7) == 0 {
        let text = "PlingPlangPlong".to_string();
        assert(text@ =~= drops(num as nat));
        text
    } else if num % (3 * 5) == 0 {
        let text = "PlingPlang".to_string();
        assert(text@ =~= drops(num as nat));
        text
    } else if num % (3 * 7) == 0 {
        let text = "PlingPlong".to_string();
        assert(text@ =~= drops(num as nat));
        text
    } else if num % (5 * 7) == 0 {
        let text = "PlangPlong".to_string();
        assert(text@ =~= drops(num as nat));
        text
    } else if num % 3 == 0 {
        let text = "Pling".to_string();
        assert(text@ =~= drops(num as nat));
        text
    } else if num % 5 == 0 {
        let text = "Plang".to_string();
        assert(text@ =~= drops(num as nat));
        text
    } else if num % 7 == 0 {
        let text = "Plong".to_string();
        assert(text@ =~= drops(num as nat));
        text
    } else {
        decimal_string(num)
    }
}

} // verus!
