//! Translation of RNA into the proteins that its codons name.

use vstd::prelude::*;
use vstd::string::StrSliceExecFns;

verus! {

/// The names of codons. Where a codon was given more than one name, the
/// last one counts.
pub struct CodonsInfo<'a> {
    pairs: Vec<(&'a str, &'a str)>,
}

/// The mapping that a list of pairs of a codon and its name stands for.
pub open spec fn names_of(pairs: Seq<(&str, &str)>) -> Map<Seq<char>, Seq<char>>
    decreases pairs.len(),
{
    if pairs.len() == 0 {
        Map::empty()
    } else {
        names_of(pairs.drop_last()).insert(pairs.last().0@, pairs.last().1@)
    }
}

/// The length of the codon at the head of `rna`: three, or less where the
/// RNA ends before.
pub open spec fn codon_len(rna: Seq<char>) -> int {
    if rna.len() < 3 {
        rna.len() as int
    } else {
        3
    }
}

/// The proteins that `rna` is translated to: the names of its codons, one
/// after the other, up to the first codon that has no name or is a stop
/// codon.
pub open spec fn proteins(names: Map<Seq<char>, Seq<char>>, rna: Seq<char>) -> Seq<Seq<char>>
    decreases rna.len(),
{
    if rna.len() == 0 {
        Seq::empty()
    } else {
        let codon = rna.take(codon_len(rna));
        if !names.contains_key(codon) || names[codon] == "stop codon"@ {
            Seq::empty()
        } else {
            seq![names[codon]] + proteins(names, rna.skip(codon_len(rna)))
        }
    }
}

impl<'a> View for CodonsInfo<'a> {
    type V = Map<Seq<char>, Seq<char>>;

    closed spec fn view(&self) -> Map<Seq<char>, Seq<char>> {
        names_of(self.pairs@)
    }
}

impl<'a> CodonsInfo<'a> {
    /// The name of `codon`, if it has one.
    pub fn name_for(&self, codon: &str) -> (name: Option<&'a str>)
        ensures
            match name {
                Some(protein) => self@.contains_key(codon@) && self@[codon@] == protein@,
                None => !self@.contains_key(codon@),
            },
    {
        let mut i = self.pairs.len();
        assert(self.pairs@.take(i as int) =~= self.pairs@);
        while i > 0
            invariant
                i <= self.pairs@.len(),
                names_of(self.pairs@).contains_key(codon@) <==> names_of(
                    self.pairs@.take(i as int),
                ).contains_key(codon@),
                names_of(self.pairs@).contains_key(codon@) ==> names_of(self.pairs@)[codon@]
                    == names_of(self.pairs@.take(i as int))[codon@],
            decreases i,
        {
            i -= 1;
            let pair = self.pairs[i];
            proof {
                assert(self.pairs@.take(i + 1).drop_last() =~= self.pairs@.take(i as int));
                assert(self.pairs@.take(i + 1).last() == pair);
            }
            if pair.0.eq(codon) {
                return Some(pair.1);
            }
        }
        None
    }

    /// The proteins that `rna` is translated to, if there is at least one.
    pub fn of_rna(&self, rna: &str) -> (found: Option<Vec<&'a str>>)
        requires
            rna.is_ascii(),
        ensures
            match found {
                Some(names) => {
                    &&& names@.len() > 0
                    &&& names@.len() == proteins(self@, rna@).len()
                    &&& forall|i: int|
                        0 <= i < names@.len() ==> (#[trigger] names@[i])@ == proteins(self@, rna@)[i]
                },
                None => proteins(self@, rna@).len() == 0,
            },
    {
        let len = rna.unicode_len();
        let mut vec: Vec<&'a str> = Vec::new();
        let mut at: usize = 0;
        let ghost mut done: Seq<Seq<char>> = Seq::empty();
        assert(rna@.skip(0) =~= rna@);
        while at < len
            invariant
                rna.is_ascii(),
                len == rna@.len(),
                at <= len,
                done.len() == vec@.len(),
                forall|i: int| 0 <= i < vec@.len() ==> (#[trigger] vec@[i])@ == done[i],
                done + proteins(self@, rna@.skip(at as int)) == proteins(self@, rna@),
            ensures
                done.len() == vec@.len(),
                forall|i: int| 0 <= i < vec@.len() ==> (#[trigger] vec@[i])@ == done[i],
                done == proteins(self@, rna@),
            decreases len - at,
        {
            let end = if len - at < 3 {
                len
            } else {
                at + 3
            };
            let codon = rna.substring_ascii(at, end);
            let ghost rest = rna@.skip(at as int);
            proof {
                assert(codon@ =~= rest.take(codon_len(rest)));
                assert(rest.skip(codon_len(rest)) =~= rna@.skip(end as int));
                reveal_strlit("stop codon");
            }
            match self.name_for(codon) {
                Some(protein) => {
                    if protein.eq("stop codon") {
                        assert(done + Seq::<Seq<char>>::empty() =~= done);
                        break ;
                    }
                    vec.push(protein);
                    proof {
                        assert(done.push(protein@) + proteins(self@, rna@.skip(end as int)) =~= done
                            + proteins(self@, rest));
                        done = done.push(protein@);
                    }
                },
                None => {
                    assert(done + Seq::<Seq<char>>::empty() =~= done);
                    break ;
                },
            }
            at = end;
            proof {
                if at == len {
                    assert(done + Seq::<Seq<char>>::empty() =~= done);
                }
            }
        }
        if vec.len() < 1 {
            None
        } else {
            Some(vec)
        }
    }
}

/// The names that `pairs` give to codons.
pub fn parse<'a>(pairs: Vec<(&'a str, &'a str)>) -> (info: CodonsInfo<'a>)
    ensures
        info@ == names_of(pairs@),
{
    CodonsInfo { pairs }
}

} // verus!
