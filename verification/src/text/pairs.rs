//! Pairs of texts, such as header names and values.

use vstd::prelude::*;

use crate::text::chars::owned;

verus! {

/// The pairs of texts that the strings hold.
pub open spec fn text_pairs(v: Seq<(String, String)>) -> Seq<(Seq<char>, Seq<char>)> {
    Seq::new(v.len(), |i: int| (v[i].0@, v[i].1@))
}

/// Appends copies of the pairs of `from`.
pub fn add_pairs(to: &mut Vec<(String, String)>, from: &Vec<(String, String)>)
    ensures
        text_pairs(final(to)@) == text_pairs(old(to)@) + text_pairs(from@),
{
    let ghost before = text_pairs(to@);
    let mut i: usize = 0;
    assert(before + text_pairs(from@).take(0) == before);
    while i < from.len()
        invariant
            i <= from@.len(),
            text_pairs(to@) == before + text_pairs(from@).take(i as int),
        decreases from@.len() - i,
    {
        let p: (String, String) = (owned(&from[i].0), owned(&from[i].1));
        proof {
            assert(text_pairs(to@.push(p)) == text_pairs(to@).push((p.0@, p.1@)));
            assert(before + text_pairs(from@).take(i + 1) == (before + text_pairs(from@).take(
                i as int,
            )).push((p.0@, p.1@)));
        }
        to.push(p);
        i = i + 1;
    }
    assert(text_pairs(from@).take(i as int) == text_pairs(from@));
}

/// A copy of pairs.
pub fn copy_pairs(from: &Vec<(String, String)>) -> (r: Vec<(String, String)>)
    ensures
        text_pairs(r@) == text_pairs(from@),
{
    let mut out: Vec<(String, String)> = Vec::new();
    add_pairs(&mut out, from);
    assert(text_pairs(out@) == text_pairs(from@));
    out
}

} // verus!
