//! The order of texts: character by character, a text before any longer text it begins.

use vstd::prelude::*;

use crate::text::chars::chars_of;

verus! {

/// Whether `a` comes before `b` or is `b`.
pub open spec fn text_le(a: Seq<char>, b: Seq<char>) -> bool
    decreases a.len(),
{
    if a.len() == 0 {
        true
    } else if b.len() == 0 {
        false
    } else if a[0] != b[0] {
        a[0] < b[0]
    } else {
        text_le(a.skip(1), b.skip(1))
    }
}

/// Whether `a` comes before `b`.
pub open spec fn text_lt(a: Seq<char>, b: Seq<char>) -> bool {
    text_le(a, b) && a != b
}

pub proof fn lemma_le_total(a: Seq<char>, b: Seq<char>)
    ensures
        text_le(a, b) || text_le(b, a),
    decreases a.len(),
{
    if a.len() > 0 && b.len() > 0 && a[0] == b[0] {
        lemma_le_total(a.skip(1), b.skip(1));
    }
}

pub proof fn lemma_le_antisymmetric(a: Seq<char>, b: Seq<char>)
    requires
        text_le(a, b),
        text_le(b, a),
    ensures
        a == b,
    decreases a.len(),
{
    if a.len() == 0 || b.len() == 0 {
        assert(a =~= b);
    } else {
        lemma_le_antisymmetric(a.skip(1), b.skip(1));
        assert(a =~= seq![a[0]] + a.skip(1));
        assert(b =~= seq![b[0]] + b.skip(1));
    }
}

pub proof fn lemma_le_transitive(a: Seq<char>, b: Seq<char>, c: Seq<char>)
    requires
        text_le(a, b),
        text_le(b, c),
    ensures
        text_le(a, c),
    decreases a.len(),
{
    if a.len() > 0 && b.len() > 0 && c.len() > 0 && a[0] == b[0] && b[0] == c[0] {
        lemma_le_transitive(a.skip(1), b.skip(1), c.skip(1));
    }
}

pub proof fn lemma_le_reflexive(a: Seq<char>)
    ensures
        text_le(a, a),
    decreases a.len(),
{
    if a.len() > 0 {
        lemma_le_reflexive(a.skip(1));
    }
}

pub proof fn lemma_lt_transitive(a: Seq<char>, b: Seq<char>, c: Seq<char>)
    requires
        text_lt(a, b),
        text_lt(b, c),
    ensures
        text_lt(a, c),
{
    lemma_le_transitive(a, b, c);
    if a == c {
        lemma_le_antisymmetric(a, b);
    }
}

/// Whether `a` comes before `b` or is `b`.
pub fn le(a: &str, b: &str) -> (r: bool)
    ensures
        r == text_le(a@, b@),
{
    let x: Vec<char> = chars_of(a);
    let y: Vec<char> = chars_of(b);
    let mut i: usize = 0;
    proof {
        assert(a@.skip(0) == a@);
        assert(b@.skip(0) == b@);
    }
    loop
        invariant
            x@ == a@,
            y@ == b@,
            i <= x@.len(),
            i <= y@.len(),
            text_le(a@, b@) == text_le(a@.skip(i as int), b@.skip(i as int)),
        decreases x@.len() - i,
    {
        if i == x.len() {
            return true;
        }
        if i == y.len() {
            return false;
        }
        proof {
            assert(a@.skip(i as int)[0] == x@[i as int]);
            assert(b@.skip(i as int)[0] == y@[i as int]);
            assert(a@.skip(i as int).skip(1) == a@.skip(i + 1));
            assert(b@.skip(i as int).skip(1) == b@.skip(i + 1));
        }
        if x[i] != y[i] {
            return x[i] < y[i];
        }
        i = i + 1;
    }
}

/// Whether every text of `s` comes before the next ones.
pub open spec fn strictly_sorted(s: Seq<Seq<char>>) -> bool {
    forall|i: int, j: int| 0 <= i < j < s.len() ==> text_lt(#[trigger] s[i], #[trigger] s[j])
}

/// How texts are ordered: by the first character in which they differ, and a text that goes on comes
/// behind the one that does not.
pub proof fn lemma_le_by_first_difference(
    common: Seq<char>,
    x: char,
    y: char,
    a: Seq<char>,
    b: Seq<char>,
)
    ensures
        x < y ==> text_lt(common + seq![x] + a, common + seq![y] + b) && !text_le(
            common + seq![y] + b,
            common + seq![x] + a,
        ),
        text_le(common, common + a),
        a.len() > 0 ==> text_lt(common, common + a),
    decreases common.len(),
{
    let p = common + seq![x] + a;
    let q = common + seq![y] + b;
    if common.len() == 0 {
        assert(p[0] == x);
        assert(q[0] == y);
    } else {
        let rest = common.skip(1);
        lemma_le_by_first_difference(rest, x, y, a, b);
        assert(p.skip(1) =~= rest + seq![x] + a);
        assert(q.skip(1) =~= rest + seq![y] + b);
        assert(p[0] == common[0]);
        assert(q[0] == common[0]);
        assert((common + a).skip(1) =~= rest + a);
        assert((common + a)[0] == common[0]);
        assert(p[common.len() as int] == x);
        assert(q[common.len() as int] == y);
    }
}

} // verus!
