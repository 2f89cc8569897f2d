//! Lines of text.

use vstd::prelude::*;

use crate::text::chars::owned;
use crate::text::search::{
    find_char, find_char_in, is_char, lemma_find_where, lemma_find_where_is, skip_str, take_str,
};

verus! {

/// `s` without the carriage return it ends with, if there is one.
pub open spec fn strip_cr(s: Seq<char>) -> Seq<char> {
    if s.len() > 0 && s.last() == '\r' {
        s.drop_last()
    } else {
        s
    }
}

/// The lines of `s`: each ends in a line feed, or in a carriage return and a line feed, which
/// is not part of the line; the last line need not end in one.
pub open spec fn lines(s: Seq<char>) -> Seq<Seq<char>>
    decreases s.len(),
{
    if s.len() == 0 {
        seq![]
    } else {
        match find_char(s, '\n') {
            Some(k) => if k < s.len() {
                seq![strip_cr(s.take(k as int))] + lines(s.skip(k as int + 1))
            } else {
                seq![s]
            },
            None => seq![s],
        }
    }
}

fn without_cr(s: &str) -> (r: &str)
    ensures
        r@ == strip_cr(s@),
{
    let n: usize = s.unicode_len();
    if n > 0 && s.get_char(n - 1) == '\r' {
        take_str(s, n - 1)
    } else {
        s
    }
}

/// The lines of `s`.
pub fn lines_of(s: &str) -> (r: Vec<String>)
    ensures
        r.deep_view() == lines(s@),
{
    let mut out: Vec<String> = Vec::new();
    let mut rest: &str = s;
    proof {
        assert(out.deep_view() + lines(rest@) =~= lines(s@));
    }
    loop
        invariant
            out.deep_view() + lines(rest@) == lines(s@),
        decreases rest@.len(),
    {
        if rest.is_empty() {
            proof {
                assert(out.deep_view() + lines(rest@) =~= out.deep_view());
            }
            return out;
        }
        let ghost before = out.deep_view();
        let ghost now = rest@;
        match find_char_in(rest, '\n') {
            Some(k) => {
                out.push(owned(without_cr(take_str(rest, k))));
                rest = skip_str(rest, k + 1);
                proof {
                    assert(out.deep_view() =~= before.push(strip_cr(now.take(k as int))));
                    assert(out.deep_view() + lines(rest@) =~= before + lines(now));
                }
            },
            None => {
                out.push(owned(rest));
                proof {
                    assert(out.deep_view() =~= before + lines(now));
                }
                return out;
            },
        }
    }
}

/// The first line of `s`; the empty text where it has none.
pub open spec fn first_line(s: Seq<char>) -> Seq<char> {
    if lines(s).len() == 0 {
        seq![]
    } else {
        lines(s)[0]
    }
}

/// The first line of `s`.
pub fn first_line_of(s: &str) -> (r: &str)
    ensures
        r@ == first_line(s@),
{
    if s.is_empty() {
        return s;
    }
    match find_char_in(s, '\n') {
        Some(k) => without_cr(take_str(s, k)),
        None => s,
    }
}

/// A text that holds no line feed, followed by one, is the line in front of what follows.
pub proof fn lemma_lines_cons(l: Seq<char>, rest: Seq<char>)
    requires
        !l.contains('\n'),
        l.len() == 0 || l.last() != '\r',
    ensures
        lines(l.push('\n') + rest) == seq![l] + lines(rest),
{
    let s = l.push('\n') + rest;
    lemma_find_where(s, is_char('\n'));
    assert(s[l.len() as int] == '\n');
    assert forall|j: int| 0 <= j < l.len() implies s[j] != '\n' by {
        assert(s[j] == l[j]);
        assert(l.contains(l[j]));
    }
    let k = find_char(s, '\n')->0;
    assert(k == l.len());
    assert(s.take(k as int) =~= l);
    assert(s.skip(k as int + 1) =~= rest);
}

/// Behind whole lines come further lines.
pub proof fn lemma_lines_append(a: Seq<char>, b: Seq<char>)
    requires
        a.len() == 0 || a.last() == '\n',
    ensures
        lines(a + b) == lines(a) + lines(b),
    decreases a.len(),
{
    if a.len() == 0 {
        assert(a + b =~= b);
        assert(lines(a) + lines(b) =~= lines(b));
    } else {
        lemma_find_where(a, is_char('\n'));
        lemma_find_where(a + b, is_char('\n'));
        assert(is_char('\n')(a[a.len() - 1]));
        let k = find_char(a, '\n')->0 as int;
        let j = find_char(a + b, '\n')->0 as int;
        assert((a + b)[k] == a[k]);
        assert(is_char('\n')((a + b)[k]));
        if j < k {
            assert((a + b)[j] == a[j]);
            assert(is_char('\n')(a[j]));
        } else if k < j {
            assert(!is_char('\n')((a + b)[k]));
        }
        let rest = a.skip(k + 1);
        if rest.len() > 0 {
            assert(rest.last() == a.last());
        }
        lemma_lines_append(rest, b);
        assert((a + b).take(k) =~= a.take(k));
        assert((a + b).skip(k + 1) =~= rest + b);
        assert(seq![strip_cr(a.take(k))] + (lines(rest) + lines(b)) =~= seq![strip_cr(a.take(k))]
            + lines(rest) + lines(b));
    }
}

/// How a text falls into lines: a line feed ends a line, and so do a carriage return and a line feed;
/// what is left behind the last is a line where it is not empty.
pub proof fn lemma_lines_are(l: Seq<char>, rest: Seq<char>)
    requires
        !l.contains('\n'),
    ensures
        lines(Seq::empty()) == Seq::<Seq<char>>::empty(),
        l.len() > 0 ==> lines(l) == seq![l],
        lines(l + seq!['\r', '\n'] + rest) == seq![l] + lines(rest),
        first_line(l) == l,
        first_line(l + seq!['\r', '\n'] + rest) == l,
        l.len() == 0 || l.last() != '\r' ==> first_line(l + seq!['\n'] + rest) == l && lines(
            l + seq!['\n'] + rest,
        ) == seq![l] + lines(rest),
{
    lemma_find_where(l, is_char('\n'));
    if find_char(l, '\n') is Some {
        assert(l[find_char(l, '\n')->0 as int] == '\n');
    }
    let s = l + seq!['\r', '\n'] + rest;
    let k = l.len() as int + 1;
    assert forall|j: int| 0 <= j < k implies !is_char('\n')(#[trigger] s[j]) by {
        if j < l.len() {
            assert(s[j] == l[j]);
            assert(l.contains(l[j]));
        }
    }
    assert(s[k] == '\n');
    lemma_find_where_is(s, is_char('\n'), k);
    assert(s.take(k).drop_last() =~= l);
    assert(s.take(k).last() == '\r');
    assert(s.skip(k + 1) =~= rest);
    if l.len() == 0 || l.last() != '\r' {
        lemma_lines_cons(l, rest);
        assert(l.push('\n') + rest =~= l + seq!['\n'] + rest);
    }
}

} // verus!
