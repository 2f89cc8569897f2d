//! Finding, cutting and joining pieces of text.

use vstd::prelude::*;

use crate::text::chars::{chars_of, is_space, owned, space, trim_start, trim_start_str};

verus! {

/// Whether `p` stands in `s` at position `i`.
pub open spec fn occurs_at(s: Seq<char>, p: Seq<char>, i: int) -> bool {
    0 <= i && i + p.len() <= s.len() && s.subrange(i, i + p.len()) == p
}

/// Whether `p` stands anywhere in `s`.
pub open spec fn contains(s: Seq<char>, p: Seq<char>) -> bool {
    exists|i: int| occurs_at(s, p, i)
}

/// The first position at or after `i` at which `p` stands in `s`.
pub open spec fn find_from(s: Seq<char>, p: Seq<char>, i: nat) -> Option<nat>
    decreases s.len() - i,
{
    if i + p.len() > s.len() {
        None
    } else if occurs_at(s, p, i as int) {
        Some(i)
    } else if i >= s.len() {
        None
    } else {
        find_from(s, p, i + 1)
    }
}

/// The first position at which `p` stands in `s`.
pub open spec fn find(s: Seq<char>, p: Seq<char>) -> Option<nat> {
    find_from(s, p, 0)
}

proof fn lemma_find_from(s: Seq<char>, p: Seq<char>, i: nat)
    ensures
        match find_from(s, p, i) {
            Some(k) => i <= k && occurs_at(s, p, k as int) && forall|j: int|
                i <= j < k ==> !occurs_at(s, p, j),
            None => forall|j: int| i <= j ==> !occurs_at(s, p, j),
        },
    decreases s.len() - i,
{
    if i + p.len() <= s.len() && !occurs_at(s, p, i as int) && i < s.len() {
        lemma_find_from(s, p, i + 1);
    }
}

/// `find` gives the first occurrence, and finds one whenever there is one.
pub proof fn lemma_find(s: Seq<char>, p: Seq<char>)
    ensures
        match find(s, p) {
            Some(k) => occurs_at(s, p, k as int) && contains(s, p) && forall|j: int|
                j < k ==> !occurs_at(s, p, j),
            None => !contains(s, p),
        },
{
    lemma_find_from(s, p, 0);
}

/// A position with no earlier occurrence is the one that `find` gives.
pub proof fn lemma_find_is(s: Seq<char>, p: Seq<char>, k: int)
    requires
        occurs_at(s, p, k),
        forall|j: int| 0 <= j < k ==> !occurs_at(s, p, j),
    ensures
        find(s, p) == Some(k as nat),
{
    lemma_find(s, p);
}

/// The first position at which `f` holds.
pub open spec fn find_where(s: Seq<char>, f: spec_fn(char) -> bool) -> Option<nat>
    decreases s.len(),
{
    if s.len() == 0 {
        None
    } else if f(s[0]) {
        Some(0)
    } else {
        match find_where(s.skip(1), f) {
            Some(k) => Some(k + 1),
            None => None,
        }
    }
}

/// `find_where` skips the characters for which `f` does not hold.
pub proof fn lemma_find_where_is(s: Seq<char>, f: spec_fn(char) -> bool, k: int)
    requires
        0 <= k <= s.len(),
        forall|j: int| 0 <= j < k ==> !f(#[trigger] s[j]),
        k < s.len() ==> f(s[k]),
    ensures
        find_where(s, f) == (if k < s.len() {
            Some(k as nat)
        } else {
            None
        }),
    decreases k,
{
    if k > 0 {
        assert(!f(s[0]));
        assert forall|j: int| 0 <= j < k - 1 implies !f(#[trigger] s.skip(1)[j]) by {
            assert(s.skip(1)[j] == s[j + 1]);
        }
        lemma_find_where_is(s.skip(1), f, k - 1);
    }
}

/// `find_where` gives the first position at which `f` holds, if there is one.
pub proof fn lemma_find_where(s: Seq<char>, f: spec_fn(char) -> bool)
    ensures
        match find_where(s, f) {
            Some(k) => k < s.len() && f(s[k as int]) && forall|j: int|
                0 <= j < k ==> !f(#[trigger] s[j]),
            None => forall|j: int| 0 <= j < s.len() ==> !f(#[trigger] s[j]),
        },
    decreases s.len(),
{
    if s.len() > 0 && !f(s[0]) {
        lemma_find_where(s.skip(1), f);
        match find_where(s.skip(1), f) {
            Some(k) => {
                assert forall|j: int| 0 <= j < k + 1 implies !f(#[trigger] s[j]) by {
                    if j > 0 {
                        assert(s[j] == s.skip(1)[j - 1]);
                    }
                }
            },
            None => {
                assert forall|j: int| 0 <= j < s.len() implies !f(#[trigger] s[j]) by {
                    if j > 0 {
                        assert(s[j] == s.skip(1)[j - 1]);
                    }
                }
            },
        }
    }
}

/// Being the character `c`.
pub open spec fn is_char(c: char) -> spec_fn(char) -> bool {
    |x: char| x == c
}

/// Being white space.
pub open spec fn is_blank() -> spec_fn(char) -> bool {
    |x: char| is_space(x)
}

/// The first position of the character `c`.
pub open spec fn find_char(s: Seq<char>, c: char) -> Option<nat> {
    find_where(s, is_char(c))
}

/// Whether `s` starts with `p`.
pub open spec fn starts_with(s: Seq<char>, p: Seq<char>) -> bool {
    p.len() <= s.len() && s.take(p.len() as int) == p
}

/// Whether `s` ends with `p`.
pub open spec fn ends_with(s: Seq<char>, p: Seq<char>) -> bool {
    p.len() <= s.len() && s.skip(s.len() - p.len()) == p
}

/// What follows the prefix `p` of `s`, if `s` starts with it.
pub open spec fn strip_prefix(s: Seq<char>, p: Seq<char>) -> Option<Seq<char>> {
    if starts_with(s, p) {
        Some(s.skip(p.len() as int))
    } else {
        None
    }
}

/// What stands before and after the first `c` of `s`.
pub open spec fn split_once(s: Seq<char>, c: char) -> Option<(Seq<char>, Seq<char>)> {
    match find_char(s, c) {
        Some(k) => Some((s.take(k as int), s.skip(k as int + 1))),
        None => None,
    }
}

/// The pieces of `s` between the occurrences of `c`.
pub open spec fn split(s: Seq<char>, c: char) -> Seq<Seq<char>>
    decreases s.len(),
{
    match find_char(s, c) {
        Some(k) => if k < s.len() {
            seq![s.take(k as int)] + split(s.skip(k as int + 1), c)
        } else {
            seq![s]
        },
        None => seq![s],
    }
}

/// The piece of `s` between the first and the second `p`, or all that follows the first where
/// there is no second.
pub open spec fn second_piece(s: Seq<char>, p: Seq<char>) -> Option<Seq<char>> {
    match find(s, p) {
        Some(k) => {
            let rest = s.skip((k + p.len()) as int);
            match find(rest, p) {
                Some(n) => Some(rest.take(n as int)),
                None => Some(rest),
            }
        },
        None => None,
    }
}

/// `s` with every occurrence of `p`, taken from the left and without overlap, replaced by `w`.
pub open spec fn replace(s: Seq<char>, p: Seq<char>, w: Seq<char>) -> Seq<char>
    decreases s.len(),
{
    match find(s, p) {
        Some(k) => if 0 < p.len() && k + p.len() <= s.len() {
            s.take(k as int) + w + replace(s.skip((k + p.len()) as int), p, w)
        } else {
            s
        },
        None => s,
    }
}

/// `s` without the `c`s it starts with.
pub open spec fn trim_start_char(s: Seq<char>, c: char) -> Seq<char>
    decreases s.len(),
{
    if s.len() > 0 && s[0] == c {
        trim_start_char(s.skip(1), c)
    } else {
        s
    }
}

/// `s` without the `c`s it ends with.
pub open spec fn trim_end_char(s: Seq<char>, c: char) -> Seq<char>
    decreases s.len(),
{
    if s.len() > 0 && s.last() == c {
        trim_end_char(s.drop_last(), c)
    } else {
        s
    }
}

/// `s` without the `c`s at either end.
pub open spec fn trim_char(s: Seq<char>, c: char) -> Seq<char> {
    trim_end_char(trim_start_char(s, c), c)
}

/// The longest pieces of `s` that hold no white space.
pub open spec fn words(s: Seq<char>) -> Seq<Seq<char>>
    decreases s.len(),
{
    let t = trim_start(s);
    if t.len() == 0 {
        seq![]
    } else {
        match find_where(t, is_blank()) {
            Some(k) => {
                proof {
                    lemma_trim_start_shorter(s);
                    lemma_find_where(t, is_blank());
                }
                seq![t.take(k as int)] + words(t.skip(k as int))
            },
            None => seq![t],
        }
    }
}

/// What is left after trimming does not start with white space.
pub proof fn lemma_trim_start_shorter(s: Seq<char>)
    ensures
        trim_start(s).len() <= s.len(),
        trim_start(s).len() > 0 ==> !is_space(trim_start(s)[0]),
    decreases s.len(),
{
    if s.len() > 0 && is_space(s[0]) {
        lemma_trim_start_shorter(s.skip(1));
    }
}

/// The texts of `parts` with `sep` between them.
pub open spec fn join(parts: Seq<Seq<char>>, sep: Seq<char>) -> Seq<char>
    decreases parts.len(),
{
    if parts.len() == 0 {
        seq![]
    } else if parts.len() == 1 {
        parts[0]
    } else {
        join(parts.drop_last(), sep) + sep + parts.last()
    }
}

fn stands_at(s: &Vec<char>, p: &Vec<char>, i: usize) -> (r: bool)
    requires
        i + p@.len() <= s@.len(),
    ensures
        r == occurs_at(s@, p@, i as int),
{
    let n: usize = s.len();
    let mut j: usize = 0;
    while j < p.len()
        invariant
            j <= p@.len(),
            n == s@.len(),
            i + p@.len() <= s@.len(),
            forall|k: int| 0 <= k < j ==> s@[i + k] == p@[k],
        decreases p@.len() - j,
    {
        if s[i + j] != p[j] {
            proof {
                assert(s@.subrange(i as int, i + p@.len())[j as int] != p@[j as int]);
            }
            return false;
        }
        j = j + 1;
    }
    proof {
        assert(s@.subrange(i as int, i + p@.len()) =~= p@);
    }
    true
}

/// The first position (in characters) at which `p` stands in `s`.
pub fn find_str(s: &str, p: &str) -> (r: Option<usize>)
    ensures
        match r {
            Some(k) => find(s@, p@) == Some(k as nat) && k + p@.len() <= s@.len() <= usize::MAX,
            None => find(s@, p@) is None,
        },
{
    let v: Vec<char> = chars_of(s);
    let w: Vec<char> = chars_of(p);
    let n: usize = v.len();
    if w.len() == 0 {
        proof {
            assert(s@.subrange(0, 0) =~= p@);
            lemma_find_is(s@, p@, 0);
        }
        return Some(0);
    }
    let mut i: usize = 0;
    while i < n && w.len() <= n - i
        invariant
            v@ == s@,
            w@ == p@,
            n == v@.len(),
            i <= n,
            forall|j: int| 0 <= j < i ==> !occurs_at(s@, p@, j),
        decreases v@.len() - i,
    {
        if stands_at(&v, &w, i) {
            proof {
                lemma_find_is(s@, p@, i as int);
            }
            return Some(i);
        }
        i = i + 1;
    }
    proof {
        lemma_find(s@, p@);
    }
    None
}

/// Whether `p` stands in `s`.
pub fn holds(s: &str, p: &str) -> (r: bool)
    ensures
        r == contains(s@, p@),
{
    proof {
        lemma_find(s@, p@);
    }
    find_str(s, p).is_some()
}

/// The first position (in characters) of `c` in `s`.
pub fn find_char_in(s: &str, c: char) -> (r: Option<usize>)
    ensures
        match r {
            Some(k) => find_char(s@, c) == Some(k as nat) && k < s@.len() <= usize::MAX,
            None => find_char(s@, c) is None,
        },
{
    let v: Vec<char> = chars_of(s);
    let mut i: usize = 0;
    while i < v.len()
        invariant
            v@ == s@,
            i <= v@.len(),
            forall|j: int| 0 <= j < i ==> s@[j] != c,
        decreases v@.len() - i,
    {
        if v[i] == c {
            proof {
                lemma_find_where_is(s@, is_char(c), i as int);
            }
            return Some(i);
        }
        i = i + 1;
    }
    proof {
        lemma_find_where_is(s@, is_char(c), i as int);
    }
    None
}

/// Whether `s` starts with `p`.
pub fn starts(s: &str, p: &str) -> (r: bool)
    ensures
        r == starts_with(s@, p@),
{
    let v: Vec<char> = chars_of(s);
    let w: Vec<char> = chars_of(p);
    if w.len() > v.len() {
        return false;
    }
    let r: bool = stands_at(&v, &w, 0);
    proof {
        assert(s@.subrange(0, p@.len() as int) == s@.take(p@.len() as int));
    }
    r
}

/// Whether `s` ends with `p`.
pub fn ends(s: &str, p: &str) -> (r: bool)
    ensures
        r == ends_with(s@, p@),
{
    let v: Vec<char> = chars_of(s);
    let w: Vec<char> = chars_of(p);
    if w.len() > v.len() {
        return false;
    }
    let at: usize = v.len() - w.len();
    let r: bool = stands_at(&v, &w, at);
    proof {
        assert(s@.subrange(at as int, at + p@.len()) == s@.skip(at as int));
    }
    r
}

/// The first `k` characters of `s`.
pub fn take_str(s: &str, k: usize) -> (r: &str)
    requires
        k <= s@.len(),
    ensures
        r@ == s@.take(k as int),
{
    proof {
        assert(s@.subrange(0, k as int) == s@.take(k as int));
    }
    s.substring_char(0, k)
}

/// All but the first `k` characters of `s`.
pub fn skip_str(s: &str, k: usize) -> (r: &str)
    requires
        k <= s@.len(),
    ensures
        r@ == s@.skip(k as int),
{
    proof {
        assert(s@.subrange(k as int, s@.len() as int) == s@.skip(k as int));
    }
    s.substring_char(k, s.unicode_len())
}

/// What follows the prefix `p` of `s`, if `s` starts with it.
pub fn strip<'a>(s: &'a str, p: &str) -> (r: Option<&'a str>)
    ensures
        match r {
            Some(t) => strip_prefix(s@, p@) == Some(t@),
            None => strip_prefix(s@, p@) is None,
        },
{
    if starts(s, p) {
        Some(skip_str(s, p.unicode_len()))
    } else {
        None
    }
}

/// What stands before and after the first `c` of `s`.
pub fn split_once_at(s: &str, c: char) -> (r: Option<(&str, &str)>)
    ensures
        match r {
            Some((a, b)) => split_once(s@, c) == Some((a@, b@)),
            None => split_once(s@, c) is None,
        },
{
    match find_char_in(s, c) {
        Some(k) => Some((take_str(s, k), skip_str(s, k + 1))),
        None => None,
    }
}

/// The pieces of `s` between the occurrences of `c`.
pub fn split_at_char(s: &str, c: char) -> (r: Vec<String>)
    ensures
        r.deep_view() == split(s@, c),
{
    let mut out: Vec<String> = Vec::new();
    let mut rest: &str = s;
    proof {
        assert(out.deep_view() + split(rest@, c) =~= split(s@, c));
    }
    loop
        invariant
            out.deep_view() + split(rest@, c) == split(s@, c),
        decreases rest@.len(),
    {
        match find_char_in(rest, c) {
            Some(k) => {
                let ghost before = out.deep_view();
                let ghost now = rest@;
                out.push(owned(take_str(rest, k)));
                rest = skip_str(rest, k + 1);
                proof {
                    assert(out.deep_view() =~= before.push(now.take(k as int)));
                    assert(out.deep_view() + split(rest@, c) =~= before + split(now, c));
                }
            },
            None => {
                let ghost before = out.deep_view();
                out.push(owned(rest));
                proof {
                    assert(out.deep_view() =~= before + split(rest@, c));
                }
                return out;
            },
        }
    }
}

/// The piece of `s` between the first and the second `p`.
pub fn second_piece_of<'a>(s: &'a str, p: &str) -> (r: Option<&'a str>)
    ensures
        match r {
            Some(t) => second_piece(s@, p@) == Some(t@),
            None => second_piece(s@, p@) is None,
        },
{
    match find_str(s, p) {
        Some(k) => {
            let rest: &str = skip_str(s, k + p.unicode_len());
            match find_str(rest, p) {
                Some(n) => Some(take_str(rest, n)),
                None => Some(rest),
            }
        },
        None => None,
    }
}

/// `s` with every occurrence of `p` replaced by `w`.
pub fn replace_all(s: &str, p: &str, w: &str) -> (r: String)
    requires
        p@.len() > 0,
    ensures
        r@ == replace(s@, p@, w@),
{
    let mut out: String = String::new();
    let mut rest: &str = s;
    proof {
        assert(out@ + replace(rest@, p@, w@) =~= replace(s@, p@, w@));
    }
    loop
        invariant
            p@.len() > 0,
            out@ + replace(rest@, p@, w@) == replace(s@, p@, w@),
        decreases rest@.len(),
    {
        match find_str(rest, p) {
            Some(k) => {
                let ghost before = out@;
                let ghost now = rest@;
                out.append(take_str(rest, k));
                out.append(w);
                rest = skip_str(rest, k + p.unicode_len());
                proof {
                    assert(out@ + replace(rest@, p@, w@) =~= before + replace(now, p@, w@));
                }
            },
            None => {
                out.append(rest);
                return out;
            },
        }
    }
}

proof fn lemma_trim_start_char_skip(s: Seq<char>, c: char, i: int)
    requires
        0 <= i <= s.len(),
        forall|j: int| 0 <= j < i ==> s[j] == c,
    ensures
        trim_start_char(s, c) == trim_start_char(s.skip(i), c),
    decreases i,
{
    if i == 0 {
        assert(s.skip(0) == s);
    } else {
        assert(s[0] == c);
        lemma_trim_start_char_skip(s.skip(1), c, i - 1);
        assert(s.skip(1).skip(i - 1) == s.skip(i));
    }
}

proof fn lemma_trim_end_char_take(s: Seq<char>, c: char, i: int)
    requires
        0 <= i <= s.len(),
        forall|j: int| i <= j < s.len() ==> s[j] == c,
    ensures
        trim_end_char(s, c) == trim_end_char(s.take(i), c),
    decreases s.len() - i,
{
    if i == s.len() {
        assert(s.take(i) == s);
    } else {
        assert(s.last() == c);
        lemma_trim_end_char_take(s.drop_last(), c, i);
        assert(s.drop_last().take(i) == s.take(i));
    }
}

/// `s` without the `c`s it ends with.
pub fn trim_end_char_of(s: &str, c: char) -> (r: &str)
    ensures
        r@ == trim_end_char(s@, c),
{
    let v: Vec<char> = chars_of(s);
    let mut i: usize = v.len();
    while i > 0 && v[i - 1] == c
        invariant
            i <= v@.len(),
            v@ == s@,
            forall|j: int| i <= j < s@.len() ==> s@[j] == c,
        decreases i,
    {
        i = i - 1;
    }
    proof {
        lemma_trim_end_char_take(s@, c, i as int);
    }
    take_str(s, i)
}

/// `s` without the `c`s at either end.
pub fn trim_char_of(s: &str, c: char) -> (r: &str)
    ensures
        r@ == trim_char(s@, c),
{
    let v: Vec<char> = chars_of(s);
    let mut i: usize = 0;
    while i < v.len() && v[i] == c
        invariant
            i <= v@.len(),
            v@ == s@,
            forall|j: int| 0 <= j < i ==> s@[j] == c,
        decreases v@.len() - i,
    {
        i = i + 1;
    }
    proof {
        lemma_trim_start_char_skip(s@, c, i as int);
    }
    trim_end_char_of(skip_str(s, i), c)
}

/// The second word of `s`.
pub fn second_word(s: &str) -> (r: Option<&str>)
    ensures
        match r {
            Some(t) => words(s@).len() >= 2 && words(s@)[1] == t@,
            None => words(s@).len() < 2,
        },
{
    proof {
        lemma_trim_start_shorter(s@);
    }
    let t: &str = trim_start_str(s);
    let k: usize = word_end(t);
    if k == t.unicode_len() {
        return None;
    }
    let rest: &str = skip_str(t, k);
    proof {
        lemma_trim_start_shorter(rest@);
    }
    let u: &str = trim_start_str(rest);
    if u.is_empty() {
        proof {
            assert(words(rest@).len() == 0);
        }
        return None;
    }
    let n: usize = word_end(u);
    proof {
        if n < u@.len() {
            assert(words(rest@) == seq![u@.take(n as int)] + words(u@.skip(n as int)));
        } else {
            assert(u@.take(n as int) == u@);
            assert(words(rest@) == seq![u@]);
        }
        assert(words(s@) == seq![t@.take(k as int)] + words(rest@));
        assert(words(s@)[1] == words(rest@)[0]);
    }
    Some(take_str(u, n))
}

/// How many characters of `s` stand before its first white space.
fn word_end(s: &str) -> (k: usize)
    ensures
        k <= s@.len(),
        find_where(s@, is_blank()) == (if k < s@.len() {
            Some(k as nat)
        } else {
            None
        }),
{
    let v: Vec<char> = chars_of(s);
    let mut i: usize = 0;
    while i < v.len() && !space(v[i])
        invariant
            i <= v@.len(),
            v@ == s@,
            forall|j: int| 0 <= j < i ==> !is_space(#[trigger] s@[j]),
        decreases v@.len() - i,
    {
        i = i + 1;
    }
    proof {
        lemma_find_where_is(s@, is_blank(), i as int);
    }
    i
}

/// The texts `parts[from..to]` with `sep` between them.
pub fn join_between(parts: &[String], from: usize, to: usize, sep: &str) -> (r: String)
    requires
        from <= to <= parts@.len(),
    ensures
        r@ == join(parts.deep_view().subrange(from as int, to as int), sep@),
{
    let mut out: String = String::new();
    let mut i: usize = from;
    while i < to
        invariant
            from <= i <= to <= parts@.len(),
            out@ == join(parts.deep_view().subrange(from as int, i as int), sep@),
        decreases to - i,
    {
        if i > from {
            out.append(sep);
        }
        out.append(parts[i].as_str());
        i = i + 1;
        proof {
            let now = parts.deep_view().subrange(from as int, i as int);
            assert(now.drop_last() == parts.deep_view().subrange(from as int, i - 1));
            assert(now.last() == parts@[i - 1]@);
        }
    }
    out
}

/// All of `parts` with `sep` between them.
pub fn join_all(parts: &[String], sep: &str) -> (r: String)
    ensures
        r@ == join(parts.deep_view(), sep@),
{
    proof {
        assert(parts.deep_view().subrange(0, parts@.len() as int) == parts.deep_view());
    }
    join_between(parts, 0, parts.len(), sep)
}

/// The first `n` characters.
pub open spec fn first_chars(s: Seq<char>, n: nat) -> Seq<char> {
    if s.len() <= n {
        s
    } else {
        s.take(n as int)
    }
}

/// The first `n` characters.
pub fn head_chars(s: &str, n: usize) -> (r: String)
    ensures
        r@ == first_chars(s@, n as nat),
{
    if s.unicode_len() <= n {
        owned(s)
    } else {
        owned(take_str(s, n))
    }
}

/// Two rows of texts joined into one: joined each for itself, with the separator between.
pub proof fn lemma_join_add(a: Seq<Seq<char>>, b: Seq<Seq<char>>, sep: Seq<char>)
    ensures
        a.len() == 0 ==> join(a + b, sep) == join(b, sep),
        b.len() == 0 ==> join(a + b, sep) == join(a, sep),
        a.len() > 0 && b.len() > 0 ==> join(a + b, sep) == join(a, sep) + sep + join(b, sep),
    decreases b.len(),
{
    if a.len() == 0 {
        assert(a + b =~= b);
    } else if b.len() == 0 {
        assert(a + b =~= a);
    } else {
        let d = b.drop_last();
        assert((a + b).drop_last() =~= a + d);
        assert((a + b).last() == b.last());
        lemma_join_add(a, d, sep);
        if d.len() == 0 {
            assert(b =~= seq![b.last()]);
        } else {
            assert(join(a, sep) + sep + join(d, sep) + sep + b.last() =~= join(a, sep) + sep + (join(
                d,
                sep,
            ) + sep + b.last()));
        }
    }
}

/// One text joined is that text.
pub proof fn lemma_join_one(t: Seq<char>, sep: Seq<char>)
    ensures
        join(seq![t], sep) == t,
        join(seq![], sep) == Seq::<char>::empty(),
{
}

/// Splitting once: before the first `c`, which the first part has none of, and behind it.
pub proof fn lemma_split_once(a: Seq<char>, c: char, b: Seq<char>)
    requires
        !a.contains(c),
    ensures
        split_once(a + seq![c] + b, c) == Some((a, b)),
        split_once(a, c) is None,
        find_char(a + seq![c] + b, c) == Some(a.len()),
        find_char(a, c) is None,
{
    let s = a + seq![c] + b;
    assert forall|j: int| 0 <= j < a.len() implies !is_char(c)(#[trigger] s[j]) by {
        assert(s[j] == a[j]);
        assert(a.contains(a[j]));
    }
    assert(s[a.len() as int] == c);
    lemma_find_where_is(s, is_char(c), a.len() as int);
    assert(s.take(a.len() as int) =~= a);
    assert(s.skip(a.len() as int + 1) =~= b);
    assert forall|j: int| 0 <= j < a.len() implies !is_char(c)(#[trigger] a[j]) by {
        assert(a.contains(a[j]));
    }
    lemma_find_where_is(a, is_char(c), a.len() as int);
}

/// The pieces of a text between its `c`s, with `c` between them, are the text again, and none of
/// them holds a `c`.
pub proof fn lemma_split_join(s: Seq<char>, c: char)
    ensures
        split(s, c).len() > 0,
        join(split(s, c), seq![c]) == s,
        forall|i: int| 0 <= i < split(s, c).len() ==> !(#[trigger] split(s, c)[i]).contains(c),
    decreases s.len(),
{
    lemma_find_where(s, is_char(c));
    match find_char(s, c) {
        Some(k) => {
            let first = s.take(k as int);
            let rest = s.skip(k as int + 1);
            lemma_split_join(rest, c);
            lemma_join_add(seq![first], split(rest, c), seq![c]);
            lemma_join_one(first, seq![c]);
            assert(first + seq![c] + rest =~= s);
            assert forall|i: int| 0 <= i < split(s, c).len() implies !(#[trigger] split(
                s,
                c,
            )[i]).contains(c) by {
                if i > 0 {
                    assert(split(s, c)[i] == split(rest, c)[i - 1]);
                } else if first.contains(c) {
                    let j = choose|j: int| 0 <= j < first.len() && first[j] == c;
                    assert(s[j] == c);
                    assert(is_char(c)(s[j]));
                }
            }
        },
        None => {
            if s.contains(c) {
                let j = choose|j: int| 0 <= j < s.len() && s[j] == c;
                assert(is_char(c)(s[j]));
            }
            lemma_join_one(s, seq![c]);
        },
    }
}

/// Splitting at a `c` is splitting before it and behind it.
pub proof fn lemma_split_apart(a: Seq<char>, c: char, b: Seq<char>)
    requires
        !a.contains(c),
    ensures
        split(a, c) == seq![a],
        split(a + seq![c] + b, c) == seq![a] + split(b, c),
{
    lemma_split_once(a, c, b);
    let s = a + seq![c] + b;
    assert(s.take(a.len() as int) =~= a);
    assert(s.skip(a.len() as int + 1) =~= b);
}

/// Replacing: nothing where the pattern does not stand in the text; otherwise its first occurrence
/// makes way for the new text, and so on behind it.
pub proof fn lemma_replace(s: Seq<char>, p: Seq<char>, w: Seq<char>, k: int)
    requires
        p.len() > 0,
    ensures
        (forall|j: int| !occurs_at(s, p, j)) ==> replace(s, p, w) == s,
        occurs_at(s, p, k) && (forall|j: int| 0 <= j < k ==> !occurs_at(s, p, j)) ==> replace(
            s,
            p,
            w,
        ) == s.take(k) + w + replace(s.skip(k + p.len()), p, w),
{
    lemma_find(s, p);
    if occurs_at(s, p, k) && (forall|j: int| 0 <= j < k ==> !occurs_at(s, p, j)) {
        lemma_find_is(s, p, k);
    }
}

/// The piece between the first and the second pattern, or behind the only one.
pub proof fn lemma_second_piece(s: Seq<char>, p: Seq<char>, k: int, n: int)
    requires
        p.len() > 0,
        occurs_at(s, p, k),
        forall|j: int| 0 <= j < k ==> !occurs_at(s, p, j),
        k + p.len() <= n,
        forall|j: int| k + p.len() <= j < n ==> !occurs_at(s, p, j),
    ensures
        occurs_at(s, p, n) ==> second_piece(s, p) == Some(s.subrange(k + p.len(), n)),
        n == s.len() ==> second_piece(s, p) == Some(s.skip(k + p.len())),
{
    lemma_find_is(s, p, k);
    let from = k + p.len();
    let rest = s.skip(from);
    assert forall|j: int| 0 <= j && j + p.len() <= rest.len() implies #[trigger] occurs_at(
        rest,
        p,
        j,
    ) == occurs_at(s, p, from + j) by {
        assert(rest.subrange(j, j + p.len()) =~= s.subrange(from + j, from + j + p.len()));
    }
    lemma_find(rest, p);
    if occurs_at(s, p, n) {
        assert(occurs_at(rest, p, n - from));
        assert forall|j: int| 0 <= j < n - from implies !occurs_at(rest, p, j) by {
            if occurs_at(rest, p, j) {
                assert(occurs_at(s, p, from + j));
            }
        }
        lemma_find_is(rest, p, n - from);
        assert(rest.take(n - from) =~= s.subrange(from, n));
    } else if n == s.len() {
        if find(rest, p) is Some {
            assert(occurs_at(s, p, from + find(rest, p)->0));
        }
    }
}

/// What a text starts and ends with, and what is left of it without its start.
pub proof fn lemma_prefix(p: Seq<char>, rest: Seq<char>, s: Seq<char>)
    ensures
        starts_with(p + rest, p),
        strip_prefix(p + rest, p) == Some(rest),
        ends_with(rest + p, p),
        contains(rest + p, p) && contains(p + rest, p),
        starts_with(s, p) ==> s == p + s.skip(p.len() as int),
        ends_with(s, p) ==> s == s.take(s.len() - p.len()) + p,
        strip_prefix(s, p) is Some ==> s == p + strip_prefix(s, p)->0,
{
    let a = p + rest;
    let b = rest + p;
    assert(a.take(p.len() as int) =~= p);
    assert(a.skip(p.len() as int) =~= rest);
    assert(b.skip(b.len() - p.len()) =~= p);
    assert(a.subrange(0, p.len() as int) =~= p);
    assert(occurs_at(a, p, 0));
    assert(b.subrange(rest.len() as int, (rest.len() + p.len()) as int) =~= p);
    assert(occurs_at(b, p, rest.len() as int));
    if starts_with(s, p) {
        assert(s =~= s.take(p.len() as int) + s.skip(p.len() as int));
    }
    if ends_with(s, p) {
        assert(s =~= s.take(s.len() - p.len()) + s.skip(s.len() - p.len()));
    }
}

/// The first characters of a text: all of them where there are no more, otherwise as many as are
/// wanted.
pub proof fn lemma_first_chars(s: Seq<char>, n: nat)
    ensures
        first_chars(s, n).len() == if s.len() < n {
            s.len()
        } else {
            n
        },
        forall|i: int|
            0 <= i < first_chars(s, n).len() ==> (#[trigger] first_chars(s, n)[i]) == s[i],
{
}

/// The words of a text: white space before a word is passed over, a word ends where white space
/// follows, or with the text.
pub proof fn lemma_words(w: Seq<char>, c: char, rest: Seq<char>)
    requires
        w.len() > 0,
        forall|i: int| 0 <= i < w.len() ==> !is_space(#[trigger] w[i]),
        is_space(c),
    ensures
        words(Seq::empty()) == Seq::<Seq<char>>::empty(),
        words(seq![c] + rest) == words(rest),
        words(w) == seq![w],
        words(w + seq![c] + rest) == seq![w] + words(rest),
{
    let blank = seq![c] + rest;
    assert(blank.skip(1) =~= rest);
    assert(trim_start(blank) == trim_start(rest));
    assert(is_blank()(c));
    assert(!is_space(w[0]));
    assert(trim_start(w) == w);
    assert forall|j: int| 0 <= j < w.len() implies !is_blank()(#[trigger] w[j]) by {}
    lemma_find_where_is(w, is_blank(), w.len() as int);
    let s = w + seq![c] + rest;
    assert(s[0] == w[0]);
    assert(trim_start(s) == s);
    assert forall|j: int| 0 <= j < w.len() implies !is_blank()(#[trigger] s[j]) by {
        assert(s[j] == w[j]);
    }
    assert(s[w.len() as int] == c);
    lemma_find_where_is(s, is_blank(), w.len() as int);
    assert(s.take(w.len() as int) =~= w);
    assert(s.skip(w.len() as int) =~= blank);
    assert(trim_start(Seq::<char>::empty()) =~= Seq::<char>::empty());
}

/// What is left without the `c`s at the end of a text is all that stands before them.
pub proof fn lemma_trim_end_char(s: Seq<char>, c: char, n: int)
    requires
        0 <= n <= s.len(),
        n > 0 ==> s[n - 1] != c,
        forall|j: int| n <= j < s.len() ==> (#[trigger] s[j]) == c,
    ensures
        trim_end_char(s, c) == s.take(n),
{
    lemma_trim_end_char_take(s, c, n);
    if n > 0 {
        assert(s.take(n).last() == s[n - 1]);
    }
}

/// Trimming a character takes it off the ends of a text, as often as it stands there, and changes
/// nothing else.
pub proof fn lemma_trim_char(s: Seq<char>, c: char, i: int, n: int)
    requires
        0 <= i <= n <= s.len(),
        forall|j: int| 0 <= j < i ==> (#[trigger] s[j]) == c,
        forall|j: int| n <= j < s.len() ==> (#[trigger] s[j]) == c,
        i < n ==> s[i] != c && s[n - 1] != c,
    ensures
        trim_char(s, c) == s.subrange(i, n),
        i == 0 ==> trim_end_char(s, c) == s.take(n),
{
    let m = if i < n {
        i
    } else {
        s.len() as int
    };
    lemma_trim_start_char_skip(s, c, m);
    let t = s.skip(m);
    if i < n {
        assert(t[0] == s[i]);
        assert forall|j: int| n - i <= j < t.len() implies (#[trigger] t[j]) == c by {
            assert(t[j] == s[j + i]);
        }
        lemma_trim_end_char(t, c, n - i);
        assert(t.take(n - i) =~= s.subrange(i, n));
        lemma_trim_end_char(s, c, n);
    } else {
        assert(t =~= Seq::<char>::empty());
        assert(s.subrange(i, n) =~= Seq::<char>::empty());
        if i == 0 {
            lemma_trim_end_char(s, c, 0);
        }
    }
}

} // verus!
