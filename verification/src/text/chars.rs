//! Characters, whole-string comparison, and trimming.

use vstd::prelude::*;

verus! {

/// `String::push` appends one character.
pub assume_specification[ String::push ](s: &mut String, c: char)
    ensures
        final(s)@ == old(s)@.push(c),
;

/// The characters of `s`, in order.
pub fn chars_of(s: &str) -> (r: Vec<char>)
    ensures
        r@ == s@,
{
    let mut out: Vec<char> = Vec::new();
    for c in it: s.chars()
        invariant
            it.seq() == s@,
            out@ == s@.take(it.index() as int),
    {
        proof {
            assert(s@.take(it.index() + 1) == s@.take(it.index() as int).push(
                s@[it.index() as int],
            ));
        }
        out.push(c);
    }
    proof {
        assert(s@.take(s@.len() as int) == s@);
    }
    out
}

/// The string made of `v[from..to]`.
pub fn string_of(v: &Vec<char>, from: usize, to: usize) -> (r: String)
    requires
        from <= to <= v@.len(),
    ensures
        r@ == v@.subrange(from as int, to as int),
{
    let mut out: String = String::new();
    let mut i: usize = from;
    while i < to
        invariant
            from <= i <= to <= v@.len(),
            out@ == v@.subrange(from as int, i as int),
        decreases to - i,
    {
        out.push(v[i]);
        i = i + 1;
        proof {
            assert(v@.subrange(from as int, i as int) == v@.subrange(from as int, i - 1).push(
                v@[i - 1],
            ));
        }
    }
    out
}

/// A string of its own with the contents of `s`.
pub fn owned(s: &str) -> (r: String)
    ensures
        r@ == s@,
{
    s.to_owned()
}

/// Whether two strings hold the same characters.
pub fn same(a: &str, b: &str) -> (r: bool)
    ensures
        r == (a@ == b@),
{
    let x: Vec<char> = chars_of(a);
    let y: Vec<char> = chars_of(b);
    if x.len() != y.len() {
        return false;
    }
    let mut i: usize = 0;
    while i < x.len()
        invariant
            i <= x@.len(),
            x@.len() == y@.len(),
            x@ == a@,
            y@ == b@,
            forall|j: int| 0 <= j < i ==> x@[j] == y@[j],
        decreases x@.len() - i,
    {
        if x[i] != y[i] {
            return false;
        }
        i = i + 1;
    }
    proof {
        assert(x@ =~= y@);
    }
    true
}

/// Whether an optional string is `Some` with the characters of `b`.
pub fn is_some_text(a: &Option<String>, b: &str) -> (r: bool)
    ensures
        r == (a.deep_view() == Some(b@)),
{
    match a {
        Some(s) => same(s.as_str(), b),
        None => false,
    }
}

/// Unicode `White_Space`.
pub open spec fn is_space(c: char) -> bool {
    let n = c as u32;
    ||| 0x9 <= n <= 0xd
    ||| n == 0x20
    ||| n == 0x85
    ||| n == 0xa0
    ||| n == 0x1680
    ||| 0x2000 <= n <= 0x200a
    ||| n == 0x2028
    ||| n == 0x2029
    ||| n == 0x202f
    ||| n == 0x205f
    ||| n == 0x3000
}

/// Whether `c` is white space.
pub fn space(c: char) -> (r: bool)
    ensures
        r == is_space(c),
{
    let n: u32 = c as u32;
    (0x9 <= n && n <= 0xd) || n == 0x20 || n == 0x85 || n == 0xa0 || n == 0x1680 || (0x2000 <= n
        && n <= 0x200a) || n == 0x2028 || n == 0x2029 || n == 0x202f || n == 0x205f || n == 0x3000
}

pub open spec fn is_ascii_upper(c: char) -> bool {
    'A' <= c <= 'Z'
}

pub open spec fn is_ascii_lower(c: char) -> bool {
    'a' <= c <= 'z'
}

pub open spec fn is_ascii_letter(c: char) -> bool {
    is_ascii_upper(c) || is_ascii_lower(c)
}

/// The ASCII lower case of `c`.
pub open spec fn lower(c: char) -> char {
    if is_ascii_upper(c) {
        (c as u32 + 32) as char
    } else {
        c
    }
}

/// The ASCII lower case of every character of `s`.
pub open spec fn lower_text(s: Seq<char>) -> Seq<char> {
    Seq::new(s.len(), |i: int| lower(s[i]))
}

/// The ASCII lower case of `c`.
pub fn lower_char(c: char) -> (r: char)
    ensures
        r == lower(c),
{
    if 'A' <= c && c <= 'Z' {
        ((c as u8) + 32u8) as char
    } else {
        c
    }
}

/// The ASCII lower case of `s`.
pub fn lower_string(s: &str) -> (r: String)
    ensures
        r@ == lower_text(s@),
{
    let v: Vec<char> = chars_of(s);
    let mut out: String = String::new();
    let mut i: usize = 0;
    while i < v.len()
        invariant
            i <= v@.len(),
            out@ == lower_text(v@).take(i as int),
        decreases v@.len() - i,
    {
        out.push(lower_char(v[i]));
        i = i + 1;
        proof {
            assert(lower_text(v@).take(i as int) == lower_text(v@).take(i - 1).push(
                lower(v@[i - 1]),
            ));
        }
    }
    proof {
        assert(lower_text(v@).take(v@.len() as int) == lower_text(v@));
    }
    out
}

/// Whether two strings agree up to the case of ASCII letters.
pub fn same_ignoring_case(a: &str, b: &str) -> (r: bool)
    ensures
        r == (lower_text(a@) == lower_text(b@)),
{
    let x: String = lower_string(a);
    let y: String = lower_string(b);
    same(x.as_str(), y.as_str())
}

/// `s` without the white space it starts with.
pub open spec fn trim_start(s: Seq<char>) -> Seq<char>
    decreases s.len(),
{
    if s.len() > 0 && is_space(s[0]) {
        trim_start(s.skip(1))
    } else {
        s
    }
}

/// `s` without the white space it ends with.
pub open spec fn trim_end(s: Seq<char>) -> Seq<char>
    decreases s.len(),
{
    if s.len() > 0 && is_space(s.last()) {
        trim_end(s.drop_last())
    } else {
        s
    }
}

/// `s` without white space at either end.
pub open spec fn trim(s: Seq<char>) -> Seq<char> {
    trim_end(trim_start(s))
}

proof fn lemma_trim_start_skip(s: Seq<char>, i: int)
    requires
        0 <= i <= s.len(),
        forall|j: int| 0 <= j < i ==> is_space(#[trigger] s[j]),
    ensures
        trim_start(s) == trim_start(s.skip(i)),
    decreases i,
{
    if i == 0 {
        assert(s.skip(0) == s);
    } else {
        assert(is_space(s[0]));
        assert forall|j: int| 0 <= j < i - 1 implies is_space(#[trigger] s.skip(1)[j]) by {
            assert(s.skip(1)[j] == s[j + 1]);
        }
        lemma_trim_start_skip(s.skip(1), i - 1);
        assert(s.skip(1).skip(i - 1) == s.skip(i));
    }
}

proof fn lemma_trim_end_take(s: Seq<char>, i: int)
    requires
        0 <= i <= s.len(),
        forall|j: int| i <= j < s.len() ==> is_space(#[trigger] s[j]),
    ensures
        trim_end(s) == trim_end(s.take(i)),
    decreases s.len() - i,
{
    if i == s.len() {
        assert(s.take(i) == s);
    } else {
        assert(is_space(s.last()));
        assert forall|j: int| i <= j < s.len() - 1 implies is_space(
            #[trigger] s.drop_last()[j],
        ) by {
            assert(s.drop_last()[j] == s[j]);
        }
        lemma_trim_end_take(s.drop_last(), i);
        assert(s.drop_last().take(i) == s.take(i));
    }
}

/// `s` without the white space it starts with.
pub fn trim_start_str(s: &str) -> (r: &str)
    ensures
        r@ == trim_start(s@),
{
    let v: Vec<char> = chars_of(s);
    let mut i: usize = 0;
    while i < v.len() && space(v[i])
        invariant
            i <= v@.len(),
            v@ == s@,
            forall|j: int| 0 <= j < i ==> is_space(#[trigger] s@[j]),
        decreases v@.len() - i,
    {
        i = i + 1;
    }
    proof {
        lemma_trim_start_skip(s@, i as int);
    }
    s.substring_char(i, v.len())
}

/// `s` without the white space it ends with.
pub fn trim_end_str(s: &str) -> (r: &str)
    ensures
        r@ == trim_end(s@),
{
    let v: Vec<char> = chars_of(s);
    let mut i: usize = v.len();
    while i > 0 && space(v[i - 1])
        invariant
            i <= v@.len(),
            v@ == s@,
            forall|j: int| i <= j < s@.len() ==> is_space(#[trigger] s@[j]),
        decreases i,
    {
        i = i - 1;
    }
    proof {
        lemma_trim_end_take(s@, i as int);
    }
    s.substring_char(0, i)
}

/// `s` without white space at either end.
pub fn trim_str(s: &str) -> (r: &str)
    ensures
        r@ == trim(s@),
{
    trim_end_str(trim_start_str(s))
}

/// Trimming leaves a text alone exactly when it neither starts nor ends with white space.
pub proof fn lemma_trim_fixed(s: Seq<char>)
    ensures
        (s.len() == 0 || (!is_space(s[0]) && !is_space(s.last()))) ==> trim(s) == s,
{
}

/// What a trimmed text looks like: it is a piece of the text, and its ends are not white
/// space.
pub proof fn lemma_trim_ends(s: Seq<char>)
    ensures
        trim(s).len() <= s.len(),
        trim(s).len() > 0 ==> !is_space(trim(s)[0]) && !is_space(trim(s).last()),
        trim(trim(s)) == trim(s),
        forall|c: char| trim(s).contains(c) ==> s.contains(c),
{
    lemma_trim_start_piece(s);
    lemma_trim_end_piece(trim_start(s));
    let t = trim_start(s);
    if trim(s).len() > 0 {
        assert(trim(s)[0] == t[0]);
    }
    lemma_trim_fixed(trim(s));
    assert forall|c: char| trim(s).contains(c) implies s.contains(c) by {
        let i = trim(s).index_of(c);
        assert(t[i] == c);
        assert(s[i + (s.len() - t.len())] == c);
    }
}

proof fn lemma_trim_start_piece(s: Seq<char>)
    ensures
        trim_start(s).len() <= s.len(),
        trim_start(s) == s.skip(s.len() - trim_start(s).len()),
        trim_start(s).len() > 0 ==> !is_space(trim_start(s)[0]),
    decreases s.len(),
{
    if s.len() > 0 && is_space(s[0]) {
        lemma_trim_start_piece(s.skip(1));
        let n = trim_start(s).len();
        assert(s.skip(1).skip(s.skip(1).len() - n) == s.skip(s.len() - n));
    } else {
        assert(s.skip(0) == s);
    }
}

proof fn lemma_trim_end_piece(s: Seq<char>)
    ensures
        trim_end(s).len() <= s.len(),
        trim_end(s) == s.take(trim_end(s).len() as int),
        trim_end(s).len() > 0 ==> !is_space(trim_end(s).last()),
    decreases s.len(),
{
    if s.len() > 0 && is_space(s.last()) {
        lemma_trim_end_piece(s.drop_last());
        let n = trim_end(s).len();
        assert(s.drop_last().take(n as int) == s.take(n as int));
    } else {
        assert(s.take(s.len() as int) == s);
    }
}

/// Whether `t` is what stands in `s` from `i` on, with nothing but white space before and behind it,
/// and none at its ends.
pub open spec fn is_core(s: Seq<char>, t: Seq<char>, i: int) -> bool {
    &&& 0 <= i && i + t.len() <= s.len()
    &&& t == s.subrange(i, i + t.len())
    &&& forall|j: int| 0 <= j < i ==> is_space(#[trigger] s[j])
    &&& forall|j: int| i + t.len() <= j < s.len() ==> is_space(#[trigger] s[j])
    &&& t.len() > 0 ==> !is_space(t[0]) && !is_space(t.last())
}

proof fn lemma_trim_start_at(s: Seq<char>) -> (i: int)
    ensures
        0 <= i <= s.len(),
        trim_start(s) == s.skip(i),
        forall|j: int| 0 <= j < i ==> is_space(#[trigger] s[j]),
        i < s.len() ==> !is_space(s[i]),
    decreases s.len(),
{
    if s.len() > 0 && is_space(s[0]) {
        let i = lemma_trim_start_at(s.skip(1));
        assert(s.skip(1).skip(i) =~= s.skip(i + 1));
        assert forall|j: int| 0 <= j < i + 1 implies is_space(#[trigger] s[j]) by {
            if j > 0 {
                assert(s.skip(1)[j - 1] == s[j]);
            }
        }
        i + 1
    } else {
        assert(s.skip(0) =~= s);
        0
    }
}

proof fn lemma_trim_end_at(s: Seq<char>) -> (n: int)
    ensures
        0 <= n <= s.len(),
        trim_end(s) == s.take(n),
        forall|j: int| n <= j < s.len() ==> is_space(#[trigger] s[j]),
        n > 0 ==> !is_space(s[n - 1]),
    decreases s.len(),
{
    if s.len() > 0 && is_space(s.last()) {
        let n = lemma_trim_end_at(s.drop_last());
        assert(s.drop_last().take(n) =~= s.take(n));
        assert forall|j: int| n <= j < s.len() implies is_space(#[trigger] s[j]) by {
            if j < s.len() - 1 {
                assert(s.drop_last()[j] == s[j]);
            }
        }
        n
    } else {
        assert(s.take(s.len() as int) =~= s);
        s.len() as int
    }
}

/// Trimming takes the white space off both ends, all of it, and nothing else.
pub proof fn lemma_trim_core(s: Seq<char>)
    ensures
        exists|i: int| #[trigger] is_core(s, trim(s), i),
        exists|i: int| 0 <= i <= s.len() && trim_start(s) == #[trigger] s.skip(i),
        trim_start(s).len() > 0 ==> !is_space(trim_start(s)[0]),
        exists|n: int| 0 <= n <= s.len() && trim_end(s) == #[trigger] s.take(n),
        trim_end(s).len() > 0 ==> !is_space(trim_end(s).last()),
        (forall|j: int| 0 <= j < s.len() ==> is_space(#[trigger] s[j])) ==> trim(s).len() == 0,
{
    let i = lemma_trim_start_at(s);
    let m = s.skip(i);
    let n = lemma_trim_end_at(m);
    let k = lemma_trim_end_at(s);
    let t = trim(s);
    assert(t =~= s.subrange(i, i + n));
    assert forall|j: int| i + n <= j < s.len() implies is_space(#[trigger] s[j]) by {
        assert(m[j - i] == s[j]);
    }
    if n > 0 {
        assert(m[0] == s[i]);
        assert(t[0] == s[i]);
        assert(t.last() == m[n - 1]);
    }
    assert(is_core(s, t, i));
}

/// Which characters are white space: those of Unicode's `White_Space`.
pub proof fn lemma_spaces(c: char)
    ensures
        is_space(c) <==> c == ' ' || '\t' <= c <= '\r' || c == '\u{85}' || c == '\u{a0}' || c
            == '\u{1680}' || '\u{2000}' <= c <= '\u{200a}' || c == '\u{2028}' || c == '\u{2029}'
            || c == '\u{202f}' || c == '\u{205f}' || c == '\u{3000}',
{
}

/// The lower case of a text: as long as the text, with the capital letters of ASCII made small and
/// everything else as it is.
pub proof fn lemma_lower_text(s: Seq<char>)
    ensures
        lower_text(s).len() == s.len(),
        forall|i: int|
            0 <= i < s.len() ==> if 'A' <= s[i] <= 'Z' {
                (#[trigger] lower_text(s)[i]) as u32 == s[i] as u32 + 32
            } else {
                lower_text(s)[i] == s[i]
            },
        lower_text(lower_text(s)) == lower_text(s),
{
    assert forall|i: int| 0 <= i < s.len() implies lower(lower(#[trigger] s[i])) == lower(s[i]) by {}
    assert(lower_text(lower_text(s)) =~= lower_text(s));
}

} // verus!
