//! Search over code symbols by the terms they hold, on an index in memory.

use tantivy::schema::Value;
use vstd::prelude::*;

use crate::text::chars::{
    is_ascii_letter, is_ascii_lower, is_ascii_upper, lower, lower_char, lower_string, owned,
    same, string_of, chars_of,
};
use crate::text::number::is_digit;
use crate::text::search::{join, join_all, lemma_join_add, lemma_join_one};
use crate::text::slice::{byte_slice, slice_of};
use crate::text::table::Table;

verus! {

/// What `char::is_alphanumeric` says of a character beyond ASCII.
pub uninterp spec fn is_alphanumeric_char(c: char) -> bool;

/// Calls `char::is_alphanumeric`: of the ASCII characters it says yes to letters and digits, and
/// of the others it says `is_alphanumeric_char`, a function of the character.
#[verifier::external_body]
fn alphanumeric(c: char) -> (r: bool)
    ensures
        r == (if c <= '\u{7f}' {
            is_ascii_letter(c) || is_digit(c)
        } else {
            is_alphanumeric_char(c)
        }),
{
    c.is_alphanumeric()
}

/// Whether a character belongs to a term: a letter, a digit or `_`.
pub open spec fn is_term_char(c: char) -> bool {
    if c <= '\u{7f}' {
        is_ascii_letter(c) || is_digit(c) || c == '_'
    } else {
        is_alphanumeric_char(c)
    }
}

/// How many characters of `s` from its start on belong to a term.
pub open spec fn term_len(s: Seq<char>) -> nat
    decreases s.len(),
{
    if s.len() > 0 && is_term_char(s[0]) {
        1 + term_len(s.skip(1))
    } else {
        0
    }
}

pub proof fn lemma_term_len(s: Seq<char>)
    ensures
        term_len(s) <= s.len(),
        forall|i: int| 0 <= i < term_len(s) ==> is_term_char(#[trigger] s[i]),
        term_len(s) < s.len() ==> !is_term_char(s[term_len(s) as int]),
    decreases s.len(),
{
    if s.len() > 0 && is_term_char(s[0]) {
        let t = s.skip(1);
        lemma_term_len(t);
        assert forall|i: int| 0 <= i < term_len(s) implies is_term_char(#[trigger] s[i]) by {
            if i > 0 {
                assert(s[i] == t[i - 1]);
            }
        }
        if term_len(s) < s.len() {
            assert(s[term_len(s) as int] == t[term_len(t) as int]);
        }
    }
}

/// The terms of a text: its longest pieces that are made of letters, digits and `_`.
pub open spec fn terms(s: Seq<char>) -> Seq<Seq<char>>
    decreases s.len(),
{
    if s.len() == 0 {
        seq![]
    } else if is_term_char(s[0]) {
        proof {
            lemma_term_len(s);
        }
        let n = term_len(s) as int;
        seq![s.take(n)] + terms(s.skip(n))
    } else {
        terms(s.skip(1))
    }
}

/// Whether a new word starts at position `i` inside a term: behind a small letter or a digit
/// stands a capital one.
pub open spec fn is_hump(t: Seq<char>, i: int) -> bool {
    0 < i < t.len() && (is_ascii_lower(t[i - 1]) || is_digit(t[i - 1])) && is_ascii_upper(t[i])
}

/// How long the first word of a term is: up to the next `_` or the next capital letter behind a
/// small one.
pub open spec fn word_len(t: Seq<char>, i: int) -> int
    decreases t.len() - i,
{
    if i >= t.len() || i < 0 {
        t.len() as int
    } else if t[i] == '_' || is_hump(t, i) {
        i
    } else {
        word_len(t, i + 1)
    }
}

pub proof fn lemma_word_len(t: Seq<char>, i: int)
    requires
        0 <= i <= t.len(),
    ensures
        i <= word_len(t, i) <= t.len(),
        i < t.len() && t[i] != '_' && !is_hump(t, i) ==> word_len(t, i) > i,
    decreases t.len() - i,
{
    if i < t.len() && t[i] != '_' && !is_hump(t, i) {
        lemma_word_len(t, i + 1);
    }
}

/// The words of a term in small letters: `refreshStale` and `refresh_stale` are both made of
/// `refresh` and `stale`.
pub open spec fn words_of(t: Seq<char>) -> Seq<Seq<char>>
    decreases t.len(),
{
    if t.len() == 0 {
        seq![]
    } else if t[0] == '_' {
        words_of(t.skip(1))
    } else {
        proof {
            lemma_word_len(t, 1);
        }
        let n = word_len(t, 1);
        seq![crate::text::chars::lower_text(t.take(n))] + words_of(t.skip(n))
    }
}

/// Whether a term means something to tantivy's query language.
pub open spec fn is_reserved(t: Seq<char>) -> bool {
    t == "OR"@ || t == "AND"@ || t == "NOT"@ || t == "IN"@
}

/// A term that means nothing to tantivy's query language: a reserved one in small letters, any
/// other as it is.
pub open spec fn unreserved(t: Seq<char>) -> Seq<char> {
    if is_reserved(t) {
        crate::text::chars::lower_text(t)
    } else {
        t
    }
}

/// A term, followed by its words where it has more than one.
pub open spec fn expanded(t: Seq<char>) -> Seq<Seq<char>> {
    if words_of(t).len() > 1 {
        seq![unreserved(t)] + words_of(t)
    } else {
        seq![unreserved(t)]
    }
}

/// Terms, each followed by its words where it has more than one.
pub open spec fn all_expanded(ts: Seq<Seq<char>>) -> Seq<Seq<char>>
    decreases ts.len(),
{
    if ts.len() == 0 {
        seq![]
    } else {
        all_expanded(ts.drop_last()) + expanded(ts.last())
    }
}

/// A query reduced to bare terms.
pub open spec fn sanitized(query: Seq<char>) -> Seq<char> {
    join(all_expanded(terms(query)), " "@)
}

/// Where the term that starts at `from` ends.
fn term_end(cs: &Vec<char>, from: usize) -> (end: usize)
    requires
        from <= cs@.len(),
    ensures
        from <= end <= cs@.len(),
        end - from == term_len(cs@.skip(from as int)),
{
    let mut end: usize = from;
    while end < cs.len() && (alphanumeric(cs[end]) || cs[end] == '_')
        invariant
            from <= end <= cs@.len(),
            term_len(cs@.skip(from as int)) == end - from + term_len(cs@.skip(end as int)),
        decreases cs@.len() - end,
    {
        proof {
            assert(cs@.skip(end as int).skip(1) =~= cs@.skip(end + 1));
            assert(cs@.skip(end as int)[0] == cs@[end as int]);
        }
        end = end + 1;
    }
    proof {
        if end < cs@.len() {
            assert(cs@.skip(end as int)[0] == cs@[end as int]);
        }
    }
    end
}

/// The terms of a text.
fn terms_in(s: &str) -> (r: Vec<String>)
    ensures
        r.deep_view() == terms(s@),
{
    let cs: Vec<char> = chars_of(s);
    let n: usize = cs.len();
    let mut out: Vec<String> = Vec::new();
    let mut i: usize = 0;
    proof {
        assert(s@.skip(0) =~= s@);
        assert(out.deep_view() + terms(s@) =~= terms(s@));
    }
    while i < n
        invariant
            i <= n,
            n == cs@.len(),
            cs@ == s@,
            terms(s@) == out.deep_view() + terms(s@.skip(i as int)),
        decreases n - i,
    {
        let ghost rest = s@.skip(i as int);
        let end: usize = term_end(&cs, i);
        assert(rest[0] == cs@[i as int]);
        if end > i {
            let t: String = string_of(&cs, i, end);
            let ghost before = out.deep_view();
            out.push(t);
            proof {
                assert(rest.take(end - i) =~= t@);
                assert(rest.skip(end - i) =~= s@.skip(end as int));
                assert(out.deep_view() =~= before.push(t@));
                assert(before + (seq![t@] + terms(s@.skip(end as int))) =~= before.push(t@) + terms(
                    s@.skip(end as int),
                ));
            }
            i = end;
        } else {
            assert(rest.skip(1) =~= s@.skip(i + 1));
            i = i + 1;
        }
    }
    assert(s@.skip(i as int) =~= Seq::<char>::empty());
    assert(out.deep_view() + Seq::<Seq<char>>::empty() =~= out.deep_view());
    out
}

/// The words of a term in small letters.
fn words_in(t: &str) -> (r: Vec<String>)
    ensures
        r.deep_view() == words_of(t@),
{
    let cs: Vec<char> = chars_of(t);
    let n: usize = cs.len();
    let mut out: Vec<String> = Vec::new();
    let mut i: usize = 0;
    proof {
        assert(t@.skip(0) =~= t@);
        assert(out.deep_view() + words_of(t@) =~= words_of(t@));
    }
    while i < n
        invariant
            i <= n,
            n == cs@.len(),
            cs@ == t@,
            words_of(t@) == out.deep_view() + words_of(t@.skip(i as int)),
        decreases n - i,
    {
        let ghost rest = t@.skip(i as int);
        assert(rest[0] == cs@[i as int]);
        if cs[i] == '_' {
            assert(rest.skip(1) =~= t@.skip(i + 1));
            i = i + 1;
        } else {
            let mut word: String = String::new();
            word.push(lower_char(cs[i]));
            let mut end: usize = i + 1;
            proof {
                assert(word@ =~= crate::text::chars::lower_text(rest.take(1)));
            }
            while end < n && cs[end] != '_' && !((('a' <= cs[end - 1] && cs[end - 1] <= 'z') || (
            '0' <= cs[end - 1] && cs[end - 1] <= '9')) && 'A' <= cs[end] && cs[end] <= 'Z')
                invariant
                    i < end <= n,
                    n == cs@.len(),
                    cs@ == t@,
                    rest == t@.skip(i as int),
                    word@ == crate::text::chars::lower_text(rest.take(end - i)),
                    word_len(rest, 1) == word_len(rest, end - i),
                decreases n - end,
            {
                proof {
                    assert(rest[end - i] == cs@[end as int]);
                    assert(rest[end - i - 1] == cs@[end - 1]);
                    assert(!is_hump(rest, end - i));
                    assert(crate::text::chars::lower_text(rest.take(end + 1 - i))
                        =~= crate::text::chars::lower_text(rest.take(end - i)).push(
                        lower(cs@[end as int]),
                    ));
                }
                word.push(lower_char(cs[end]));
                end = end + 1;
            }
            proof {
                if end < n {
                    assert(rest[end - i] == cs@[end as int]);
                    assert(rest[end - i - 1] == cs@[end - 1]);
                }
                assert(word_len(rest, end - i) == end - i);
                assert(rest.skip(end - i) =~= t@.skip(end as int));
            }
            let ghost before = out.deep_view();
            out.push(word);
            proof {
                assert(out.deep_view() =~= before.push(word@));
                assert(before + (seq![word@] + words_of(t@.skip(end as int))) =~= before.push(
                    word@,
                ) + words_of(t@.skip(end as int)));
            }
            i = end;
        }
    }
    assert(t@.skip(i as int) =~= Seq::<char>::empty());
    assert(out.deep_view() + Seq::<Seq<char>>::empty() =~= out.deep_view());
    out
}

/// A term that means nothing to tantivy's query language.
fn bare_term(t: &str) -> (r: String)
    ensures
        r@ == unreserved(t@),
{
    if same(t, "OR") || same(t, "AND") || same(t, "NOT") || same(t, "IN") {
        lower_string(t)
    } else {
        owned(t)
    }
}

/// Reduces a query to bare terms, so that it holds nothing of a query language: every term, in
/// small letters where it is reserved, and behind it its words where it has more than one.
pub fn sanitize(query: &str) -> (r: String)
    ensures
        r@ == sanitized(query@),
{
    let ts: Vec<String> = terms_in(query);
    let ghost all = ts.deep_view();
    let mut out: Vec<String> = Vec::new();
    let mut i: usize = 0;
    assert(out.deep_view() =~= Seq::<Seq<char>>::empty());
    while i < ts.len()
        invariant
            i <= ts@.len(),
            all == ts.deep_view(),
            out.deep_view() == all_expanded(all.take(i as int)),
        decreases ts@.len() - i,
    {
        let t: &str = ts[i].as_str();
        let ghost before = out.deep_view();
        proof {
            assert(all[i as int] == t@);
            assert(all.take(i + 1).drop_last() =~= all.take(i as int));
            assert(all.take(i + 1).last() == t@);
        }
        let bare: String = bare_term(t);
        let ghost first = bare@;
        out.push(bare);
        assert(out.deep_view() =~= before + seq![first]);
        let mut ws: Vec<String> = words_in(t);
        if ws.len() > 1 {
            let ghost w = ws.deep_view();
            assert(w.len() > 1);
            let ghost mid = out.deep_view();
            out.append(&mut ws);
            proof {
                assert(out.deep_view() =~= mid + w);
                assert(before + seq![first] + w =~= before + (seq![first] + w));
            }
        } else {
            assert(ws.deep_view().len() <= 1);
        }
        i = i + 1;
    }
    assert(all.take(i as int) =~= all);
    join_all(&out, " ")
}

/// Whether a text is a term: not empty, and made of term characters.
pub open spec fn is_term(s: Seq<char>) -> bool {
    s.len() > 0 && forall|i: int| 0 <= i < s.len() ==> is_term_char(#[trigger] s[i])
}

/// Whether all of these are terms.
pub open spec fn all_terms(ts: Seq<Seq<char>>) -> bool {
    forall|i: int| 0 <= i < ts.len() ==> is_term(#[trigger] ts[i])
}

/// Whether all of these are terms that mean nothing to tantivy's query language.
pub open spec fn all_bare(ts: Seq<Seq<char>>) -> bool {
    forall|i: int| 0 <= i < ts.len() ==> is_term(#[trigger] ts[i]) && !is_reserved(ts[i])
}

/// Whether a text is made of terms that mean nothing to tantivy's query language, with a space
/// between each two.
pub open spec fn is_bare(s: Seq<char>) -> bool {
    exists|ts: Seq<Seq<char>>| #[trigger] all_bare(ts) && s == join(ts, " "@)
}

/// A text that does not start with a capital is not reserved.
proof fn lemma_small_is_unreserved(t: Seq<char>)
    requires
        t.len() > 0,
        !is_ascii_upper(t[0]),
    ensures
        !is_reserved(t),
{
    reveal_strlit("OR");
    reveal_strlit("AND");
    reveal_strlit("NOT");
    reveal_strlit("IN");
    assert("OR"@[0] == 'O' && "AND"@[0] == 'A' && "NOT"@[0] == 'N' && "IN"@[0] == 'I');
}

proof fn lemma_terms(s: Seq<char>)
    ensures
        all_terms(terms(s)),
        terms(s).len() == 0 <==> forall|i: int| 0 <= i < s.len() ==> !is_term_char(#[trigger] s[i]),
    decreases s.len(),
{
    if s.len() == 0 {
    } else if is_term_char(s[0]) {
        lemma_term_len(s);
        let n = term_len(s) as int;
        lemma_terms(s.skip(n));
        let all = seq![s.take(n)] + terms(s.skip(n));
        assert forall|i: int| 0 <= i < all.len() implies is_term(#[trigger] all[i]) by {
            if i > 0 {
                assert(all[i] == terms(s.skip(n))[i - 1]);
            }
        }
    } else {
        lemma_terms(s.skip(1));
        assert forall|i: int| 0 <= i < s.len() && terms(s).len() == 0 implies !is_term_char(
            #[trigger] s[i],
        ) by {
            if i > 0 {
                assert(s[i] == s.skip(1)[i - 1]);
            }
        }
        if forall|i: int| 0 <= i < s.len() ==> !is_term_char(#[trigger] s[i]) {
            assert forall|i: int| 0 <= i < s.skip(1).len() implies !is_term_char(
                #[trigger] s.skip(1)[i],
            ) by {
                assert(s.skip(1)[i] == s[i + 1]);
            }
        }
    }
}

proof fn lemma_words(t: Seq<char>)
    requires
        forall|i: int| 0 <= i < t.len() ==> is_term_char(#[trigger] t[i]),
    ensures
        all_bare(words_of(t)),
    decreases t.len(),
{
    if t.len() == 0 {
    } else if t[0] == '_' {
        lemma_words(t.skip(1));
    } else {
        lemma_word_len(t, 1);
        let n = word_len(t, 1);
        let w = crate::text::chars::lower_text(t.take(n));
        lemma_words(t.skip(n));
        assert forall|i: int| 0 <= i < w.len() implies is_term_char(#[trigger] w[i]) by {
            assert(is_term_char(t[i]));
        }
        lemma_small_is_unreserved(w);
        let all = seq![w] + words_of(t.skip(n));
        assert forall|i: int| 0 <= i < all.len() implies is_term(#[trigger] all[i]) && !is_reserved(
            all[i],
        ) by {
            if i > 0 {
                assert(all[i] == words_of(t.skip(n))[i - 1]);
            }
        }
    }
}

proof fn lemma_unreserved(t: Seq<char>)
    requires
        is_term(t),
    ensures
        is_term(unreserved(t)),
        !is_reserved(unreserved(t)),
{
    let u = unreserved(t);
    if is_reserved(t) {
        assert forall|i: int| 0 <= i < u.len() implies is_term_char(#[trigger] u[i]) by {
            assert(is_term_char(t[i]));
        }
        lemma_small_is_unreserved(u);
    }
}

proof fn lemma_expanded(ts: Seq<Seq<char>>)
    requires
        all_terms(ts),
    ensures
        all_bare(all_expanded(ts)),
        ts.len() <= all_expanded(ts).len(),
        ts.len() == 0 ==> all_expanded(ts).len() == 0,
    decreases ts.len(),
{
    if ts.len() > 0 {
        assert forall|i: int| 0 <= i < ts.drop_last().len() implies is_term(
            #[trigger] ts.drop_last()[i],
        ) by {
            assert(ts.drop_last()[i] == ts[i]);
        }
        lemma_expanded(ts.drop_last());
        let t = ts.last();
        assert(is_term(ts[ts.len() - 1]));
        lemma_words(t);
        lemma_unreserved(t);
        let a = all_expanded(ts.drop_last());
        let b = expanded(t);
        assert forall|i: int| 0 <= i < b.len() implies is_term(#[trigger] b[i]) && !is_reserved(
            b[i],
        ) by {
            if i > 0 {
                assert(b[i] == words_of(t)[i - 1]);
            }
        }
        assert forall|i: int| 0 <= i < (a + b).len() implies is_term(#[trigger] (a + b)[i])
            && !is_reserved((a + b)[i]) by {
            if i < a.len() {
                assert((a + b)[i] == a[i]);
            } else {
                assert((a + b)[i] == b[i - a.len()]);
            }
        }
    }
}

proof fn lemma_join_bare(ts: Seq<Seq<char>>)
    requires
        all_bare(ts),
    ensures
        forall|i: int|
            0 <= i < join(ts, " "@).len() ==> is_term_char(#[trigger] join(ts, " "@)[i]) || join(
                ts,
                " "@,
            )[i] == ' ',
        join(ts, " "@).len() == 0 <==> ts.len() == 0,
    decreases ts.len(),
{
    reveal_strlit(" ");
    if ts.len() == 0 {
    } else if ts.len() == 1 {
        assert(is_term(ts[0]));
        assert(is_term(ts.last()));
    } else {
        assert forall|i: int| 0 <= i < ts.drop_last().len() implies is_term(
            #[trigger] ts.drop_last()[i],
        ) && !is_reserved(ts.drop_last()[i]) by {
            assert(ts.drop_last()[i] == ts[i]);
        }
        lemma_join_bare(ts.drop_last());
        assert(is_term(ts[ts.len() - 1]));
    }
}

/// A reduced query is made of terms none of which means anything to tantivy's query language. It
/// holds nothing but letters, digits, `_` and spaces, and it is empty exactly where the query holds
/// no letter, no digit and no `_`.
pub proof fn lemma_sanitized_is_bare(query: Seq<char>)
    ensures
        is_bare(sanitized(query)),
        forall|i: int|
            0 <= i < sanitized(query).len() ==> is_term_char(#[trigger] sanitized(query)[i])
                || sanitized(query)[i] == ' ',
        sanitized(query).len() == 0 <==> forall|i: int|
            0 <= i < query.len() ==> !is_term_char(#[trigger] query[i]),
{
    lemma_terms(query);
    lemma_expanded(terms(query));
    lemma_join_bare(all_expanded(terms(query)));
}

/// Every term of a query stays in it, in small letters where it is reserved, and the words of a
/// term that has more than one of them come with it.
pub proof fn lemma_words_surface(query: Seq<char>, i: int, j: int)
    requires
        0 <= i < terms(query).len(),
    ensures
        all_expanded(terms(query)).contains(unreserved(terms(query)[i])),
        words_of(terms(query)[i]).len() > 1 && 0 <= j < words_of(terms(query)[i]).len()
            ==> all_expanded(terms(query)).contains(words_of(terms(query)[i])[j]),
{
    lemma_expanded_holds(terms(query), i, j);
}

proof fn lemma_expanded_holds(ts: Seq<Seq<char>>, i: int, j: int)
    requires
        0 <= i < ts.len(),
    ensures
        all_expanded(ts).contains(unreserved(ts[i])),
        words_of(ts[i]).len() > 1 && 0 <= j < words_of(ts[i]).len() ==> all_expanded(ts).contains(
            words_of(ts[i])[j],
        ),
    decreases ts.len(),
{
    let a = all_expanded(ts.drop_last());
    let b = expanded(ts.last());
    let ws = words_of(ts[i]);
    if i == ts.len() - 1 {
        assert((a + b)[a.len() as int] == unreserved(ts[i]));
        if ws.len() > 1 && 0 <= j < ws.len() {
            assert((a + b)[a.len() + 1 + j] == ws[j]);
        }
    } else {
        assert(ts.drop_last()[i] == ts[i]);
        lemma_expanded_holds(ts.drop_last(), i, j);
        let k = choose|k: int| 0 <= k < a.len() && a[k] == unreserved(ts[i]);
        assert((a + b)[k] == unreserved(ts[i]));
        if ws.len() > 1 && 0 <= j < ws.len() {
            let k = choose|k: int| 0 <= k < a.len() && a[k] == ws[j];
            assert((a + b)[k] == ws[j]);
        }
    }
}

/// What an index holds of one symbol: its name, its searchable text, its file and its line.
pub type Entry = (Seq<char>, Seq<char>, Seq<char>, u64);

#[verifier::external_type_specification]
#[verifier::external_body]
pub struct ExSearcher(tantivy::Searcher);

#[verifier::external_type_specification]
#[verifier::external_body]
pub struct ExTantivyError(tantivy::TantivyError);

/// A `tantivy::IndexWriter` on an index in memory, with the fields of its schema: `name` (searched
/// and stored), `body` (searched), `path` and `line` (stored).
#[verifier::external_body]
pub struct EntryWriter {
    writer: tantivy::IndexWriter,
    name: tantivy::schema::Field,
    body: tantivy::schema::Field,
    path: tantivy::schema::Field,
    line: tantivy::schema::Field,
}

/// The entries that were handed to a writer.
pub uninterp spec fn written(w: EntryWriter) -> Seq<Entry>;

/// The entries that a writer has committed.
pub uninterp spec fn committed(w: EntryWriter) -> Seq<Entry>;

/// The entries that a searcher sees, each under its segment and its place in that segment.
pub uninterp spec fn visible(s: tantivy::Searcher) -> Map<(u32, u32), Entry>;

/// Whether the parsed query `terms` matches an entry with this name and this body.
pub uninterp spec fn matches_terms(name: Seq<char>, body: Seq<char>, terms: Seq<char>) -> bool;

/// Whether `m` holds the entries of `entries`, each under one place.
pub open spec fn holds_all(m: Map<(u32, u32), Entry>, entries: Seq<Entry>, places: Seq<(u32, u32)>) -> bool {
    &&& places.len() == entries.len()
    &&& places.no_duplicates()
    &&& forall|p: (u32, u32)| #[trigger] m.dom().contains(p) <==> places.contains(p)
    &&& forall|i: int| 0 <= i < places.len() ==> m[#[trigger] places[i]] == entries[i]
}

/// Calls `Index::create_in_ram` and `Index::writer`: a new writer, on an index that is empty. That
/// the writer can be made is not stated: it starts a thread.
#[verifier::external_body]
fn open_writer(budget: usize) -> (r: Result<EntryWriter, tantivy::TantivyError>)
    ensures
        r matches Ok(w) ==> written(w) == Seq::<Entry>::empty() && committed(w) == Seq::<Entry>::empty(),
{
    let mut schema = tantivy::schema::Schema::builder();
    let name = schema.add_text_field("name", tantivy::schema::TEXT | tantivy::schema::STORED);
    let body = schema.add_text_field("body", tantivy::schema::TEXT);
    let path = schema.add_text_field("path", tantivy::schema::STORED);
    let line = schema.add_u64_field("line", tantivy::schema::STORED);
    let writer = tantivy::Index::create_in_ram(schema.build()).writer(budget)?;
    Ok(EntryWriter { writer, name, body, path, line })
}

/// Calls `IndexWriter::add_document`: where it succeeds, the writer has one entry more to commit.
#[verifier::external_body]
fn add_entry(w: &mut EntryWriter, name: &str, body: &str, path: &str, line: u64) -> (r: Result<
    u64,
    tantivy::TantivyError,
>)
    ensures
        r is Ok ==> written(*final(w)) == written(*old(w)).push((name@, body@, path@, line)),
        committed(*final(w)) == committed(*old(w)),
{
    let mut document = tantivy::TantivyDocument::new();
    document.add_text(w.name, name);
    document.add_text(w.body, body);
    document.add_text(w.path, path);
    document.add_u64(w.line, line);
    w.writer.add_document(document)
}

/// Calls `IndexWriter::commit`: where it succeeds, every entry handed to the writer is committed.
#[verifier::external_body]
fn commit(w: &mut EntryWriter) -> (r: Result<u64, tantivy::TantivyError>)
    ensures
        r is Ok ==> committed(*final(w)) == written(*old(w)) && written(*final(w)) == written(*old(w)),
{
    w.writer.commit()
}

/// Calls `Index::reader` and `IndexReader::searcher`: a searcher that sees the committed entries,
/// each once. Under which segment and place it sees an entry is not stated.
#[verifier::external_body]
fn searcher_of(w: EntryWriter) -> (r: Result<tantivy::Searcher, tantivy::TantivyError>)
    ensures
        r matches Ok(s) ==> exists|places: Seq<(u32, u32)>|
            #[trigger] holds_all(visible(s), committed(w), places),
{
    Ok(w.writer.index().reader()?.searcher())
}

/// Whether hits come by falling score, and none of them twice.
pub open spec fn falling(hits: Seq<(u32, u32, u32)>) -> bool {
    forall|i: int, j: int|
        0 <= i < j < hits.len() ==> (#[trigger] hits[i]).0 >= (#[trigger] hits[j]).0 && (
        hits[i].1 != hits[j].1 || hits[i].2 != hits[j].2)
}

/// Whether the entry under a segment and a place is among the hits.
pub open spec fn is_hit(hits: Seq<(u32, u32, u32)>, p: (u32, u32)) -> bool {
    exists|i: int| 0 <= i < hits.len() && (#[trigger] hits[i]).1 == p.0 && hits[i].2 == p.1
}

/// What tantivy is asked: bare terms, how many entries at most, and how much more a match in the
/// name weighs than one in the body.
pub struct SearchRequest {
    pub terms: String,
    pub limit: usize,
    pub boost: u8,
}

/// How many entries tantivy is asked for, where `k` of `size` are wanted: as many as there can be,
/// and at least one.
pub open spec fn limit_of(k: int, size: int) -> int {
    let least = if k < size {
        k
    } else {
        size
    };
    if least < 1 {
        1
    } else {
        least
    }
}

/// What a search for the best `k` of `size` symbols asks tantivy for.
pub fn search_request(query: &str, k: usize, size: usize) -> (r: SearchRequest)
    ensures
        r.terms@ == sanitized(query@),
        r.limit == limit_of(k as int, size as int),
        r.boost == NAME_BOOST,
{
    let mut limit: usize = k;
    if limit > size {
        limit = size;
    }
    if limit == 0 {
        limit = 1;
    }
    SearchRequest { terms: sanitize(query), limit, boost: NAME_BOOST }
}

/// What a searcher finds for terms, at most how many, and with what weight on the name: for each
/// entry the bits of its score, its segment and its place.
pub uninterp spec fn ranked(s: tantivy::Searcher, terms: Seq<char>, limit: int, boost: u8) -> Seq<
    (u32, u32, u32),
>;

/// Calls `QueryParser::parse_query` for the name and the body, with the name weighing `boost`
/// times as much, and `Searcher::search` with `TopDocs::order_by_score`. Where it succeeds, what
/// comes back is `ranked`: the searcher holds a fixed set of segments, which are walked in turn.
/// It is the best `limit` entries that match, each once and by falling score, as the bits of the
/// score, the segment and the place; all that match, where these are fewer than `limit`. Scores
/// are never negative, so their bits stand in the order of the scores. What the scores are is not
/// stated, and so neither is which of more than `limit` matches are left out: a score is a sum of
/// floating-point numbers, which `boost` enters, and tantivy adds them in an order that depends on
/// `limit`. `TopDocs::with_limit` panics on a limit of zero and sets aside room for twice the
/// limit.
#[verifier::external_body]
fn best_hits(s: &tantivy::Searcher, request: &SearchRequest) -> (r: Result<
    Vec<(u32, u32, u32)>,
    tantivy::TantivyError,
>)
    requires
        0 < request.limit <= visible(*s).dom().len() + 1,
        is_bare(request.terms@),
    ensures
        r matches Ok(hits) ==> hits@ == ranked(
            *s,
            request.terms@,
            request.limit as int,
            request.boost,
        ),
        r matches Ok(hits) ==> hits@.len() <= request.limit && falling(hits@),
        r matches Ok(hits) ==> forall|p: (u32, u32)| #[trigger]
            is_hit(hits@, p) ==> visible(*s).dom().contains(p) && matches_terms(
                visible(*s)[p].0,
                visible(*s)[p].1,
                request.terms@,
            ),
        r matches Ok(hits) ==> hits@.len() < request.limit ==> forall|p: (u32, u32)| #[trigger]
            visible(*s).dom().contains(p) && matches_terms(
                visible(*s)[p].0,
                visible(*s)[p].1,
                request.terms@,
            ) ==> is_hit(hits@, p),
{
    let name = s.schema().get_field("name")?;
    let body = s.schema().get_field("body")?;
    let mut parser = tantivy::query::QueryParser::for_index(s.index(), vec![name, body]);
    parser.set_field_boost(name, request.boost.into());
    let query = parser.parse_query(&request.terms)?;
    let best = tantivy::collector::TopDocs::with_limit(request.limit).order_by_score();
    let hits = s.search(&query, &best)?;
    Ok(hits.into_iter().map(|(score, at)| (score.to_bits(), at.segment_ord, at.doc_id)).collect())
}

/// What is stored of an entry: its name, its path and its line.
pub type Stored = (Option<String>, Option<String>, Option<u64>);

/// Whether what is stored is that of an entry.
pub open spec fn stored_is(stored: Stored, e: Entry) -> bool {
    stored.0 is Some && stored.1 is Some && stored.2 is Some && stored.0->0@ == e.0
        && stored.1->0@ == e.2 && stored.2->0 == e.3
}

/// Calls `Searcher::doc`: the stored name, path and line of the entry under a segment and a place.
#[verifier::external_body]
fn stored_entry(s: &tantivy::Searcher, segment: u32, place: u32) -> (r: Result<
    Stored,
    tantivy::TantivyError,
>)
    requires
        visible(*s).dom().contains((segment, place)),
    ensures
        r matches Ok(stored) ==> stored_is(stored, visible(*s)[(segment, place)]),
{
    let d: tantivy::TantivyDocument = s.doc(tantivy::DocAddress::new(segment, place))?;
    let name = d.get_first(s.schema().get_field("name")?).and_then(|v| v.as_str());
    let path = d.get_first(s.schema().get_field("path")?).and_then(|v| v.as_str());
    let line = d.get_first(s.schema().get_field("line")?).and_then(|v| v.as_u64());
    Ok((name.map(String::from), path.map(String::from), line))
}

/// A symbol of the code: what it is called, what kind of thing it is, and where it stands. The
/// bytes from `start_byte` up to `end_byte` of the file are its source.
pub struct Symbol {
    pub name: String,
    pub kind: String,
    pub file: String,
    pub line: usize,
    pub start_byte: usize,
    pub end_byte: usize,
}

pub struct SymbolView {
    pub name: Seq<char>,
    pub kind: Seq<char>,
    pub file: Seq<char>,
    pub line: usize,
    pub start_byte: usize,
    pub end_byte: usize,
}

impl View for Symbol {
    type V = SymbolView;

    open spec fn view(&self) -> SymbolView {
        SymbolView {
            name: self.name@,
            kind: self.kind@,
            file: self.file@,
            line: self.line,
            start_byte: self.start_byte,
            end_byte: self.end_byte,
        }
    }
}

/// The source of a symbol; nothing where its file could not be read or its bytes do not cut the
/// file between characters.
pub open spec fn source_of(s: SymbolView, files: Map<Seq<char>, String>) -> Seq<char> {
    if files.dom().contains(s.file) {
        byte_slice(files[s.file]@, s.start_byte as int, s.end_byte as int)
    } else {
        Seq::empty()
    }
}

/// What the index holds of a symbol: its searchable text is its kind, its name and its source.
pub open spec fn entry_of(s: SymbolView, files: Map<Seq<char>, String>) -> Entry {
    (
        s.name,
        s.kind + " "@ + s.name + " "@ + source_of(s, files),
        s.file,
        s.line as u64,
    )
}

/// What the index holds of all symbols.
pub open spec fn entries_of(symbols: Seq<Symbol>, files: Map<Seq<char>, String>) -> Seq<Entry> {
    symbols.map_values(|s: Symbol| entry_of(s@, files))
}

/// One hit: which symbol matched, and the bits of its score. The higher the bits, the higher the
/// score.
pub struct LexHit {
    pub name: String,
    pub file: String,
    pub line: usize,
    pub score_bits: u32,
}

/// An entry as a hit.
pub open spec fn hit_is(h: LexHit, e: Entry) -> bool {
    h.name@ == e.0 && h.file@ == e.2 && h.line == e.3
}

/// Whether `hits` are the best `k` hits for `terms` among `entries`, `from` giving for each hit the
/// entry that it is: each matches, none comes twice, they come by falling score, and where they
/// are fewer than `k` no match is missing.
pub open spec fn best_of(
    entries: Seq<Entry>,
    terms: Seq<char>,
    k: nat,
    hits: Seq<LexHit>,
    from: Seq<int>,
) -> bool {
    &&& hits.len() <= k
    &&& from.len() == hits.len()
    &&& from.no_duplicates()
    &&& forall|i: int|
        0 <= i < hits.len() ==> 0 <= #[trigger] from[i] < entries.len() && matches_terms(
            entries[from[i]].0,
            entries[from[i]].1,
            terms,
        ) && hit_is(hits[i], entries[from[i]])
    &&& forall|i: int, j: int|
        0 <= i < j < hits.len() ==> (#[trigger] hits[i]).score_bits >= (
        #[trigger] hits[j]).score_bits
    &&& hits.len() < k ==> forall|e: int|
        0 <= e < entries.len() && matches_terms(
            (#[trigger] entries[e]).0,
            entries[e].1,
            terms,
        ) ==> from.contains(e)
}

/// Whether `hits` are the best `k` hits for `terms` among `entries`.
pub open spec fn are_best(
    entries: Seq<Entry>,
    terms: Seq<char>,
    k: nat,
    hits: Seq<LexHit>,
) -> bool {
    exists|from: Seq<int>| #[trigger] best_of(entries, terms, k, hits, from)
}

proof fn lemma_places_len(m: Map<(u32, u32), Entry>, entries: Seq<Entry>, places: Seq<(u32, u32)>)
    requires
        holds_all(m, entries, places),
    ensures
        m.dom().len() == entries.len(),
{
    assert(m.dom() =~= places.to_set());
    places.unique_seq_to_set();
}

/// Numbers below `n`, none twice, and as many as there are: every number is among them.
proof fn lemma_all_there(from: Seq<int>, n: int, e: int)
    requires
        from.no_duplicates(),
        from.len() >= n,
        forall|i: int| 0 <= i < from.len() ==> 0 <= #[trigger] from[i] < n,
        0 <= e < n,
    ensures
        from.contains(e),
{
    let range = vstd::set_lib::set_int_range(0, n);
    from.unique_seq_to_set();
    vstd::set_lib::lemma_int_range(0, n);
    assert(from.to_set().subset_of(range));
    vstd::set_lib::lemma_len_subset(from.to_set(), range);
    vstd::set_lib::lemma_subset_equality(from.to_set(), range);
    assert(range.contains(e));
}

proof fn lemma_best(
    entries: Seq<Entry>,
    places: Seq<(u32, u32)>,
    m: Map<(u32, u32), Entry>,
    terms: Seq<char>,
    k: nat,
    limit: nat,
    found: Seq<(u32, u32, u32)>,
    hits: Seq<LexHit>,
    from: Seq<int>,
)
    requires
        holds_all(m, entries, places),
        k > 0,
        limit == k || (limit < k && (limit == entries.len() || (limit == 1 && entries.len() == 0))),
        found.len() <= limit,
        falling(found),
        forall|p: (u32, u32)| #[trigger]
            is_hit(found, p) ==> m.dom().contains(p) && matches_terms(m[p].0, m[p].1, terms),
        found.len() < limit ==> forall|p: (u32, u32)| #[trigger]
            m.dom().contains(p) && matches_terms(m[p].0, m[p].1, terms) ==> is_hit(found, p),
        hits.len() == found.len(),
        from.len() == found.len(),
        forall|j: int|
            0 <= j < found.len() ==> 0 <= #[trigger] from[j] < entries.len() && places[from[j]] == (
                found[j].1,
                found[j].2,
            ) && hit_is(hits[j], entries[from[j]]),
        forall|j: int| 0 <= j < found.len() ==> (#[trigger] hits[j]).score_bits == found[j].0,
    ensures
        best_of(entries, terms, k, hits, from),
{
    assert forall|i: int, j: int| 0 <= i < j < from.len() implies from[i] != from[j] by {
        assert(places[from[i]] == (found[i].1, found[i].2));
        assert(places[from[j]] == (found[j].1, found[j].2));
    }
    assert forall|i: int| 0 <= i < hits.len() implies 0 <= #[trigger] from[i] < entries.len()
        && matches_terms(entries[from[i]].0, entries[from[i]].1, terms) && hit_is(
        hits[i],
        entries[from[i]],
    ) by {
        let p = (found[i].1, found[i].2);
        assert(is_hit(found, p));
        assert(m[places[from[i]]] == entries[from[i]]);
    }
    if hits.len() < k {
        assert forall|e: int|
            0 <= e < entries.len() && matches_terms(
                (#[trigger] entries[e]).0,
                entries[e].1,
                terms,
            ) implies from.contains(e) by {
            if found.len() < limit {
                let p = places[e];
                assert(places.contains(p));
                assert(m.dom().contains(p));
                assert(m[places[e]] == entries[e]);
                assert(is_hit(found, p));
                let i = choose|i: int|
                    0 <= i < found.len() && (#[trigger] found[i]).1 == p.0 && found[i].2 == p.1;
                assert(places[from[i]] == places[e]);
                assert(from[i] == e);
            } else {
                lemma_all_there(from, entries.len() as int, e);
            }
        }
    }
}

/// Why an index could not be built or searched.
pub enum LexError {
    Index(tantivy::TantivyError),
}

/// An index in memory over code symbols.
pub struct LexicalIndex {
    searcher: tantivy::Searcher,
    size: usize,
    entries: Ghost<Seq<Entry>>,
    places: Ghost<Seq<(u32, u32)>>,
}

/// How many bytes a writer may use.
pub const WRITER_BUDGET: usize = 15_000_000;

/// How much more a match in the name weighs than one in the body.
pub const NAME_BOOST: u8 = 2;

/// What the index holds of a symbol: its name, its searchable text, its file and its line.
pub fn entry(symbol: &Symbol, files: &Table<String>) -> (r: (String, String, String, u64))
    ensures
        (r.0@, r.1@, r.2@, r.3) == entry_of(symbol@, files@),
{
    let source: &str = match files.get(symbol.file.as_str()) {
        Some(text) => slice_of(text.as_str(), symbol.start_byte, symbol.end_byte),
        None => "",
    };
    proof {
        reveal_strlit("");
        assert(""@ =~= Seq::<char>::empty());
    }
    let mut body: String = owned(symbol.kind.as_str());
    body.append(" ");
    body.append(symbol.name.as_str());
    body.append(" ");
    body.append(source);
    (owned(symbol.name.as_str()), body, owned(symbol.file.as_str()), symbol.line as u64)
}

/// Whether a searcher sees the entries, each once, and nothing else.
pub open spec fn sees_all(s: tantivy::Searcher, entries: Seq<Entry>) -> bool {
    exists|places: Seq<(u32, u32)>| #[trigger] holds_all(visible(s), entries, places)
}

/// Hands the entries of `symbols` to tantivy, commits them, and hands back its searcher.
fn index_all(symbols: &[Symbol], files: &Table<String>) -> (r: Result<
    tantivy::Searcher,
    tantivy::TantivyError,
>)
    ensures
        r matches Ok(searcher) ==> sees_all(searcher, entries_of(symbols@, files@)),
{
    let ghost all = entries_of(symbols@, files@);
    let mut writer: EntryWriter = match open_writer(WRITER_BUDGET) {
        Ok(w) => w,
        Err(e) => return Err(e),
    };
    let n: usize = symbols.len();
    let mut i: usize = 0;
    assert(written(writer) =~= all.take(0));
    while i < n
        invariant
            i <= n,
            n == symbols@.len(),
            all == entries_of(symbols@, files@),
            written(writer) == all.take(i as int),
        decreases n - i,
    {
        let (name, body, path, line): (String, String, String, u64) = entry(&symbols[i], files);
        if let Err(e) = add_entry(
            &mut writer,
            name.as_str(),
            body.as_str(),
            path.as_str(),
            line,
        ) {
            return Err(e);
        }
        assert(all[i as int] == entry_of(symbols@[i as int]@, files@));
        assert(all.take(i + 1) =~= all.take(i as int).push(all[i as int]));
        i = i + 1;
    }
    assert(all.take(n as int) =~= all);
    if let Err(e) = commit(&mut writer) {
        return Err(e);
    }
    searcher_of(writer)
}

/// A stored text; nothing where there is none.
pub open spec fn text_or_nothing(t: Option<String>) -> Seq<char> {
    match t {
        Some(t) => t@,
        None => Seq::empty(),
    }
}

/// Whether a hit holds the score that was found and what is stored of its entry: nothing for a
/// text that is not there, and zero for a line that is not there. Never, where reading failed.
pub open spec fn hit_from(
    h: LexHit,
    found: (u32, u32, u32),
    stored: Result<Stored, tantivy::TantivyError>,
) -> bool {
    match stored {
        Ok((name, file, line)) => {
            &&& h.score_bits == found.0
            &&& h.name@ == text_or_nothing(name)
            &&& h.file@ == text_or_nothing(file)
            &&& h.line == match line {
                Some(line) => line as usize,
                None => 0,
            }
        },
        Err(_) => false,
    }
}

/// The first error among what was read.
pub open spec fn first_error(stored: Seq<Result<Stored, tantivy::TantivyError>>) -> Option<
    tantivy::TantivyError,
>
    decreases stored.len(),
{
    if stored.len() == 0 {
        None
    } else {
        match first_error(stored.drop_last()) {
            Some(e) => Some(e),
            None => match stored.last() {
                Ok(_) => None,
                Err(e) => Some(e),
            },
        }
    }
}

/// The hits of what was found and what is stored of it, in the order in which it was found; the
/// first error, where there is one.
pub fn hits_of(
    found: Result<Vec<(u32, u32, u32)>, tantivy::TantivyError>,
    stored: Vec<Result<Stored, tantivy::TantivyError>>,
) -> (r: Result<Vec<LexHit>, LexError>)
    requires
        found matches Ok(f) ==> f@.len() == stored@.len(),
    ensures
        match found {
            Err(e) => r == Err::<Vec<LexHit>, LexError>(LexError::Index(e)),
            Ok(f) => match first_error(stored@) {
                Some(e) => r == Err::<Vec<LexHit>, LexError>(LexError::Index(e)),
                None => r matches Ok(hits) && hits@.len() == f@.len() && forall|i: int|
                    0 <= i < f@.len() ==> hit_from(#[trigger] hits@[i], f@[i], stored@[i]),
            },
        },
{
    let f: Vec<(u32, u32, u32)> = match found {
        Ok(f) => f,
        Err(e) => return Err(LexError::Index(e)),
    };
    let ghost all = stored@;
    let mut hits: Vec<LexHit> = Vec::new();
    let n: usize = f.len();
    let mut i: usize = 0;
    assert(all.take(0) =~= Seq::empty());
    for next in it: stored.into_iter()
        invariant
            it.seq() == all,
            i == it.index(),
            found is Ok && found->Ok_0 == f,
            all == stored@,
            n == f@.len(),
            n == all.len(),
            first_error(all.take(i as int)) is None,
            hits@.len() == i,
            forall|j: int|
                0 <= j < i ==> hit_from(#[trigger] hits@[j], f@[j], all[j]),
    {
        assert(all.take(i + 1).drop_last() =~= all.take(i as int));
        match next {
            Ok((name, file, line)) => {
                let line: usize = match line {
                    Some(line) => line as usize,
                    None => 0,
                };
                hits.push(
                    LexHit {
                        name: text_or_empty(name),
                        file: text_or_empty(file),
                        line,
                        score_bits: f[i].0,
                    },
                );
            },
            Err(e) => {
                proof {
                    lemma_first_error(all, i + 1);
                }
                return Err(LexError::Index(e));
            },
        }
        i = i + 1;
    }
    assert(all.take(i as int) =~= all);
    Ok(hits)
}

/// The first error among the first ones is the first among all.
proof fn lemma_first_error(stored: Seq<Result<Stored, tantivy::TantivyError>>, n: int)
    requires
        0 <= n <= stored.len(),
        first_error(stored.take(n)) is Some,
    ensures
        first_error(stored) == first_error(stored.take(n)),
    decreases stored.len(),
{
    if n == stored.len() {
        assert(stored.take(n) =~= stored);
    } else {
        assert(stored.drop_last().take(n) =~= stored.take(n));
        lemma_first_error(stored.drop_last(), n);
    }
}

/// The text; empty where there is none.
fn text_or_empty(t: Option<String>) -> (r: String)
    ensures
        r@ == text_or_nothing(t),
{
    match t {
        Some(t) => t,
        None => String::new(),
    }
}

/// Whether hits hold the scores that were found and the entries under the places that were found,
/// in that order.
pub open spec fn are_ranked(
    hits: Seq<LexHit>,
    found: Seq<(u32, u32, u32)>,
    m: Map<(u32, u32), Entry>,
) -> bool {
    &&& hits.len() == found.len()
    &&& forall|i: int|
        0 <= i < hits.len() ==> (#[trigger] hits[i]).score_bits == found[i].0 && hit_is(
            hits[i],
            m[(found[i].1, found[i].2)],
        )
}

impl LexicalIndex {
    #[verifier::type_invariant]
    spec fn wf(self) -> bool {
        &&& holds_all(visible(self.searcher), self.entries@, self.places@)
        &&& self.size == self.entries@.len()
        &&& forall|i: int|
            0 <= i < self.entries@.len() ==> (#[trigger] self.entries@[i]).3 <= usize::MAX
    }

    /// What the index holds, in the order of the symbols.
    pub closed spec fn view(&self) -> Seq<Entry> {
        self.entries@
    }

    /// The searcher that the index asks.
    pub closed spec fn asks(&self) -> tantivy::Searcher {
        self.searcher
    }

    /// Which entry is seen under a segment and a place.
    spec fn place_of(self, p: (u32, u32)) -> int {
        choose|e: int| 0 <= e < self.places@.len() && self.places@[e] == p
    }

    /// Builds an index over `symbols`; `files` holds the text of every file that could be read.
    /// That it succeeds is not stated: tantivy starts threads for its work. What is made of
    /// tantivy's answer, whatever it is, is stated by `opened`.
    pub fn build(symbols: &[Symbol], files: &Table<String>) -> (r: Result<LexicalIndex, LexError>)
        ensures
            r matches Ok(index) ==> index@ == entries_of(symbols@, files@) && sees_all(
                index.asks(),
                entries_of(symbols@, files@),
            ),
    {
        LexicalIndex::opened(index_all(symbols, files), symbols, files)
    }

    /// The index over `symbols` where a searcher that sees what it is to hold came back, and the
    /// error where one came back.
    pub fn opened(
        answer: Result<tantivy::Searcher, tantivy::TantivyError>,
        symbols: &[Symbol],
        files: &Table<String>,
    ) -> (r: Result<LexicalIndex, LexError>)
        requires
            answer matches Ok(searcher) ==> sees_all(searcher, entries_of(symbols@, files@)),
        ensures
            match answer {
                Ok(searcher) => r matches Ok(index) && index@ == entries_of(symbols@, files@)
                    && index.asks() == searcher,
                Err(e) => r == Err::<LexicalIndex, LexError>(LexError::Index(e)),
            },
    {
        let ghost all = entries_of(symbols@, files@);
        match answer {
            Ok(searcher) => {
                let ghost places = choose|places: Seq<(u32, u32)>| #[trigger]
                    holds_all(visible(searcher), all, places);
                Ok(
                    LexicalIndex {
                        searcher,
                        size: symbols.len(),
                        entries: Ghost(all),
                        places: Ghost(places),
                    },
                )
            },
            Err(e) => Err(LexError::Index(e)),
        }
    }

    /// Reads what is stored of each entry that was found.
    fn stored_of(&self, found: &Vec<(u32, u32, u32)>) -> (r: Vec<
        Result<Stored, tantivy::TantivyError>,
    >)
        requires
            forall|i: int|
                0 <= i < found@.len() ==> visible(self.asks()).dom().contains(
                    ((#[trigger] found@[i]).1, found@[i].2),
                ),
        ensures
            r@.len() == found@.len(),
            forall|i: int|
                0 <= i < r@.len() ==> ((#[trigger] r@[i]) matches Ok(stored) ==> stored_is(
                    stored,
                    visible(self.asks())[(found@[i].1, found@[i].2)],
                )),
    {
        let mut stored: Vec<Result<Stored, tantivy::TantivyError>> = Vec::new();
        let mut i: usize = 0;
        while i < found.len()
            invariant
                i <= found@.len(),
                stored@.len() == i,
                self.asks() == self.searcher,
                forall|j: int|
                    0 <= j < found@.len() ==> visible(self.asks()).dom().contains(
                        ((#[trigger] found@[j]).1, found@[j].2),
                    ),
                forall|j: int|
                    0 <= j < i ==> ((#[trigger] stored@[j]) matches Ok(s) ==> stored_is(
                        s,
                        visible(self.asks())[(found@[j].1, found@[j].2)],
                    )),
            decreases found@.len() - i,
        {
            let (_, segment, place) = found[i];
            assert(found@[i as int].1 == segment);
            stored.push(stored_entry(&self.searcher, segment, place));
            i = i + 1;
        }
        stored
    }

    /// The best `k` symbols for a query. The query is reduced to bare terms first, so that nothing
    /// in it is read as query language; a query without a term finds nothing. What tantivy is
    /// asked is stated by `search_request`, and what is made of its answers by `hits_of`.
    pub fn search(&self, query: &str, k: usize) -> (r: Result<Vec<LexHit>, LexError>)
        requires
            k > 0 || sanitized(query@).len() == 0,
        ensures
            sanitized(query@).len() == 0 ==> (r matches Ok(hits) && hits@.len() == 0),
            sanitized(query@).len() > 0 ==> (r matches Ok(hits) ==> are_best(
                self@,
                sanitized(query@),
                k as nat,
                hits@,
            ) && are_ranked(
                hits@,
                ranked(
                    self.asks(),
                    sanitized(query@),
                    limit_of(k as int, self@.len() as int),
                    NAME_BOOST,
                ),
                visible(self.asks()),
            )),
    {
        proof {
            use_type_invariant(self);
            lemma_sanitized_is_bare(query@);
            lemma_places_len(visible(self.searcher), self.entries@, self.places@);
        }
        let request: SearchRequest = search_request(query, k, self.size);
        if request.terms.as_str().unicode_len() == 0 {
            return Ok(Vec::new());
        }
        let found: Result<Vec<(u32, u32, u32)>, tantivy::TantivyError> = best_hits(
            &self.searcher,
            &request,
        );
        let stored: Vec<Result<Stored, tantivy::TantivyError>> = match &found {
            Ok(found) => {
                proof {
                    assert forall|i: int| 0 <= i < found@.len() implies visible(
                        self.asks(),
                    ).dom().contains(((#[trigger] found@[i]).1, found@[i].2)) by {
                        assert(is_hit(found@, (found@[i].1, found@[i].2)));
                    }
                }
                self.stored_of(found)
            },
            Err(_) => Vec::new(),
        };
        let ghost all = stored@;
        let ghost answer = found;
        let hits: Result<Vec<LexHit>, LexError> = hits_of(found, stored);
        proof {
            if let Ok(ref hits) = hits {
                let m = visible(self.searcher);
                let f = answer->Ok_0@;
                let from = Seq::new(f.len(), |j: int| self.place_of((f[j].1, f[j].2)));
                assert forall|j: int| 0 <= j < f.len() implies 0 <= #[trigger] from[j]
                    < self.entries@.len() && self.places@[from[j]] == (f[j].1, f[j].2) && hit_is(
                    hits@[j],
                    self.entries@[from[j]],
                ) && hits@[j].score_bits == f[j].0 by {
                    let p = (f[j].1, f[j].2);
                    assert(is_hit(f, p));
                    assert(self.places@.contains(p));
                    assert(hit_from(hits@[j], f[j], all[j]));
                    assert(m[self.places@[from[j]]] == self.entries@[from[j]]);
                }
                lemma_best(
                    self.entries@,
                    self.places@,
                    m,
                    request.terms@,
                    k as nat,
                    request.limit as nat,
                    f,
                    hits@,
                    from,
                );
                assert(are_best(self@, sanitized(query@), k as nat, hits@));
                assert forall|i: int| 0 <= i < hits@.len() implies (
                #[trigger] hits@[i]).score_bits == f[i].0 && hit_is(
                    hits@[i],
                    m[(f[i].1, f[i].2)],
                ) by {
                    assert(0 <= from[i]);
                    assert(m[self.places@[from[i]]] == self.entries@[from[i]]);
                }
            }
        }
        hits
    }
}

/// Which characters make up terms: of ASCII the letters, the digits and `_`, and beyond ASCII what
/// `char::is_alphanumeric` says yes to.
pub proof fn lemma_term_chars(c: char)
    ensures
        c as u32 <= 0x7f ==> (is_term_char(c) <==> 'a' <= c <= 'z' || 'A' <= c <= 'Z' || '0' <= c
            <= '9' || c == '_'),
        c as u32 > 0x7f ==> is_term_char(c) == is_alphanumeric_char(c),
{
}

/// Whether `ts` are the longest runs of term characters in `s`, in their order and whole, the one at
/// `k` starting at `at[k]`: what stands before and behind a run is no term character, and no term
/// character stands outside of them.
pub open spec fn are_runs(s: Seq<char>, ts: Seq<Seq<char>>, at: Seq<int>) -> bool {
    &&& at.len() == ts.len()
    &&& forall|k: int|
        0 <= k < ts.len() ==> {
            let from = #[trigger] at[k];
            let to = from + ts[k].len();
            &&& 0 <= from < to <= s.len()
            &&& ts[k] == s.subrange(from, to)
            &&& forall|p: int| from <= p < to ==> is_term_char(#[trigger] s[p])
            &&& from > 0 ==> !is_term_char(s[from - 1])
            &&& to < s.len() ==> !is_term_char(s[to])
        }
    &&& forall|k: int, l: int|
        0 <= k < l < ts.len() ==> #[trigger] at[k] + ts[k].len() < #[trigger] at[l]
    &&& forall|p: int|
        0 <= p < s.len() && is_term_char(#[trigger] s[p]) ==> exists|k: int|
            0 <= k < ts.len() && #[trigger] at[k] <= p < at[k] + ts[k].len()
}

proof fn lemma_runs_behind(
    s: Seq<char>,
    n: int,
    ts: Seq<Seq<char>>,
    at: Seq<int>,
) -> (moved: Seq<int>)
    requires
        0 < n <= s.len(),
        are_runs(s.skip(n), ts, at),
        n < s.len() && is_term_char(s[n]) ==> !is_term_char(s[n - 1]),
    ensures
        moved == at.map_values(|a: int| a + n),
        moved.len() == ts.len(),
        forall|k: int|
            0 <= k < ts.len() ==> {
                let from = #[trigger] moved[k];
                let to = from + ts[k].len();
                &&& n <= from < to <= s.len()
                &&& ts[k] == s.subrange(from, to)
                &&& forall|p: int| from <= p < to ==> is_term_char(#[trigger] s[p])
                &&& !is_term_char(s[from - 1])
                &&& to < s.len() ==> !is_term_char(s[to])
            },
        forall|k: int, l: int|
            0 <= k < l < ts.len() ==> #[trigger] moved[k] + ts[k].len() < #[trigger] moved[l],
        forall|p: int|
            n <= p < s.len() && is_term_char(#[trigger] s[p]) ==> exists|k: int|
                0 <= k < ts.len() && #[trigger] moved[k] <= p < moved[k] + ts[k].len(),
{
    let rest = s.skip(n);
    let moved = at.map_values(|a: int| a + n);
    assert forall|k: int| 0 <= k < ts.len() implies {
        let from = #[trigger] moved[k];
        let to = from + ts[k].len();
        &&& n <= from < to <= s.len()
        &&& ts[k] == s.subrange(from, to)
        &&& forall|p: int| from <= p < to ==> is_term_char(#[trigger] s[p])
        &&& !is_term_char(s[from - 1])
        &&& to < s.len() ==> !is_term_char(s[to])
    } by {
        let from = at[k];
        let to = from + ts[k].len();
        assert(rest.subrange(from, to) =~= s.subrange(from + n, to + n));
        assert forall|p: int| from + n <= p < to + n implies is_term_char(#[trigger] s[p]) by {
            assert(rest[p - n] == s[p]);
        }
        if from > 0 {
            assert(rest[from - 1] == s[from + n - 1]);
        } else {
            assert(rest[0] == s[n]);
        }
        if to < rest.len() {
            assert(rest[to] == s[to + n]);
        }
    }
    assert forall|k: int, l: int| 0 <= k < l < ts.len() implies #[trigger] moved[k] + ts[k].len()
        < #[trigger] moved[l] by {
        assert(at[k] + ts[k].len() < at[l]);
    }
    assert forall|p: int| n <= p < s.len() && is_term_char(#[trigger] s[p]) implies exists|k: int|
        0 <= k < ts.len() && #[trigger] moved[k] <= p < moved[k] + ts[k].len() by {
        assert(rest[p - n] == s[p]);
        let k = choose|k: int|
            0 <= k < ts.len() && #[trigger] at[k] <= p - n < at[k] + ts[k].len();
        assert(moved[k] == at[k] + n);
    }
    moved
}

proof fn lemma_terms_at(s: Seq<char>) -> (at: Seq<int>)
    ensures
        are_runs(s, terms(s), at),
    decreases s.len(),
{
    if s.len() == 0 {
        Seq::empty()
    } else if is_term_char(s[0]) {
        lemma_term_len(s);
        let n = term_len(s) as int;
        let behind = lemma_terms_at(s.skip(n));
        let ts = terms(s.skip(n));
        let moved = lemma_runs_behind(s, n, ts, behind);
        let at = seq![0int] + moved;
        let all = terms(s);
        assert(all == seq![s.take(n)] + ts);
        assert forall|k: int| 0 <= k < all.len() implies {
            let from = #[trigger] at[k];
            let to = from + all[k].len();
            &&& 0 <= from < to <= s.len()
            &&& all[k] == s.subrange(from, to)
            &&& forall|p: int| from <= p < to ==> is_term_char(#[trigger] s[p])
            &&& from > 0 ==> !is_term_char(s[from - 1])
            &&& to < s.len() ==> !is_term_char(s[to])
        } by {
            if k == 0 {
                assert(s.take(n) =~= s.subrange(0, n));
            } else {
                assert(at[k] == moved[k - 1]);
                assert(all[k] == ts[k - 1]);
            }
        }
        assert forall|k: int, l: int| 0 <= k < l < all.len() implies #[trigger] at[k] + all[k].len()
            < #[trigger] at[l] by {
            assert(at[l] == moved[l - 1]);
            assert(all[l] == ts[l - 1]);
            if k == 0 {
                if at[l] == n {
                    assert(is_term_char(s[n]));
                }
            } else {
                assert(at[k] == moved[k - 1]);
                assert(all[k] == ts[k - 1]);
            }
        }
        assert forall|p: int| 0 <= p < s.len() && is_term_char(#[trigger] s[p]) implies exists|
            k: int,
        | 0 <= k < all.len() && #[trigger] at[k] <= p < at[k] + all[k].len() by {
            if p < n {
                assert(at[0] == 0);
            } else {
                let k = choose|k: int|
                    0 <= k < ts.len() && #[trigger] moved[k] <= p < moved[k] + ts[k].len();
                assert(at[k + 1] == moved[k]);
                assert(all[k + 1] == ts[k]);
            }
        }
        at
    } else {
        let behind = lemma_terms_at(s.skip(1));
        lemma_runs_behind(s, 1, terms(s), behind)
    }
}

/// The terms of a query are its longest runs of letters, digits and `_`, whole and in their order.
pub proof fn lemma_terms_are_runs(query: Seq<char>)
    ensures
        exists|at: Seq<int>| #[trigger] are_runs(query, terms(query), at),
{
    let at = lemma_terms_at(query);
    assert(are_runs(query, terms(query), at));
}

/// Every run of term characters from `i` up to `j` that no term character stands before or behind is
/// a term.
pub proof fn lemma_every_run_is_a_term(query: Seq<char>, i: int, j: int)
    requires
        0 <= i < j <= query.len(),
        forall|p: int| i <= p < j ==> is_term_char(#[trigger] query[p]),
        i > 0 ==> !is_term_char(query[i - 1]),
        j < query.len() ==> !is_term_char(query[j]),
    ensures
        terms(query).contains(query.subrange(i, j)),
{
    let at = lemma_terms_at(query);
    let ts = terms(query);
    assert(is_term_char(query[i]));
    let k = choose|k: int| 0 <= k < ts.len() && #[trigger] at[k] <= i < at[k] + ts[k].len();
    let from = at[k];
    let to = from + ts[k].len();
    if from < i {
        assert(is_term_char(query[i - 1]));
    }
    if to < j {
        assert(is_term_char(query[to]));
    }
    if to > j {
        assert(is_term_char(query[j]));
    }
    assert(ts[k] == query.subrange(i, j));
}

/// What stands on both sides of a character that belongs to no term has its own terms.
pub proof fn lemma_terms_apart(a: Seq<char>, c: char, b: Seq<char>)
    requires
        !is_term_char(c),
    ensures
        terms(a + seq![c] + b) == terms(a) + terms(b),
    decreases a.len(),
{
    let s = a + seq![c] + b;
    if a.len() == 0 {
        assert(s[0] == c);
        assert(s.skip(1) =~= b);
        assert(terms(a) + terms(b) =~= terms(b));
    } else if is_term_char(a[0]) {
        lemma_term_len(a);
        lemma_term_len(s);
        let n = term_len(a) as int;
        let m = term_len(s) as int;
        assert(s[0] == a[0]);
        if m < n {
            assert(s[m] == a[m]);
        }
        if m > n {
            assert(is_term_char(s[n]));
            if n < a.len() {
                assert(s[n] == a[n]);
            } else {
                assert(s[n] == c);
            }
        }
        assert(s.take(n) =~= a.take(n));
        assert(s.skip(n) =~= a.skip(n) + seq![c] + b);
        lemma_terms_apart(a.skip(n), c, b);
        assert(seq![a.take(n)] + (terms(a.skip(n)) + terms(b)) =~= seq![a.take(n)] + terms(
            a.skip(n),
        ) + terms(b));
    } else {
        assert(s[0] == a[0]);
        assert(s.skip(1) =~= a.skip(1) + seq![c] + b);
        lemma_terms_apart(a.skip(1), c, b);
    }
}

proof fn lemma_expanded_add(a: Seq<Seq<char>>, b: Seq<Seq<char>>)
    ensures
        all_expanded(a + b) == all_expanded(a) + all_expanded(b),
    decreases b.len(),
{
    if b.len() == 0 {
        assert(a + b =~= a);
        assert(all_expanded(a) + all_expanded(b) =~= all_expanded(a));
    } else {
        assert((a + b).drop_last() =~= a + b.drop_last());
        lemma_expanded_add(a, b.drop_last());
        assert(all_expanded(a) + all_expanded(b.drop_last()) + expanded(b.last())
            =~= all_expanded(a) + all_expanded(b));
    }
}

/// A query is reduced piece by piece: what stands on both sides of a character that belongs to no
/// term is reduced for itself, with a space between where there is something on both sides.
pub proof fn lemma_sanitized_apart(a: Seq<char>, c: char, b: Seq<char>)
    requires
        !is_term_char(c),
    ensures
        ({
            let x = sanitized(a);
            let y = sanitized(b);
            sanitized(a + seq![c] + b) == if x.len() == 0 {
                y
            } else if y.len() == 0 {
                x
            } else {
                x + " "@ + y
            }
        }),
{
    lemma_terms_apart(a, c, b);
    lemma_terms(a);
    lemma_terms(b);
    lemma_expanded_add(terms(a), terms(b));
    lemma_join_add(all_expanded(terms(a)), all_expanded(terms(b)), " "@);
    lemma_sanitized_is_bare(a);
    lemma_sanitized_is_bare(b);
    lemma_expanded(terms(a));
    lemma_expanded(terms(b));
}

/// A query that is one term is reduced to that term, in small letters where it is a word of tantivy's
/// query language, and behind it its words where it has more than one.
pub proof fn lemma_one_term(t: Seq<char>)
    requires
        t.len() > 0,
        forall|i: int| 0 <= i < t.len() ==> is_term_char(#[trigger] t[i]),
    ensures
        terms(t) == seq![t],
        ({
            let whole = if t == "OR"@ {
                "or"@
            } else if t == "AND"@ {
                "and"@
            } else if t == "NOT"@ {
                "not"@
            } else if t == "IN"@ {
                "in"@
            } else {
                t
            };
            sanitized(t) == if words_of(t).len() > 1 {
                whole + " "@ + join(words_of(t), " "@)
            } else {
                whole
            }
        }),
{
    lemma_term_len(t);
    assert(is_term_char(t[0]));
    if term_len(t) < t.len() {
        assert(is_term_char(t[term_len(t) as int]));
    }
    assert(t.take(t.len() as int) =~= t);
    assert(t.skip(t.len() as int) =~= Seq::<char>::empty());
    assert(terms(Seq::<char>::empty()) =~= Seq::<Seq<char>>::empty());
    assert(terms(t) =~= seq![t]);
    assert(seq![t].drop_last() =~= Seq::<Seq<char>>::empty());
    reveal_with_fuel(all_expanded, 2);
    assert(all_expanded(terms(t)) =~= expanded(t));
    reveal_strlit("OR");
    reveal_strlit("AND");
    reveal_strlit("NOT");
    reveal_strlit("IN");
    reveal_strlit("or");
    reveal_strlit("and");
    reveal_strlit("not");
    reveal_strlit("in");
    assert(crate::text::chars::lower_text("OR"@) =~= "or"@);
    assert(crate::text::chars::lower_text("AND"@) =~= "and"@);
    assert(crate::text::chars::lower_text("NOT"@) =~= "not"@);
    assert(crate::text::chars::lower_text("IN"@) =~= "in"@);
    lemma_join_add(seq![unreserved(t)], words_of(t), " "@);
    lemma_join_one(unreserved(t), " "@);
}

/// Whether the word `w` is the piece of the term `t` that starts at `from`, in small letters: it is
/// free of `_`, it starts at the start of the term, behind a `_`, or with a capital letter behind a
/// small one or a digit, and it goes on up to the next such place.
pub open spec fn is_word_at(t: Seq<char>, w: Seq<char>, from: int) -> bool {
    let to = from + w.len();
    &&& 0 <= from < to <= t.len()
    &&& forall|i: int| 0 <= i < w.len() ==> is_small(t[from + i], #[trigger] w[i])
    &&& from > 0 ==> t[from - 1] == '_' || starts_word(t, from)
    &&& to < t.len() ==> t[to] == '_' || starts_word(t, to)
    &&& forall|p: int| from < p < to ==> !#[trigger] starts_word(t, p)
}

/// Whether `w` is the character `c` of a term in small letters; no word has a `_`.
pub open spec fn is_small(c: char, w: char) -> bool {
    &&& c != '_'
    &&& 'A' <= c <= 'Z' ==> w as u32 == c as u32 + 32
    &&& !('A' <= c <= 'Z') ==> w == c
}

/// Whether a capital letter stands at `p`, behind a small one or a digit.
pub open spec fn starts_word(t: Seq<char>, p: int) -> bool {
    0 < p < t.len() && 'A' <= t[p] <= 'Z' && ('a' <= t[p - 1] <= 'z' || '0' <= t[p - 1] <= '9')
}

/// Whether `ws` are the words of the term `t`, in their order, the one at `k` starting at `at[k]`.
/// Nothing but `_` stands outside of them.
pub open spec fn are_words(t: Seq<char>, ws: Seq<Seq<char>>, at: Seq<int>) -> bool {
    &&& at.len() == ws.len()
    &&& forall|k: int| 0 <= k < ws.len() ==> is_word_at(t, ws[k], #[trigger] at[k])
    &&& forall|k: int, l: int|
        0 <= k < l < ws.len() ==> #[trigger] at[k] + ws[k].len() <= #[trigger] at[l]
    &&& forall|p: int|
        0 <= p < t.len() && (#[trigger] t[p]) != '_' ==> exists|k: int|
            0 <= k < ws.len() && #[trigger] at[k] <= p < at[k] + ws[k].len()
}

proof fn lemma_first_word(t: Seq<char>, i: int)
    requires
        0 < i <= t.len(),
    ensures
        ({
            let n = word_len(t, i);
            &&& i <= n <= t.len()
            &&& forall|p: int| i <= p < n ==> (#[trigger] t[p]) != '_'
            &&& forall|p: int| i <= p < n ==> !#[trigger] starts_word(t, p)
            &&& n < t.len() ==> t[n] == '_' || starts_word(t, n)
        }),
    decreases t.len() - i,
{
    if i < t.len() && t[i] != '_' && !is_hump(t, i) {
        lemma_first_word(t, i + 1);
    }
}

proof fn lemma_word_behind(t: Seq<char>, n: int, w: Seq<char>, from: int)
    requires
        0 < n <= t.len(),
        n < t.len() ==> t[n - 1] == '_' || t[n] == '_' || starts_word(t, n),
        is_word_at(t.skip(n), w, from),
    ensures
        is_word_at(t, w, from + n),
{
    let rest = t.skip(n);
    let to = from + w.len();
    assert forall|i: int| 0 <= i < w.len() implies is_small(t[from + n + i], #[trigger] w[i]) by {
        assert(rest[from + i] == t[from + n + i]);
    }
    assert(is_small(rest[from], w[0]));
    assert(rest[from] == t[from + n]);
    if from > 0 {
        assert(rest[from - 1] == t[from + n - 1]);
    }
    if to < rest.len() {
        assert(rest[to] == t[to + n]);
        assert(rest[to - 1] == t[to + n - 1]);
    }
    assert forall|p: int| from + n < p < to + n implies !#[trigger] starts_word(t, p) by {
        assert(!starts_word(rest, p - n));
        assert(rest[p - n] == t[p]);
        assert(rest[p - n - 1] == t[p - 1]);
    }
}

proof fn lemma_first_word_at(t: Seq<char>)
    requires
        t.len() > 0,
        t[0] != '_',
    ensures
        1 <= word_len(t, 1) <= t.len(),
        is_word_at(t, crate::text::chars::lower_text(t.take(word_len(t, 1))), 0),
        word_len(t, 1) < t.len() ==> t[word_len(t, 1)] == '_' || starts_word(t, word_len(t, 1)),
{
    lemma_first_word(t, 1);
    let n = word_len(t, 1);
    let w = crate::text::chars::lower_text(t.take(n));
    assert forall|i: int| 0 <= i < w.len() implies is_small(t[0 + i], #[trigger] w[i]) by {
        assert(t.take(n)[i] == t[i]);
    }
}

proof fn lemma_words_at(t: Seq<char>) -> (at: Seq<int>)
    ensures
        are_words(t, words_of(t), at),
    decreases t.len(),
{
    if t.len() == 0 {
        Seq::empty()
    } else {
        let n = if t[0] == '_' {
            1
        } else {
            word_len(t, 1)
        };
        if t[0] != '_' {
            lemma_first_word_at(t);
        }
        let rest = t.skip(n);
        let before = lemma_words_at(rest);
        let ws = words_of(rest);
        let moved = before.map_values(|a: int| a + n);
        let first: int = if t[0] == '_' {
            0
        } else {
            1
        };
        let at = if t[0] == '_' {
            moved
        } else {
            seq![0int] + moved
        };
        let all = words_of(t);
        assert(all.len() == first + ws.len());
        assert forall|q: int| 0 <= q < ws.len() implies all[q + first] == #[trigger] ws[q] && at[q
            + first] == before[q] + n by {
            assert(moved[q] == before[q] + n);
        }
        assert forall|k: int| 0 <= k < all.len() implies is_word_at(t, all[k], #[trigger] at[k]) by {
            if k >= first {
                let q = k - first;
                assert(all[q + first] == ws[q]);
                assert(is_word_at(rest, ws[q], before[q]));
                lemma_word_behind(t, n, ws[q], before[q]);
            }
        }
        assert forall|k: int, l: int| 0 <= k < l < all.len() implies #[trigger] at[k]
            + all[k].len() <= #[trigger] at[l] by {
            let m = l - first;
            assert(all[m + first] == ws[m]);
            assert(is_word_at(rest, ws[m], before[m]));
            if k >= first {
                let q = k - first;
                assert(all[q + first] == ws[q]);
                assert(before[q] + ws[q].len() <= before[m]);
            }
        }
        assert forall|p: int| 0 <= p < t.len() && (#[trigger] t[p]) != '_' implies exists|k: int|
            0 <= k < all.len() && #[trigger] at[k] <= p < at[k] + all[k].len() by {
            if p < n {
                assert(at[0] == 0);
            } else {
                assert(rest[p - n] == t[p]);
                let q = choose|q: int|
                    0 <= q < ws.len() && #[trigger] before[q] <= p - n < before[q] + ws[q].len();
                assert(all[q + first] == ws[q]);
                assert(at[q + first] == before[q] + n);
            }
        }
        at
    }
}

/// The words of a term: its pieces between `_` and between small and capital letters, all in small
/// letters, whole and in their order.
pub proof fn lemma_words_of_a_term(t: Seq<char>)
    ensures
        exists|at: Seq<int>| #[trigger] are_words(t, words_of(t), at),
{
    let at = lemma_words_at(t);
    assert(are_words(t, words_of(t), at));
}

/// What the index holds of a symbol: its name, its file and its line as they are; and its kind, its
/// name and its source, all of them, as the text that is searched.
pub proof fn lemma_entry(s: SymbolView, files: Map<Seq<char>, String>)
    ensures
        entry_of(s, files).0 == s.name,
        entry_of(s, files).2 == s.file,
        entry_of(s, files).3 == s.line,
        ({
            let text = entry_of(s, files).1;
            let k = s.kind.len() as int;
            let n = s.name.len() as int;
            &&& text.take(k) == s.kind
            &&& text[k] == ' ' && text[k + 1 + n] == ' '
            &&& text.subrange(k + 1, k + 1 + n) == s.name
            &&& text.skip(k + n + 2) == if files.contains_key(s.file) {
                byte_slice(files[s.file]@, s.start_byte as int, s.end_byte as int)
            } else {
                Seq::empty()
            }
        }),
{
    reveal_strlit(" ");
    let text = entry_of(s, files).1;
    let k = s.kind.len() as int;
    let n = s.name.len() as int;
    assert(text.take(k) =~= s.kind);
    assert(text.subrange(k + 1, k + 1 + n) =~= s.name);
    assert(text.skip(k + n + 2) =~= source_of(s, files));
}

/// A search asks for as many entries as are wanted, but for no more than there are, and for one at
/// least; and a match in the name weighs twice as much as one in the body.
pub proof fn lemma_limit(k: int, size: int)
    requires
        k >= 1,
    ensures
        1 <= limit_of(k, size) <= k,
        size >= k ==> limit_of(k, size) == k,
        1 <= size < k ==> limit_of(k, size) == size,
        NAME_BOOST == 2,
{
}

/// The index holds one entry for each symbol, in the order of the symbols.
pub proof fn lemma_entries(symbols: Seq<Symbol>, files: Map<Seq<char>, String>, i: int)
    requires
        0 <= i < symbols.len(),
    ensures
        entries_of(symbols, files).len() == symbols.len(),
        entries_of(symbols, files)[i] == entry_of(symbols[i]@, files),
{
}

/// What the best hits are: no more than are wanted, each of them a symbol that matches, by falling
/// score; and where they are fewer than wanted, every symbol that matches is among them.
pub proof fn lemma_best_hits(
    entries: Seq<Entry>,
    terms: Seq<char>,
    k: nat,
    hits: Seq<LexHit>,
    i: int,
    j: int,
    e: int,
)
    requires
        are_best(entries, terms, k, hits),
        0 <= i < j < hits.len(),
        0 <= e < entries.len(),
    ensures
        hits.len() <= k,
        hits[i].score_bits >= hits[j].score_bits,
        exists|n: int|
            0 <= n < entries.len() && matches_terms((#[trigger] entries[n]).0, entries[n].1, terms)
                && hits[i].name@ == entries[n].0 && hits[i].file@ == entries[n].2 && hits[i].line
                == entries[n].3,
        hits.len() < k && matches_terms(entries[e].0, entries[e].1, terms) ==> exists|n: int|
            0 <= n < hits.len() && (#[trigger] hits[n]).name@ == entries[e].0 && hits[n].file@
                == entries[e].2 && hits[n].line == entries[e].3,
{
    let from = choose|from: Seq<int>| #[trigger] best_of(entries, terms, k, hits, from);
    let n = from[i];
    assert(matches_terms(entries[n].0, entries[n].1, terms));
    assert(hit_is(hits[i], entries[n]));
    if hits.len() < k && matches_terms(entries[e].0, entries[e].1, terms) {
        assert(from.contains(e));
        let m = choose|m: int| 0 <= m < from.len() && from[m] == e;
        assert(hit_is(hits[m], entries[from[m]]));
    }
}

/// The first error is the one before which there is none.
pub proof fn lemma_first_error_is(stored: Seq<Result<Stored, tantivy::TantivyError>>, n: int)
    requires
        0 <= n <= stored.len(),
        forall|i: int| 0 <= i < n ==> (#[trigger] stored[i]) is Ok,
        n < stored.len() ==> stored[n] is Err,
    ensures
        n < stored.len() ==> first_error(stored) == Some(stored[n]->Err_0),
        n == stored.len() ==> first_error(stored) is None,
    decreases stored.len(),
{
    if stored.len() > 0 {
        let r = stored.drop_last();
        assert forall|i: int| 0 <= i < n && i < r.len() implies (#[trigger] r[i]) is Ok by {
            assert(r[i] == stored[i]);
        }
        if n < stored.len() {
            if n < r.len() {
                assert(r[n] == stored[n]);
            }
            lemma_first_error_is(r, n);
        } else {
            assert(stored[stored.len() - 1] is Ok);
            lemma_first_error_is(r, n - 1);
        }
    }
}

} // verus!
