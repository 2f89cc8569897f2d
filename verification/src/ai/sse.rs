//! Server-sent events: the events in a stream of bytes that comes in pieces.

use vstd::prelude::*;
use vstd::string::*;
use vstd::utf8::encode_utf8;

use crate::text::chars::{is_space, lemma_trim_fixed, owned, trim, trim_str};
use crate::text::lines::{lemma_lines_are, lines, lines_of};
use crate::text::lossy::{lossy_text, text_of_bytes};
use crate::text::search::{
    find, find_str, lemma_find, lemma_find_is, lemma_prefix, occurs_at, skip_str, starts_with, strip,
    strip_prefix, take_str,
};

verus! {

/// Where the first event ends, in characters, and how long the empty line behind it is: the
/// earlier of two carriage returns with line feeds and two line feeds.
pub open spec fn boundary(s: Seq<char>) -> Option<(nat, nat)> {
    match (find(s, "\r\n\r\n"@), find(s, "\n\n"@)) {
        (Some(a), Some(b)) => if a <= b {
            Some((a, 4))
        } else {
            Some((b, 2))
        },
        (Some(a), None) => Some((a, 4)),
        (None, Some(b)) => Some((b, 2)),
        (None, None) => None,
    }
}

/// An event ends inside the text, and the line ends behind it are there too.
pub proof fn lemma_boundary(s: Seq<char>)
    ensures
        boundary(s) matches Some((p, l)) ==> p + l <= s.len() && l > 0,
{
    reveal_strlit("\r\n\r\n");
    reveal_strlit("\n\n");
    lemma_find(s, "\r\n\r\n"@);
    lemma_find(s, "\n\n"@);
}

/// What a `data:` line carries: what stands behind the colon, without one space before it.
pub open spec fn payload(line: Seq<char>) -> Option<Seq<char>> {
    match strip_prefix(line, "data:"@) {
        Some(rest) => match strip_prefix(rest, " "@) {
            Some(text) => Some(text),
            None => Some(rest),
        },
        None => None,
    }
}

/// The data in the lines of an event: what its `data:` lines carry, one below the other. Empty
/// lines before the first that carries something leave nothing.
pub open spec fn data_of(ls: Seq<Seq<char>>) -> Seq<char>
    decreases ls.len(),
{
    if ls.len() == 0 {
        Seq::empty()
    } else {
        let d = data_of(ls.drop_last());
        match payload(ls.last()) {
            Some(text) => if d.len() > 0 {
                d + "\n"@ + text
            } else {
                text
            },
            None => d,
        }
    }
}

/// The data of an event.
pub open spec fn event_data(event: Seq<char>) -> Seq<char> {
    data_of(lines(trim(event)))
}

/// The data of the events that are complete in a text; an event without data is passed over.
pub open spec fn events(s: Seq<char>) -> Seq<Seq<char>>
    decreases s.len(),
{
    match boundary(s) {
        Some((p, l)) => {
            proof {
                lemma_boundary(s);
            }
            let d = event_data(s.take(p as int));
            let rest = s.skip((p + l) as int);
            if d.len() > 0 {
                seq![d] + events(rest)
            } else {
                events(rest)
            }
        },
        None => seq![],
    }
}

/// What is left of a text behind its last complete event.
pub open spec fn leftover(s: Seq<char>) -> Seq<char>
    decreases s.len(),
{
    match boundary(s) {
        Some((p, l)) => {
            proof {
                lemma_boundary(s);
            }
            leftover(s.skip((p + l) as int))
        },
        None => s,
    }
}

/// Where the first event ends, and how long the empty line behind it is, in characters.
fn boundary_in(buf: &str) -> (r: Option<(usize, usize)>)
    ensures
        match r {
            Some((p, l)) => boundary(buf@) == Some((p as nat, l as nat)) && p + l <= buf@.len()
                <= usize::MAX && l > 0,
            None => boundary(buf@) is None,
        },
{
    proof {
        lemma_boundary(buf@);
    }
    let crlf: Option<usize> = find_str(buf, "\r\n\r\n");
    let lf: Option<usize> = find_str(buf, "\n\n");
    match (crlf, lf) {
        (Some(a), Some(b)) => if a <= b {
            Some((a, 4))
        } else {
            Some((b, 2))
        },
        (Some(a), None) => Some((a, 4)),
        (None, Some(b)) => Some((b, 2)),
        (None, None) => None,
    }
}

/// Where the first event ends, in bytes, and how long the empty line behind it is.
pub fn find_event_boundary(buf: &str) -> (r: Option<(usize, usize)>)
    ensures
        r == (match boundary(buf@) {
            Some((p, l)) => Some(
                (encode_utf8(buf@.take(p as int)).len() as usize, l as usize),
            ),
            None => None,
        }),
{
    match boundary_in(buf) {
        Some((p, l)) => Some((take_str(buf, p).len(), l)),
        None => None,
    }
}

/// The data of an event.
fn data_in(event: &str) -> (r: String)
    ensures
        r@ == event_data(event@),
{
    let ls: Vec<String> = lines_of(trim_str(event));
    let ghost all = ls.deep_view();
    let mut data: String = String::new();
    let mut i: usize = 0;
    assert(data@ =~= data_of(all.take(0)));
    while i < ls.len()
        invariant
            i <= ls@.len(),
            all == ls.deep_view(),
            data@ == data_of(all.take(i as int)),
        decreases ls@.len() - i,
    {
        let line: &str = ls[i].as_str();
        proof {
            assert(all[i as int] == line@);
            assert(all.take(i + 1).drop_last() =~= all.take(i as int));
            assert(all.take(i + 1).last() == line@);
        }
        if let Some(rest) = strip(line, "data:") {
            if data.as_str().unicode_len() > 0 {
                data.append("\n");
            }
            match strip(rest, " ") {
                Some(text) => data.append(text),
                None => data.append(rest),
            }
            assert(data@ =~= data_of(all.take(i + 1)));
        }
        i = i + 1;
    }
    assert(all.take(i as int) =~= all);
    data
}

/// What has come in of a stream and is not yet a complete event.
pub struct SseStream {
    buf: String,
}

impl View for SseStream {
    type V = Seq<char>;

    closed spec fn view(&self) -> Seq<char> {
        self.buf@
    }
}

impl SseStream {
    /// A stream of which nothing has come in.
    pub fn new() -> (r: SseStream)
        ensures
            r@ == Seq::<char>::empty(),
    {
        SseStream { buf: String::new() }
    }

    /// Takes in a piece of text, and hands out the data of the events that are now complete.
    pub fn feed_text(&mut self, piece: &str) -> (r: Vec<String>)
        ensures
            r.deep_view() == events(old(self)@ + piece@),
            final(self)@ == leftover(old(self)@ + piece@),
    {
        let mut all: String = owned(self.buf.as_str());
        all.append(piece);
        let mut out: Vec<String> = Vec::new();
        let mut rest: &str = all.as_str();
        assert(out.deep_view() + events(rest@) =~= events(all@));
        loop
            invariant
                events(all@) == out.deep_view() + events(rest@),
                leftover(all@) == leftover(rest@),
            ensures
                boundary(rest@) is None,
            decreases rest@.len(),
        {
            let (p, l): (usize, usize) = match boundary_in(rest) {
                Some(at) => at,
                None => {
                    break;
                },
            };
            let ghost before = out.deep_view();
            let data: String = data_in(take_str(rest, p));
            let next: &str = skip_str(rest, p + l);
            if data.as_str().unicode_len() > 0 {
                proof {
                    assert(before + (seq![data@] + events(next@)) =~= before.push(data@) + events(
                        next@,
                    ));
                }
                out.push(data);
                assert(out.deep_view() =~= before.push(data@));
            }
            rest = next;
        }
        assert(out.deep_view() + events(rest@) =~= out.deep_view());
        self.buf = owned(rest);
        out
    }

    /// Takes in the next bytes, and hands out the data of the events that are now complete.
    pub fn feed(&mut self, bytes: &[u8]) -> (r: Vec<String>)
        ensures
            r.deep_view() == events(old(self)@ + lossy_text(bytes@)),
            final(self)@ == leftover(old(self)@ + lossy_text(bytes@)),
    {
        let piece: String = text_of_bytes(bytes);
        self.feed_text(piece.as_str())
    }
}

proof fn lemma_occurs_further(s: Seq<char>, t: Seq<char>, p: Seq<char>, i: int)
    ensures
        i + p.len() <= s.len() ==> occurs_at(s + t, p, i) == occurs_at(s, p, i),
{
    if 0 <= i && i + p.len() <= s.len() {
        assert((s + t).subrange(i, i + p.len()) =~= s.subrange(i, i + p.len()));
    }
}

/// An end of an event stays where it is when more text comes in.
proof fn lemma_boundary_stays(s: Seq<char>, t: Seq<char>)
    requires
        boundary(s) is Some,
    ensures
        boundary(s + t) == boundary(s),
{
    let crlf = "\r\n\r\n"@;
    let lf = "\n\n"@;
    reveal_strlit("\r\n\r\n");
    reveal_strlit("\n\n");
    let u = s + t;
    lemma_find(s, crlf);
    lemma_find(s, lf);
    lemma_find(u, crlf);
    lemma_find(u, lf);
    assert forall|i: int| i + crlf.len() <= s.len() implies occurs_at(u, crlf, i) == occurs_at(
        s,
        crlf,
        i,
    ) by {
        lemma_occurs_further(s, t, crlf, i);
    }
    assert forall|i: int| i + lf.len() <= s.len() implies occurs_at(u, lf, i) == occurs_at(
        s,
        lf,
        i,
    ) by {
        lemma_occurs_further(s, t, lf, i);
    }
    if find(s, crlf) is Some {
        lemma_find_is(u, crlf, find(s, crlf)->0 as int);
    }
    if find(s, lf) is Some {
        let b = find(s, lf)->0 as int;
        lemma_find_is(u, lf, b);
        if find(u, crlf) is Some {
            let a = find(u, crlf)->0 as int;
            assert(u.subrange(b, b + 2) == lf);
            assert(u[b] == u.subrange(b, b + 2)[0]);
            assert(u[b + 1] == u.subrange(b, b + 2)[1]);
            assert(u.subrange(a, a + 4) == crlf);
            assert(u[a] == u.subrange(a, a + 4)[0]);
            assert(u[a + 1] == u.subrange(a, a + 4)[1]);
            assert(u[a + 2] == u.subrange(a, a + 4)[2]);
            if a + 4 > s.len() {
                assert(a > b);
            }
        }
    }
}

/// It does not matter where a stream is cut: what comes in as two pieces gives the events that it
/// gives in one, and leaves the same over.
pub proof fn lemma_pieces(s: Seq<char>, t: Seq<char>)
    ensures
        events(s + t) == events(s) + events(leftover(s) + t),
        leftover(s + t) == leftover(leftover(s) + t),
    decreases s.len(),
{
    match boundary(s) {
        None => {
            assert(Seq::<Seq<char>>::empty() + events(s + t) =~= events(s + t));
        },
        Some((p, l)) => {
            lemma_boundary(s);
            lemma_boundary_stays(s, t);
            let rest = s.skip((p + l) as int);
            lemma_pieces(rest, t);
            assert((s + t).skip((p + l) as int) =~= rest + t);
            assert((s + t).take(p as int) =~= s.take(p as int));
            let d = event_data(s.take(p as int));
            assert(seq![d] + (events(rest) + events(leftover(rest) + t)) =~= (seq![d] + events(rest))
                + events(leftover(rest) + t));
        },
    }
}

/// Every event that is handed out carries data.
pub proof fn lemma_events_carry_data(s: Seq<char>)
    ensures
        forall|i: int| 0 <= i < events(s).len() ==> (#[trigger] events(s)[i]).len() > 0,
    decreases s.len(),
{
    if let Some((p, l)) = boundary(s) {
        lemma_boundary(s);
        let rest = events(s.skip((p + l) as int));
        lemma_events_carry_data(s.skip((p + l) as int));
        let d = event_data(s.take(p as int));
        assert forall|i: int| 0 <= i < events(s).len() implies (#[trigger] events(s)[i]).len()
            > 0 by {
            if d.len() > 0 {
                assert(events(s) == seq![d] + rest);
                if i > 0 {
                    assert(events(s)[i] == rest[i - 1]);
                }
            }
        }
    }
}

/// What a line of an event carries: what stands behind `data:`, without one space; other lines carry
/// nothing.
pub proof fn lemma_payload(t: Seq<char>, line: Seq<char>)
    ensures
        payload("data: "@ + t) == Some(t),
        t.len() == 0 || t[0] != ' ' ==> payload("data:"@ + t) == Some(t),
        !starts_with(line, "data:"@) ==> payload(line) is None,
{
    reveal_strlit("data: ");
    reveal_strlit("data:");
    reveal_strlit(" ");
    assert("data: "@ + t =~= "data:"@ + (" "@ + t));
    lemma_prefix("data:"@, " "@ + t, t);
    lemma_prefix(" "@, t, t);
    lemma_prefix("data:"@, t, t);
    if starts_with(t, " "@) {
        assert(t.take(1)[0] == ' ');
    }
}

/// The data of an event are what its lines carry, one below the other.
pub proof fn lemma_data_of(ls: Seq<Seq<char>>, line: Seq<char>)
    ensures
        data_of(Seq::empty()) == Seq::<char>::empty(),
        payload(line) is None ==> data_of(ls.push(line)) == data_of(ls),
        payload(line) is Some && data_of(ls).len() == 0 ==> data_of(ls.push(line)) == payload(line)->0,
        payload(line) is Some && data_of(ls).len() > 0 ==> data_of(ls.push(line)) == data_of(ls)
            + seq!['\n'] + payload(line)->0,
{
    reveal_strlit("\n");
    assert("\n"@ =~= seq!['\n']);
    assert(ls.push(line).drop_last() =~= ls);
    assert(data_of(Seq::<Seq<char>>::empty()) =~= Seq::<char>::empty());
}

/// An event of one line is handed out as soon as the empty line behind it is there, whole, and what
/// follows is read on from there; until then it waits.
pub proof fn lemma_one_event(t: Seq<char>, rest: Seq<char>)
    requires
        t.len() > 0,
        !t.contains('\n'),
        !t.contains('\r'),
        !is_space(t.last()),
    ensures
        events("data: "@ + t + seq!['\n', '\n'] + rest) == seq![t] + events(rest),
        leftover("data: "@ + t + seq!['\n', '\n'] + rest) == leftover(rest),
        events("data: "@ + t + seq!['\r', '\n', '\r', '\n'] + rest) == seq![t] + events(rest),
        leftover("data: "@ + t + seq!['\r', '\n', '\r', '\n'] + rest) == leftover(rest),
        events("data: "@ + t) == Seq::<Seq<char>>::empty(),
        leftover("data: "@ + t) == "data: "@ + t,
{
    reveal_strlit("data: ");
    reveal_strlit("\n\n");
    reveal_strlit("\r\n\r\n");
    let e = "data: "@ + t;
    let n = e.len() as int;
    assert forall|j: int| 0 <= j < n implies (#[trigger] e[j]) != '\n' && e[j] != '\r' by {
        if j >= 6 {
            assert(e[j] == t[j - 6]);
            assert(t.contains(t[j - 6]));
        }
    }
    assert(e[0] == 'd');
    assert(e.last() == t.last());
    lemma_trim_fixed(e);
    assert(!e.contains('\n'));
    lemma_lines_are(e, rest);
    lemma_payload(t, e);
    let none = Seq::<Seq<char>>::empty();
    lemma_data_of(none, e);
    assert(none.push(e) =~= seq![e]);
    assert(event_data(e) == t);
    let s = e + seq!['\n', '\n'] + rest;
    let w = e + seq!['\r', '\n', '\r', '\n'] + rest;
    assert(s.subrange(n, n + 2) =~= "\n\n"@);
    assert(w.subrange(n, n + 4) =~= "\r\n\r\n"@);
    assert forall|j: int| 0 <= j < n implies !occurs_at(s, "\n\n"@, j) && !occurs_at(
        w,
        "\r\n\r\n"@,
        j,
    ) && !occurs_at(s, "\r\n\r\n"@, j) && !occurs_at(w, "\n\n"@, j) by {
        assert(s[j] == e[j] && w[j] == e[j]);
        if occurs_at(s, "\n\n"@, j) {
            assert(s.subrange(j, j + 2)[0] == '\n');
        }
        if occurs_at(w, "\n\n"@, j) {
            assert(w.subrange(j, j + 2)[0] == '\n');
        }
        if occurs_at(s, "\r\n\r\n"@, j) {
            assert(s.subrange(j, j + 4)[0] == '\r');
        }
        if occurs_at(w, "\r\n\r\n"@, j) {
            assert(w.subrange(j, j + 4)[0] == '\r');
        }
    }
    lemma_find_is(s, "\n\n"@, n);
    lemma_find_is(w, "\r\n\r\n"@, n);
    lemma_find(s, "\r\n\r\n"@);
    lemma_find(w, "\n\n"@);
    if occurs_at(s, "\r\n\r\n"@, n) {
        assert(s.subrange(n, n + 4)[0] == '\r');
        assert(s[n] == '\n');
    }
    if occurs_at(w, "\n\n"@, n) {
        assert(w.subrange(n, n + 2)[0] == '\n');
        assert(w[n] == '\r');
    }
    assert(boundary(s) == Some((n as nat, 2nat)));
    assert(boundary(w) == Some((n as nat, 4nat)));
    assert(s.take(n) =~= e);
    assert(w.take(n) =~= e);
    assert(s.skip(n + 2) =~= rest);
    assert(w.skip(n + 4) =~= rest);
    lemma_find(e, "\n\n"@);
    lemma_find(e, "\r\n\r\n"@);
    if find(e, "\n\n"@) is Some {
        let k = find(e, "\n\n"@)->0 as int;
        assert(e.subrange(k, k + 2)[0] == '\n');
        assert(e[k] == '\n');
    }
    if find(e, "\r\n\r\n"@) is Some {
        let k = find(e, "\r\n\r\n"@)->0 as int;
        assert(e.subrange(k, k + 4)[0] == '\r');
        assert(e[k] == '\r');
    }
}

} // verus!
