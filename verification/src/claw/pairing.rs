//! Who may speak to the gateway: a list of peers, closed unless it says otherwise.

use vstd::prelude::*;

use crate::environ::{env_var, Environ};
use crate::text::chars::{lemma_lower_text, 
    lemma_trim_ends, lemma_trim_fixed, lower_text, owned, same, same_ignoring_case, trim, trim_str,
};
use crate::text::lines::{lemma_lines_cons, lines, lines_of};
use crate::text::order::{lemma_le_antisymmetric, strictly_sorted, text_lt};
use crate::text::path::{join_path, joined};
use crate::text::table::Table;

verus! {

/// The variable that lets every peer in, for development only.
pub const ALLOW_ALL_ENV: &'static str = "PIRS_CLAW_ALLOW_ALL";

/// What is said where every peer is let in.
pub const ALLOW_ALL_WARNING: &'static str = "WARNING: PIRS_CLAW_ALLOW_ALL is set — pairing disabled; any peer can talk to this gateway (dev only)";

/// Whether a variable says yes: `1`, or `true` in any case.
pub open spec fn says_yes(v: Option<Seq<char>>) -> bool {
    match v {
        Some(t) => t == "1"@ || lower_text(t) == lower_text("true"@),
        None => false,
    }
}

/// Whether a variable says yes.
pub fn is_yes(env: &Environ, name: &str) -> (r: bool)
    ensures
        r == says_yes(env_var(env@, name@)),
{
    match env.var(name) {
        Some(v) => same(v, "1") || same_ignoring_case(v, "true"),
        None => false,
    }
}

/// Whether the environment lets every peer in.
pub fn allow_all_enabled(env: &Environ) -> (r: bool)
    ensures
        r == says_yes(env_var(env@, ALLOW_ALL_ENV@)),
{
    is_yes(env, ALLOW_ALL_ENV)
}

/// The warning that is to be printed where the environment lets every peer in.
pub fn warn_if_allow_all(env: &Environ) -> (r: Option<String>)
    ensures
        r.deep_view() == (if says_yes(env_var(env@, ALLOW_ALL_ENV@)) {
            Some("[pirs-claw] "@ + ALLOW_ALL_WARNING@)
        } else {
            None
        }),
{
    if allow_all_enabled(env) {
        let mut out: String = owned("[pirs-claw] ");
        out.append(ALLOW_ALL_WARNING);
        Some(out)
    } else {
        None
    }
}

/// The peers that may speak.
pub struct PairingAllowlist {
    peers: Table<()>,
    allow_all: bool,
}

/// The peers that may speak, and whether everyone may.
pub struct AllowView {
    pub peers: Set<Seq<char>>,
    pub allow_all: bool,
}

impl View for PairingAllowlist {
    type V = AllowView;

    closed spec fn view(&self) -> AllowView {
        AllowView { peers: self.peers@.dom(), allow_all: self.allow_all }
    }
}

/// Whether a line of the list names a peer: it is neither blank nor a comment.
pub open spec fn names_peer(line: Seq<char>) -> bool {
    trim(line).len() > 0 && trim(line)[0] != '#'
}

/// The peers that the lines of a list name.
pub open spec fn peers_in(ls: Seq<Seq<char>>) -> Set<Seq<char>>
    decreases ls.len(),
{
    if ls.len() == 0 {
        Set::empty()
    } else if names_peer(ls.last()) {
        peers_in(ls.drop_last()).insert(trim(ls.last()))
    } else {
        peers_in(ls.drop_last())
    }
}

/// Whether a peer may speak.
pub open spec fn allowed(v: AllowView, peer: Seq<char>) -> bool {
    v.allow_all || v.peers.contains(peer)
}

/// The line that a list file starts with.
pub open spec fn list_header() -> Seq<char> {
    "# pirs-claw pairing allowlist — one peer id per line (chat_id / user id)"@
}

/// Texts as lines, each ended by a line feed.
pub open spec fn as_lines(s: Seq<Seq<char>>) -> Seq<char>
    decreases s.len(),
{
    if s.len() == 0 {
        seq![]
    } else {
        s[0].push('\n') + as_lines(s.skip(1))
    }
}

/// Whether `l` lists the peers, each once and in order.
pub open spec fn is_listing(l: Seq<Seq<char>>, peers: Set<Seq<char>>) -> bool {
    strictly_sorted(l) && forall|p: Seq<char>| #[trigger] l.contains(p) == peers.contains(p)
}

/// The peers in order.
pub open spec fn listing(peers: Set<Seq<char>>) -> Seq<Seq<char>> {
    choose|l: Seq<Seq<char>>| is_listing(l, peers)
}

/// The text of a list file.
pub open spec fn list_text(l: Seq<Seq<char>>) -> Seq<char> {
    as_lines(seq![list_header()] + l)
}

proof fn lemma_first_of_sorted(s: Seq<Seq<char>>, p: Seq<char>)
    requires
        strictly_sorted(s),
        s.contains(p),
    ensures
        s[0] == p || text_lt(s[0], p),
{
    let i = choose|i: int| 0 <= i < s.len() && s[i] == p;
    if i > 0 {
        assert(text_lt(s[0], s[i]));
    }
}

/// There is only one way to list peers in order.
proof fn lemma_listing_unique(a: Seq<Seq<char>>, b: Seq<Seq<char>>)
    requires
        strictly_sorted(a),
        strictly_sorted(b),
        forall|p: Seq<char>| #[trigger] a.contains(p) == b.contains(p),
    ensures
        a == b,
    decreases a.len(),
{
    if a.len() == 0 {
        if b.len() > 0 {
            assert(b.contains(b[0]));
            assert(a.contains(b[0]));
        }
        assert(a =~= b);
    } else {
        assert(a.contains(a[0]));
        assert(b.contains(a[0]));
        assert(b.contains(b[0]));
        assert(a.contains(b[0]));
        lemma_first_of_sorted(b, a[0]);
        lemma_first_of_sorted(a, b[0]);
        if a[0] != b[0] {
            lemma_le_antisymmetric(a[0], b[0]);
        }
        let x = a.skip(1);
        let y = b.skip(1);
        assert forall|i: int, j: int| 0 <= i < j < x.len() implies text_lt(
            #[trigger] x[i],
            #[trigger] x[j],
        ) by {
            assert(text_lt(a[i + 1], a[j + 1]));
        }
        assert forall|i: int, j: int| 0 <= i < j < y.len() implies text_lt(
            #[trigger] y[i],
            #[trigger] y[j],
        ) by {
            assert(text_lt(b[i + 1], b[j + 1]));
        }
        assert forall|p: Seq<char>| #[trigger] x.contains(p) == y.contains(p) by {
            if x.contains(p) {
                let i = choose|i: int| 0 <= i < x.len() && x[i] == p;
                assert(a[i + 1] == p);
                assert(a.contains(p));
                assert(text_lt(a[0], a[i + 1]));
                let j = choose|j: int| 0 <= j < b.len() && b[j] == p;
                assert(j > 0);
                assert(y[j - 1] == p);
            }
            if y.contains(p) {
                let i = choose|i: int| 0 <= i < y.len() && y[i] == p;
                assert(b[i + 1] == p);
                assert(b.contains(p));
                assert(a.contains(p));
                assert(text_lt(b[0], b[i + 1]));
                let j = choose|j: int| 0 <= j < a.len() && a[j] == p;
                assert(j > 0);
                assert(x[j - 1] == p);
            }
        }
        lemma_listing_unique(x, y);
        assert(a =~= seq![a[0]] + x);
        assert(b =~= seq![b[0]] + y);
    }
}

impl PairingAllowlist {
    /// The list that the text of its file holds; a file that is not there lists nobody.
    pub fn open(text: Option<&str>, env: &Environ) -> (r: PairingAllowlist)
        ensures
            r@ == (AllowView {
                peers: match text {
                    Some(t) => peers_in(lines(t@)),
                    None => Set::empty(),
                },
                allow_all: says_yes(env_var(env@, ALLOW_ALL_ENV@)),
            }),
    {
        let allow_all: bool = allow_all_enabled(env);
        let mut peers: Table<()> = Table::new();
        assert(peers@.dom() =~= Set::<Seq<char>>::empty());
        if let Some(t) = text {
            let ls: Vec<String> = lines_of(t);
            let ghost all = lines(t@);
            let mut i: usize = 0;
            while i < ls.len()
                invariant
                    i <= ls@.len(),
                    ls.deep_view() == all,
                    peers@.dom() == peers_in(all.take(i as int)),
                decreases ls@.len() - i,
            {
                proof {
                    assert(all.take(i + 1).drop_last() =~= all.take(i as int));
                    assert(ls.deep_view()[i as int] == ls@[i as int]@);
                    assert(all.take(i + 1).last() == ls@[i as int]@);
                }
                let line: &str = trim_str(&ls[i]);
                if line.unicode_len() > 0 && line.get_char(0) != '#' {
                    let ghost before = peers@;
                    peers.insert(line, ());
                    assert(peers@.dom() =~= before.dom().insert(line@));
                }
                i = i + 1;
            }
            assert(all.take(i as int) =~= all);
        }
        PairingAllowlist { peers, allow_all }
    }

    /// Where the list is kept.
    pub fn default_path(state_dir: &str) -> (r: String)
        ensures
            r@ == joined(state_dir@, "allowlist.txt"@),
    {
        join_path(state_dir, "allowlist.txt")
    }

    /// Whether a peer may speak.
    pub fn is_allowed(&self, peer_id: &str) -> (r: bool)
        ensures
            r == allowed(self@, peer_id@),
    {
        self.allow_all || self.peers.contains(peer_id)
    }

    /// Whether nobody may speak.
    pub fn is_empty(&self) -> (r: bool)
        ensures
            r == (self@.peers.len() == 0 && !self@.allow_all),
    {
        self.peers.len() == 0 && !self.allow_all
    }

    /// How many peers are listed.
    pub fn len(&self) -> (r: usize)
        ensures
            r == self@.peers.len(),
    {
        self.peers.len()
    }

    /// Whether everyone may speak.
    pub fn allow_all(&self) -> (r: bool)
        ensures
            r == self@.allow_all,
    {
        self.allow_all
    }

    /// The listed peers in order.
    pub fn list(&self) -> (r: Vec<String>)
        ensures
            r.deep_view() == listing(self@.peers),
            is_listing(r.deep_view(), self@.peers),
    {
        let r: Vec<String> = self.peers.keys();
        proof {
            let l = r.deep_view();
            assert forall|p: Seq<char>| #[trigger] l.contains(p) == self@.peers.contains(p) by {}
            assert(is_listing(l, self@.peers));
            let c = listing(self@.peers);
            assert forall|p: Seq<char>| #[trigger] l.contains(p) == c.contains(p) by {
                assert(c.contains(p) == self@.peers.contains(p));
            }
            lemma_listing_unique(l, c);
        }
        r
    }

    /// Adds a peer, and says whether it is new. The list is to be saved afterwards. A blank peer
    /// is refused.
    pub fn add(&mut self, peer: &str) -> (r: Result<bool, String>)
        ensures
            match r {
                Ok(new) => trim(peer@).len() > 0 && new == !old(self)@.peers.contains(trim(peer@))
                    && final(self)@ == (AllowView {
                    peers: old(self)@.peers.insert(trim(peer@)),
                    allow_all: old(self)@.allow_all,
                }),
                Err(e) => trim(peer@).len() == 0 && e@ == "peer id must be non-empty"@
                    && final(self)@ == old(self)@,
            },
    {
        let p: &str = trim_str(peer);
        if p.unicode_len() == 0 {
            return Err(owned("peer id must be non-empty"));
        }
        let ghost before = self.peers@;
        let new: bool = !self.peers.contains(p);
        self.peers.insert(p, ());
        assert(self.peers@.dom() =~= before.dom().insert(p@));
        Ok(new)
    }

    /// Takes a peer off the list, and says whether it was there. The list is to be saved
    /// afterwards.
    pub fn remove(&mut self, peer: &str) -> (r: bool)
        ensures
            r == old(self)@.peers.contains(trim(peer@)),
            final(self)@ == (AllowView {
                peers: old(self)@.peers.remove(trim(peer@)),
                allow_all: old(self)@.allow_all,
            }),
    {
        let p: &str = trim_str(peer);
        let ghost before = self.peers@;
        let was: bool = self.peers.remove(p);
        assert(self.peers@.dom() =~= before.dom().remove(p@));
        was
    }

    /// The text that the file of the list is to hold.
    pub fn save(&self) -> (r: String)
        ensures
            r@ == list_text(listing(self@.peers)),
    {
        let l: Vec<String> = self.list();
        let ghost all = l.deep_view();
        let mut out: String = owned(
            "# pirs-claw pairing allowlist — one peer id per line (chat_id / user id)",
        );
        out.push('\n');
        let mut i: usize = 0;
        proof {
            let s = seq![list_header()] + all;
            assert(s.skip(1) =~= all.skip(0));
            assert(list_text(all) == list_header().push('\n') + as_lines(all.skip(0)));
        }
        while i < l.len()
            invariant
                i <= l@.len(),
                all == l.deep_view(),
                list_text(all) == out@ + as_lines(all.skip(i as int)),
            decreases l@.len() - i,
        {
            let ghost before = out@;
            proof {
                assert(all[i as int] == l@[i as int]@);
                assert(all.skip(i as int).skip(1) =~= all.skip(i + 1));
                let x = l@[i as int]@;
                assert(before + (x.push('\n') + as_lines(all.skip(i + 1))) =~= (before + x).push(
                    '\n',
                ) + as_lines(all.skip(i + 1)));
            }
            out.append(&l[i]);
            out.push('\n');
            i = i + 1;
        }
        proof {
            assert(all.skip(i as int) =~= Seq::<Seq<char>>::empty());
            assert(out@ + Seq::<char>::empty() =~= out@);
        }
        out
    }
}

/// Whether a peer comes through a list file unchanged: it is what its line names.
pub open spec fn is_clean(p: Seq<char>) -> bool {
    names_peer(p) && trim(p) == p && !p.contains('\n')
}

proof fn lemma_as_lines(s: Seq<Seq<char>>)
    requires
        forall|i: int|
            0 <= i < s.len() ==> !(#[trigger] s[i]).contains('\n') && s[i].len() > 0
                && s[i].last() != '\r',
    ensures
        lines(as_lines(s)) == s,
    decreases s.len(),
{
    if s.len() > 0 {
        let t = s.skip(1);
        assert forall|i: int| 0 <= i < t.len() implies !(#[trigger] t[i]).contains('\n')
            && t[i].len() > 0 && t[i].last() != '\r' by {
            assert(t[i] == s[i + 1]);
        }
        lemma_as_lines(t);
        lemma_lines_cons(s[0], as_lines(t));
        assert(seq![s[0]] + t =~= s);
    } else {
        assert(lines(as_lines(s)) =~= s);
    }
}

proof fn lemma_peers_in(ls: Seq<Seq<char>>, p: Seq<char>)
    ensures
        peers_in(ls).contains(p) <==> exists|i: int|
            0 <= i < ls.len() && names_peer(#[trigger] ls[i]) && trim(ls[i]) == p,
    decreases ls.len(),
{
    if ls.len() > 0 {
        let d = ls.drop_last();
        lemma_peers_in(d, p);
        if exists|i: int| 0 <= i < d.len() && names_peer(#[trigger] d[i]) && trim(d[i]) == p {
            let i = choose|i: int|
                0 <= i < d.len() && names_peer(#[trigger] d[i]) && trim(d[i]) == p;
            assert(ls[i] == d[i]);
        }
        if exists|i: int| 0 <= i < ls.len() && names_peer(#[trigger] ls[i]) && trim(ls[i]) == p {
            let i = choose|i: int|
                0 <= i < ls.len() && names_peer(#[trigger] ls[i]) && trim(ls[i]) == p;
            if i < d.len() {
                assert(d[i] == ls[i]);
            }
        }
        if names_peer(ls.last()) && trim(ls.last()) == p {
            assert(ls[ls.len() - 1] == ls.last());
        }
    }
}

/// A saved list, read again, lists the same peers, where each of them is a name of its own: not
/// blank at its ends, on one line, and no comment.
pub proof fn lemma_list_round_trip(l: Seq<Seq<char>>, peers: Set<Seq<char>>)
    requires
        is_listing(l, peers),
        forall|p: Seq<char>| peers.contains(p) ==> #[trigger] is_clean(p),
    ensures
        peers_in(lines(list_text(l))) == peers,
{
    let s = seq![list_header()] + l;
    reveal_strlit("# pirs-claw pairing allowlist — one peer id per line (chat_id / user id)");
    let h = list_header();
    lemma_trim_fixed(h);
    assert forall|i: int| 0 <= i < l.len() implies is_clean(#[trigger] l[i]) by {
        assert(l.contains(l[i]));
    }
    assert forall|i: int| 0 <= i < s.len() implies !(#[trigger] s[i]).contains('\n') && s[i].len()
        > 0 && s[i].last() != '\r' by {
        if i > 0 {
            let p = l[i - 1];
            assert(s[i] == p);
            assert(is_clean(p));
            lemma_trim_ends(p);
        } else {
            assert forall|k: int| 0 <= k < h.len() implies h[k] != '\n' by {}
        }
    }
    lemma_as_lines(s);
    assert forall|p: Seq<char>| peers_in(s).contains(p) == peers.contains(p) by {
        lemma_peers_in(s, p);
        if peers.contains(p) {
            assert(l.contains(p));
            let i = choose|i: int| 0 <= i < l.len() && l[i] == p;
            assert(s[i + 1] == p);
            assert(is_clean(p));
            assert(names_peer(s[i + 1]) && trim(s[i + 1]) == p);
        }
        if peers_in(s).contains(p) {
            let i = choose|i: int|
                0 <= i < s.len() && names_peer(#[trigger] s[i]) && trim(s[i]) == p;
            assert(i > 0);
            assert(s[i] == l[i - 1]);
            assert(is_clean(l[i - 1]));
            assert(l.contains(p));
        }
    }
    assert(peers_in(s) =~= peers);
}

/// Without a list, and without the variable that lets everyone in, nobody may speak.
pub proof fn lemma_fail_closed(peer: Seq<char>)
    ensures
        !allowed(AllowView { peers: Set::empty(), allow_all: false }, peer),
        peers_in(lines(seq![])) == Set::<Seq<char>>::empty(),
{
}

/// What says yes: `1`, or `true` in any mixture of small and capital letters, and nothing else.
pub proof fn lemma_yes(t: Seq<char>)
    ensures
        !says_yes(None),
        says_yes(Some(t)) <==> t == seq!['1'] || t.len() == 4 && (t[0] == 't' || t[0] == 'T') && (t[1]
            == 'r' || t[1] == 'R') && (t[2] == 'u' || t[2] == 'U') && (t[3] == 'e' || t[3] == 'E'),
{
    reveal_strlit("1");
    reveal_strlit("true");
    assert("1"@ =~= seq!['1']);
    lemma_lower_text(t);
    lemma_lower_text("true"@);
    let l = lower_text(t);
    let yes = lower_text("true"@);
    assert(yes =~= seq!['t', 'r', 'u', 'e']);
    if t.len() == 4 {
        assert(l[0] as u32 == 't' as u32 <==> t[0] == 't' || t[0] == 'T');
        assert(l[1] as u32 == 'r' as u32 <==> t[1] == 'r' || t[1] == 'R');
        assert(l[2] as u32 == 'u' as u32 <==> t[2] == 'u' || t[2] == 'U');
        assert(l[3] as u32 == 'e' as u32 <==> t[3] == 'e' || t[3] == 'E');
        if (t[0] == 't' || t[0] == 'T') && (t[1] == 'r' || t[1] == 'R') && (t[2] == 'u' || t[2]
            == 'U') && (t[3] == 'e' || t[3] == 'E') {
            assert(l =~= yes);
        }
        if l == yes {
            assert(l[0] == 't' && l[1] == 'r' && l[2] == 'u' && l[3] == 'e');
        }
    }
}

/// Who is listed: every line lists what stands on it without the white space around, but for blank
/// lines and those that start with `#`; and a listed peer may speak, as everyone may where all are
/// let in.
pub proof fn lemma_listed(text: Seq<char>, p: Seq<char>, all: bool)
    ensures
        peers_in(lines(text)).contains(p) <==> exists|i: int|
            0 <= i < lines(text).len() && trim(#[trigger] lines(text)[i]) == p && p.len() > 0 && p[0]
                != '#',
        allowed(AllowView { peers: peers_in(lines(text)), allow_all: all }, p) <==> all || peers_in(
            lines(text),
        ).contains(p),
{
    lemma_peers_in(lines(text), p);
    if peers_in(lines(text)).contains(p) {
        let i = choose|i: int|
            0 <= i < lines(text).len() && names_peer(#[trigger] lines(text)[i]) && trim(
                lines(text)[i],
            ) == p;
        assert(trim(lines(text)[i]) == p);
    }
}

} // verus!
