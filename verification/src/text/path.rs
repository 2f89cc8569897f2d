//! Paths as texts, with `/` between their parts.

use vstd::prelude::*;

use crate::text::chars::owned;
use crate::text::search::{split, starts_with};

verus! {

/// `rel` below `base`; an absolute `rel` stands for itself.
pub open spec fn joined(base: Seq<char>, rel: Seq<char>) -> Seq<char> {
    if rel.len() > 0 && rel[0] == '/' {
        rel
    } else if base.len() == 0 {
        rel
    } else if base.last() == '/' {
        base + rel
    } else {
        base.push('/') + rel
    }
}

/// Whether a path is written with `/` alone, and means the same on every system.
pub open spec fn is_portable(p: Seq<char>) -> bool {
    !p.contains('\\') && !p.contains(':') && !starts_with(p, "//"@)
}

/// What stands behind the last `/` of a path.
pub open spec fn last_name(p: Seq<char>) -> Seq<char> {
    split(p, '/').last()
}

/// Whether a path ends in a name.
pub open spec fn names_file(p: Seq<char>) -> bool {
    is_portable(p) && last_name(p).len() > 0 && last_name(p) != "."@ && last_name(p) != ".."@
}

/// Where the last dot of a name stands; before the name, where it has none.
pub open spec fn last_dot(name: Seq<char>) -> int
    decreases name.len(),
{
    if name.len() == 0 {
        -1
    } else if name.last() == '.' {
        name.len() - 1
    } else {
        last_dot(name.drop_last())
    }
}

/// A name up to its last dot; all of it where it has none, or only the one it starts with.
pub open spec fn stem(name: Seq<char>) -> Seq<char> {
    if last_dot(name) > 0 {
        name.take(last_dot(name))
    } else {
        name
    }
}

/// What stands behind the last dot of a name; nothing where it has none, or only the one it starts
/// with.
pub open spec fn extension(name: Seq<char>) -> Option<Seq<char>> {
    if last_dot(name) > 0 {
        Some(name.skip(last_dot(name) + 1))
    } else {
        None
    }
}

/// Whether a path is one from the root in which no name is empty or a dot.
pub open spec fn is_plain_path(p: Seq<char>) -> bool {
    &&& is_portable(p)
    &&& p.len() > 1 && p[0] == '/'
    &&& forall|i: int|
        0 < i < split(p, '/').len() ==> (#[trigger] split(p, '/')[i]).len() > 0 && split(p, '/')[i]
            != "."@
}

/// What is left of a plain path below a plain root; nothing where it is not below it.
pub open spec fn rest_below(p: Seq<char>, root: Seq<char>) -> Option<Seq<char>> {
    if p == root {
        Some(Seq::empty())
    } else if starts_with(p, root + "/"@) {
        Some(p.skip(root.len() as int + 1))
    } else {
        None
    }
}

/// `rel` below `base`.
pub fn join_path(base: &str, rel: &str) -> (r: String)
    ensures
        r@ == joined(base@, rel@),
{
    let n: usize = base.unicode_len();
    if (rel.unicode_len() > 0 && rel.get_char(0) == '/') || n == 0 {
        return owned(rel);
    }
    let mut out: String = owned(base);
    if base.get_char(n - 1) != '/' {
        out.push('/');
    }
    out.append(rel);
    out
}

/// Joining paths: a path from the root stands for itself, any other comes behind the base, with one
/// `/` between.
pub proof fn lemma_joined(base: Seq<char>, rel: Seq<char>)
    ensures
        joined(base, seq!['/'] + rel) == seq!['/'] + rel,
        joined(Seq::empty(), rel) == rel,
        rel.len() == 0 || rel[0] != '/' ==> joined(base + seq!['/'], rel) == base + seq!['/'] + rel,
        (rel.len() == 0 || rel[0] != '/') && base.len() > 0 && base.last() != '/' ==> joined(base, rel)
            == base + seq!['/'] + rel,
{
    assert(base.push('/') =~= base + seq!['/']);
    assert((base + seq!['/']).last() == '/');
}

proof fn lemma_last_dot(a: Seq<char>, b: Seq<char>)
    requires
        !b.contains('.'),
    ensures
        last_dot(a + seq!['.'] + b) == a.len(),
        last_dot(b) == -1,
    decreases b.len(),
{
    let n = a + seq!['.'] + b;
    if b.len() == 0 {
        assert(n.last() == '.');
    } else {
        assert(n.drop_last() =~= a + seq!['.'] + b.drop_last());
        assert(n.last() == b.last());
        assert(b.contains(b.last()));
        assert forall|c: char| b.drop_last().contains(c) implies #[trigger] b.contains(c) by {
            let i = choose|i: int| 0 <= i < b.drop_last().len() && b.drop_last()[i] == c;
            assert(b[i] == c);
        }
        if b.drop_last().contains('.') {
            assert(b.contains('.'));
        }
        lemma_last_dot(a, b.drop_last());
    }
}

/// The stem and the extension of a name: what stands before and behind its last dot. A name without
/// one, or with none but the one it starts with, is its own stem and has no extension.
pub proof fn lemma_stem_and_extension(a: Seq<char>, b: Seq<char>)
    requires
        !b.contains('.'),
    ensures
        a.len() > 0 ==> stem(a + seq!['.'] + b) == a && extension(a + seq!['.'] + b) == Some(b),
        stem(b) == b && extension(b) is None,
        stem(seq!['.'] + b) == seq!['.'] + b && extension(seq!['.'] + b) is None,
{
    lemma_last_dot(a, b);
    lemma_last_dot(Seq::empty(), b);
    let n = a + seq!['.'] + b;
    assert(n.take(a.len() as int) =~= a);
    assert(n.skip(a.len() as int + 1) =~= b);
    assert(Seq::<char>::empty() + seq!['.'] + b =~= seq!['.'] + b);
}

/// What is left of a path below a root: what stands behind the root and a `/`.
pub proof fn lemma_rest_below(root: Seq<char>, rel: Seq<char>, p: Seq<char>)
    ensures
        rest_below(root, root) == Some(Seq::<char>::empty()),
        rest_below(root + seq!['/'] + rel, root) == Some(rel),
        rest_below(p, root) is Some ==> p == root || p == root + seq!['/'] + rest_below(p, root)->0,
{
    reveal_strlit("/");
    assert("/"@ =~= seq!['/']);
    let q = root + seq!['/'] + rel;
    assert(q.take(root.len() as int + 1) =~= root + seq!['/']);
    assert(q.skip(root.len() as int + 1) =~= rel);
    assert(q.len() != root.len());
    if p != root && rest_below(p, root) is Some {
        assert(p =~= p.take(root.len() as int + 1) + p.skip(root.len() as int + 1));
    }
}

} // verus!
