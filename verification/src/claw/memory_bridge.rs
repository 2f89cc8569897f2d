//! What the assistant remembers, as far as it is shown to the model.

use vstd::prelude::*;

use crate::text::chars::owned;
use crate::text::path::{join_path, joined};

verus! {

/// A remembered row that matched a query.
#[derive(Debug)]
pub struct MemoryHit {
    pub kind: String,
    pub name: String,
    pub snippet: String,
}

/// One remembered row as it is shown.
pub open spec fn hit_line(h: MemoryHit) -> Seq<char> {
    "- ["@ + h.kind@ + "] "@ + h.name@ + ": "@ + h.snippet@ + "\n"@
}

/// The remembered rows as they are shown.
pub open spec fn hit_lines(s: Seq<MemoryHit>) -> Seq<char>
    decreases s.len(),
{
    if s.len() == 0 {
        seq![]
    } else {
        hit_lines(s.drop_last()) + hit_line(s.last())
    }
}

/// What the model is shown of the rows that matched: nothing where there are none.
pub fn recall_context(hits: &Vec<MemoryHit>) -> (r: String)
    ensures
        r@ == (if hits@.len() == 0 {
            seq![]
        } else {
            "\n\n## Memory recall\n"@ + hit_lines(hits@)
        }),
{
    if hits.len() == 0 {
        return String::new();
    }
    let mut out: String = owned("\n\n## Memory recall\n");
    let ghost head = out@;
    let mut i: usize = 0;
    assert(head + hit_lines(hits@.take(0)) =~= head);
    while i < hits.len()
        invariant
            i <= hits@.len(),
            out@ == head + hit_lines(hits@.take(i as int)),
        decreases hits@.len() - i,
    {
        let h: &MemoryHit = &hits[i];
        let ghost before = out@;
        out.append("- [");
        out.append(&h.kind);
        out.append("] ");
        out.append(&h.name);
        out.append(": ");
        out.append(&h.snippet);
        out.append("\n");
        proof {
            assert(hits@.take(i + 1).drop_last() =~= hits@.take(i as int));
            assert(out@ =~= before + hit_line(*h));
            assert(head + hit_lines(hits@.take(i + 1)) =~= before + hit_line(*h));
        }
        i = i + 1;
    }
    assert(hits@.take(i as int) =~= hits@);
    out
}

/// Where the memory is kept.
pub fn memory_db_path(state_dir: &str) -> (r: String)
    ensures
        r@ == joined(state_dir@, "memory.db"@),
{
    join_path(state_dir, "memory.db")
}

/// A row to remember.
#[derive(Debug)]
pub struct MemoryRow {
    pub session: String,
    pub role: String,
    pub kind: String,
    pub text: String,
}

/// The session that rows are remembered for.
#[derive(Debug)]
pub struct MemoryScope {
    pub session: String,
}

/// Rows are remembered for the session with this key.
pub fn scope_session(session_key: &str) -> (r: MemoryScope)
    ensures
        r.session@ == session_key@,
{
    MemoryScope { session: owned(session_key) }
}

/// The row in which a turn of a chat is remembered.
pub fn remember_turn(scope: &MemoryScope, role: &str, text: &str) -> (r: MemoryRow)
    ensures
        r.session@ == scope.session@,
        r.role@ == role@,
        r.kind@ == "chat"@,
        r.text@ == text@,
{
    MemoryRow {
        session: owned(scope.session.as_str()),
        role: owned(role),
        kind: owned("chat"),
        text: owned(text),
    }
}

/// A memory that was opened, or what is said where it could not be.
pub fn open_memory<S>(opened: Result<S, String>) -> (r: Result<S, String>)
    ensures
        match opened {
            Ok(store) => r == Ok::<S, String>(store),
            Err(e) => r matches Err(t) && t@ == "memory open: "@ + e@,
        },
{
    match opened {
        Ok(store) => Ok(store),
        Err(e) => {
            let mut t: String = owned("memory open: ");
            t.append(e.as_str());
            Err(t)
        },
    }
}

/// What is shown of what is remembered: one row below the other, each with its kind, its name and
/// what it says.
pub proof fn lemma_hit_lines(s: Seq<MemoryHit>, h: MemoryHit)
    ensures
        hit_lines(Seq::empty()) == Seq::<char>::empty(),
        hit_lines(s.push(h)) == hit_lines(s) + ("- ["@ + h.kind@ + "] "@ + h.name@ + ": "@ + h.snippet@
            + "\n"@),
{
    assert(s.push(h).drop_last() =~= s);
    assert(hit_lines(Seq::<MemoryHit>::empty()) =~= Seq::<char>::empty());
}

} // verus!
