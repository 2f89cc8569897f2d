//! The lock that keeps a second instance away: Telegram hands updates to one reader only.

use vstd::prelude::*;

use crate::text::chars::owned;
use crate::text::number::{decimal, u64_text};
use crate::text::path::{join_path, joined};
use crate::text::quote::{quoted, quoted_text};

verus! {

/// The file of a lock.
pub open spec fn lock_file(state_dir: Seq<char>, name: Seq<char>) -> Seq<char> {
    joined(joined(state_dir, "locks"@), name + ".lock"@)
}

/// The directory that holds the locks.
pub fn lock_dir(state_dir: &str) -> (r: String)
    ensures
        r@ == joined(state_dir@, "locks"@),
{
    join_path(state_dir, "locks")
}

/// The file of a lock.
pub fn lock_path(state_dir: &str, name: &str) -> (r: String)
    ensures
        r@ == lock_file(state_dir@, name@),
{
    let mut file: String = owned(name);
    file.append(".lock");
    join_path(&lock_dir(state_dir), &file)
}

/// What is said where another instance holds a lock.
pub open spec fn held_text(name: Seq<char>, path: Seq<char>) -> Seq<char> {
    "another pirs-claw instance already holds the "@ + quoted_text(name) + " lock ("@ + path
        + ")\nTelegram getUpdates allows only one long-poll per bot token.\nStop the other process, or remove the stale lock if nothing is running."@
}

/// What is said where another instance holds a lock.
pub fn lock_held_text(name: &str, path: &str) -> (r: String)
    ensures
        r@ == held_text(name@, path@),
{
    let mut out: String = owned("another pirs-claw instance already holds the ");
    out.append(&quoted(name));
    out.append(" lock (");
    out.append(path);
    out.append(
        ")\nTelegram getUpdates allows only one long-poll per bot token.\nStop the other process, or remove the stale lock if nothing is running.",
    );
    out
}

/// What the file of a held lock says.
pub fn lock_contents(pid: u32, name: &str) -> (r: String)
    ensures
        r@ == "pid="@ + decimal(pid as nat) + "\nname="@ + name@ + "\n\n"@,
{
    let mut out: String = owned("pid=");
    out.append(&u64_text(pid as u64));
    out.append("\nname=");
    out.append(name);
    out.append("\n\n");
    out
}

/// Whether a lock was taken: by its file, or not, with what is to be said.
#[derive(Debug)]
pub struct InstanceLock {
    path: String,
}

impl InstanceLock {
    pub closed spec fn file(&self) -> Seq<char> {
        self.path@
    }

    /// The file of this lock.
    pub fn path(&self) -> (r: &str)
        ensures
            r@ == self.file(),
    {
        self.path.as_str()
    }
}

/// What comes of trying to take a lock, going by whether its file could be locked.
pub fn try_acquire(state_dir: &str, name: &str, locked: bool) -> (r: Result<InstanceLock, String>)
    ensures
        match r {
            Ok(l) => locked && l.file() == lock_file(state_dir@, name@),
            Err(e) => !locked && e@ == held_text(name@, lock_file(state_dir@, name@)),
        },
{
    let path: String = lock_path(state_dir, name);
    if locked {
        Ok(InstanceLock { path })
    } else {
        Err(lock_held_text(name, &path))
    }
}

/// Where the file of a lock is, and that locks with different names have different files.
pub proof fn lemma_lock_file(state_dir: Seq<char>, name: Seq<char>, other: Seq<char>)
    requires
        state_dir.len() > 0,
        state_dir.last() != '/',
        name.len() == 0 || name[0] != '/',
        other.len() == 0 || other[0] != '/',
    ensures
        lock_file(state_dir, name) == state_dir + "/locks/"@ + name + ".lock"@,
        name != other ==> lock_file(state_dir, name) != lock_file(state_dir, other),
{
    reveal_strlit("locks");
    reveal_strlit("/locks/");
    reveal_strlit(".lock");
    let d = state_dir.push('/') + "locks"@;
    assert(d.last() == 's');
    assert((name + ".lock"@)[0] != '/') by {
        if name.len() > 0 {
            assert((name + ".lock"@)[0] == name[0]);
        } else {
            assert((name + ".lock"@)[0] == '.');
        }
    }
    assert((other + ".lock"@)[0] != '/') by {
        if other.len() > 0 {
            assert((other + ".lock"@)[0] == other[0]);
        } else {
            assert((other + ".lock"@)[0] == '.');
        }
    }
    let a = state_dir + "/locks/"@ + name + ".lock"@;
    let b = state_dir + "/locks/"@ + other + ".lock"@;
    assert(d.push('/') + (name + ".lock"@) =~= a);
    assert(d.push('/') + (other + ".lock"@) =~= b);
    if a == b {
        let n = state_dir.len() + 7;
        assert(name.len() == other.len());
        assert forall|i: int| 0 <= i < name.len() implies name[i] == other[i] by {
            assert(a[n + i] == name[i]);
            assert(b[n + i] == other[i]);
        }
        assert(name =~= other);
    }
}

/// What is said of a lock that is held: its name and its file first.
pub proof fn lemma_held_text(name: Seq<char>, path: Seq<char>)
    ensures
        held_text(name, path) == "another pirs-claw instance already holds the "@ + quoted_text(name)
            + " lock ("@ + path
            + ")\nTelegram getUpdates allows only one long-poll per bot token.\nStop the other process, or remove the stale lock if nothing is running."@,
{
}

} // verus!
