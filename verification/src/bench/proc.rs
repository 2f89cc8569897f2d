//! What is kept of a command that was run.

use vstd::prelude::*;

use crate::text::chars::owned;

verus! {

/// The result of a shell command.
#[derive(Debug)]
pub struct Captured {
    pub success: bool,
    pub code: Option<i32>,
    pub stdout: String,
    pub stderr: String,
    pub timed_out: bool,
}

/// How a process ended: whether it succeeded, and its exit code where it has one.
#[derive(Debug, Clone, Copy, PartialEq, Eq, Structural)]
pub struct ExitInfo {
    pub success: bool,
    pub code: Option<i32>,
}

/// The result of a command that printed and ended like this. One that ran out of time has not
/// succeeded, however it ended.
pub fn run_capture(
    status: Option<ExitInfo>,
    timed_out: bool,
    stdout: String,
    stderr: String,
) -> (r: Captured)
    ensures
        r.success == (status is Some && status->0.success && !timed_out),
        r.code == (match status {
            Some(s) => s.code,
            None => None,
        }),
        r.stdout == stdout,
        r.stderr == stderr,
        r.timed_out == timed_out,
{
    let success: bool = match status {
        Some(s) => s.success && !timed_out,
        None => false,
    };
    let code: Option<i32> = match status {
        Some(s) => s.code,
        None => None,
    };
    Captured { success, code, stdout, stderr, timed_out }
}

/// What is said where a command cannot be started.
pub fn spawn_error_text(cmd: &str) -> (r: String)
    ensures
        r@ == "spawn command: "@ + cmd@,
{
    let mut out: String = owned("spawn command: ");
    out.append(cmd);
    out
}

} // verus!
