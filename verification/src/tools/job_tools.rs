//! The tools that list, read, kill and steer background jobs, and the life of a job that runs a
//! shell command.

use vstd::prelude::*;

use crate::agent::jobs::{
    has_job, job_at, job_line, with_job, JobKind, JobRegistry, JobStatus, JobView, JobsView,
};
use crate::text::chars::owned;
use crate::text::lines::{lines, lines_of};
use crate::text::number::{decimal, decimal_int, i64_text, u64_text};
use crate::text::path::{join_path, joined};
use crate::text::search::{
    ends_with, first_chars, head_chars, join, join_all, join_between, lemma_prefix,
};
use crate::tools::output::{just_text, ToolOutput};

verus! {

/// Lists background jobs.
#[derive(Debug)]
pub struct JobsTool;

/// Reads the output of a background job.
#[derive(Debug)]
pub struct JobOutputTool;

/// Kills a background job.
#[derive(Debug)]
pub struct JobKillTool;

/// Tells a background job something.
#[derive(Debug)]
pub struct JobSteerTool;

/// The jobs, each in one line.
pub open spec fn job_lines(v: JobsView) -> Seq<Seq<char>> {
    Seq::new(v.jobs.len(), |i: int| job_line(v.jobs[i]))
}

/// What is said where there is no such job.
pub open spec fn no_such_job(id: u64) -> Seq<char> {
    "no such job: "@ + decimal(id as nat)
}

fn no_job_text(id: u64) -> (r: String)
    ensures
        r@ == no_such_job(id),
{
    let mut e: String = owned("no such job: ");
    e.append(&u64_text(id));
    e
}

impl JobsTool {
    /// What the tool is called.
    pub fn name(&self) -> (r: &'static str)
        ensures
            r@ == "jobs"@,
    {
        "jobs"
    }

    /// What the tool does, as the model is told.
    pub fn description(&self) -> (r: &'static str)
        ensures
            r@
                == "List background jobs (bash jobs and background sub-agents) with their status."@,
    {
        "List background jobs (bash jobs and background sub-agents) with their status."
    }

    /// What the system prompt says of the tool.
    pub fn prompt_snippet(&self) -> (r: Option<&'static str>)
        ensures
            r matches Some(t) && t@ == "jobs: list background jobs"@,
    {
        Some("jobs: list background jobs")
    }

    /// The jobs, each in one line.
    pub fn execute(&self, registry: &JobRegistry) -> (r: ToolOutput)
        ensures
            r@ == just_text(
                if registry@.jobs.len() == 0 {
                    "no background jobs"@
                } else {
                    join(job_lines(registry@), "\n"@)
                },
            ),
    {
        let ls: Vec<String> = registry.list();
        assert(ls.deep_view() =~= job_lines(registry@));
        if ls.len() == 0 {
            assert(ls.deep_view().len() == 0);
            return ToolOutput::text(owned("no background jobs"));
        }
        assert(ls.deep_view().len() > 0);
        ToolOutput::text(join_all(&ls, "\n"))
    }
}

/// Where the output of a job is: here, or in a file.
#[derive(Debug)]
pub enum JobOutput {
    Ready(ToolOutput),
    InFile { status_line: String, path: String },
}

/// The last `n` lines of a text.
pub open spec fn last_lines(s: Seq<char>, n: nat) -> Seq<Seq<char>> {
    let ls = lines(s);
    if ls.len() > n {
        ls.skip(ls.len() - n)
    } else {
        ls
    }
}

/// The last `n` lines of a text, one below the other.
pub fn tail_of(s: &str, n: usize) -> (r: String)
    ensures
        r@ == join(last_lines(s@, n as nat), "\n"@),
{
    let ls: Vec<String> = lines_of(s);
    let count: usize = ls.len();
    let from: usize = if count > n {
        count - n
    } else {
        0
    };
    proof {
        assert(ls.deep_view().len() == count);
        assert(ls.deep_view().subrange(from as int, count as int) =~= last_lines(s@, n as nat));
    }
    join_between(&ls, from, count, "\n")
}

/// What is shown of a job and its output.
pub open spec fn job_report(line: Seq<char>, said: Seq<char>) -> Seq<char> {
    line + "\n\n"@ + said
}

impl JobOutputTool {
    /// What the tool is called.
    pub fn name(&self) -> (r: &'static str)
        ensures
            r@ == "job_output"@,
    {
        "job_output"
    }

    /// What the tool does, as the model is told.
    pub fn description(&self) -> (r: &'static str)
        ensures
            r@
                == "Read the current output of a background job (bash output, or a background agent's progress)."@,
    {
        "Read the current output of a background job (bash output, or a background agent's progress)."
    }

    /// What the system prompt says of the tool.
    pub fn prompt_snippet(&self) -> (r: Option<&'static str>)
        ensures
            r matches Some(t) && t@ == "job_output: read a background job's output"@,
    {
        Some("job_output: read a background job's output")
    }

    /// What a job reports of its progress, or the file that its output goes to.
    pub fn execute(&self, registry: &JobRegistry, id: u64) -> (r: Result<JobOutput, String>)
        ensures
            if !has_job(registry@, id) {
                r matches Err(e) && e@ == no_such_job(id)
            } else {
                match job_at(registry@, id).progress {
                    Some(p) => r matches Ok(JobOutput::Ready(o)) && o@ == just_text(
                        job_report(job_line(job_at(registry@, id)), p),
                    ),
                    None => r matches Ok(JobOutput::InFile { status_line, path }) && status_line@
                        == job_line(job_at(registry@, id)) && path@ == job_at(
                        registry@,
                        id,
                    ).output_path,
                }
            },
    {
        match registry.get(id) {
            None => Err(no_job_text(id)),
            Some(j) => {
                let line: String = j.status_line();
                match &j.progress {
                    Some(p) => {
                        let mut t: String = line;
                        t.append("\n\n");
                        t.append(p);
                        Ok(JobOutput::Ready(ToolOutput::text(t)))
                    },
                    None => Ok(
                        JobOutput::InFile { status_line: line, path: owned(&j.output_path) },
                    ),
                }
            },
        }
    }

    /// What is shown of a job whose output goes to a file, going by what was read from there.
    pub fn finish(&self, status_line: &str, content: Option<&str>, limit: Option<usize>) -> (r:
        ToolOutput)
        ensures
            r@ == just_text(
                job_report(
                    status_line@,
                    join(
                        last_lines(
                            match content {
                                Some(t) => t@,
                                None => "(no output yet)"@,
                            },
                            match limit {
                                Some(n) => n as nat,
                                None => 50,
                            },
                        ),
                        "\n"@,
                    ),
                ),
            ),
    {
        let said: &str = match content {
            Some(t) => t,
            None => "(no output yet)",
        };
        let n: usize = match limit {
            Some(n) => n,
            None => 50,
        };
        let mut t: String = owned(status_line);
        t.append("\n\n");
        t.append(&tail_of(said, n));
        ToolOutput::text(t)
    }
}

/// The jobs after one of them was killed: a job that runs an agent is told to stop, where it can
/// be told anything, and either way it counts as killed.
pub open spec fn killed(v: JobsView, id: u64) -> JobsView {
    let j = job_at(v, id);
    with_job(
        v,
        id,
        JobView {
            status: JobStatus::Killed,
            inbox: match (j.kind, j.inbox) {
                (JobKind::Agent, Some(m)) => Some(m.push("/cancel"@)),
                _ => j.inbox,
            },
            ..j
        },
    )
}

impl JobKillTool {
    /// What the tool is called.
    pub fn name(&self) -> (r: &'static str)
        ensures
            r@ == "job_kill"@,
    {
        "job_kill"
    }

    /// What the tool does, as the model is told.
    pub fn description(&self) -> (r: &'static str)
        ensures
            r@
                == "Kill a background job by id."@,
    {
        "Kill a background job by id."
    }

    /// Marks a job as killed. Hands back the process whose group is to be killed, where the job
    /// runs a shell command, and what is said.
    pub fn execute(&self, registry: &mut JobRegistry, id: u64) -> (r: Result<
        (Option<u32>, ToolOutput),
        String,
    >)
        ensures
            if !has_job(old(registry)@, id) {
                r matches Err(e) && e@ == no_such_job(id) && final(registry)@ == old(registry)@
            } else {
                r matches Ok((pid, o)) && final(registry)@ == killed(old(registry)@, id) && pid == (
                if job_at(old(registry)@, id).kind == JobKind::Bash {
                    job_at(old(registry)@, id).pid
                } else {
                    None
                }) && o@ == just_text("job "@ + decimal(id as nat) + " killed"@)
            },
    {
        let (kind, pid): (JobKind, Option<u32>) = match registry.get(id) {
            None => {
                return Err(no_job_text(id));
            },
            Some(j) => (j.kind, j.pid),
        };
        let ghost before = registry@;
        let target: Option<u32> = match kind {
            JobKind::Bash => pid,
            JobKind::Agent => {
                let told: Result<(), String> = registry.steer(id, "/cancel");
                None
            },
        };
        registry.set_status(id, JobStatus::Killed);
        proof {
            let v = registry@;
            let w = killed(before, id);
            assert(v.jobs =~= w.jobs);
        }
        let mut t: String = owned("job ");
        t.append(&u64_text(id));
        t.append(" killed");
        Ok((target, ToolOutput::text(t)))
    }
}

impl JobSteerTool {
    /// What the tool is called.
    pub fn name(&self) -> (r: &'static str)
        ensures
            r@ == "job_steer"@,
    {
        "job_steer"
    }

    /// What the tool does, as the model is told.
    pub fn description(&self) -> (r: &'static str)
        ensures
            r@
                == "Send a steering message to a running background sub-agent (only agent jobs are steerable)."@,
    {
        "Send a steering message to a running background sub-agent (only agent jobs are steerable)."
    }

    /// What the system prompt says of the tool.
    pub fn prompt_snippet(&self) -> (r: Option<&'static str>)
        ensures
            r matches Some(t) && t@ == "job_steer: send a message to a running background agent"@,
    {
        Some("job_steer: send a message to a running background agent")
    }

    /// Tells a job something.
    pub fn execute(&self, registry: &mut JobRegistry, id: u64, message: &str) -> (r: Result<
        ToolOutput,
        String,
    >)
        ensures
            match r {
                Ok(o) => has_job(old(registry)@, id) && job_at(old(registry)@, id).inbox is Some
                    && o@ == just_text("steered job "@ + decimal(id as nat)) && final(registry)@
                    == with_job(
                    old(registry)@,
                    id,
                    JobView {
                        inbox: Some(job_at(old(registry)@, id).inbox->0.push(message@)),
                        ..job_at(old(registry)@, id)
                    },
                ),
                Err(e) => final(registry)@ == old(registry)@ && if has_job(old(registry)@, id) {
                    job_at(old(registry)@, id).inbox is None && e@ == "job "@ + decimal(id as nat)
                        + " is not steerable"@
                } else {
                    e@ == no_such_job(id)
                },
            },
    {
        match registry.steer(id, message) {
            Ok(_) => {
                let mut t: String = owned("steered job ");
                t.append(&u64_text(id));
                Ok(ToolOutput::text(t))
            },
            Err(e) => Err(e),
        }
    }
}

/// Where the output of a job that runs a shell command goes.
pub fn bash_job_output_path(temp_dir: &str, id: u64) -> (r: String)
    ensures
        r@ == joined(temp_dir@, "pirs-job-"@ + decimal(id as nat) + ".log"@),
{
    let mut name: String = owned("pirs-job-");
    name.append(&u64_text(id));
    name.append(".log");
    join_path(temp_dir, &name)
}

/// Registers a job that is about to run a shell command: it is described by the first
/// characters of the command, and has neither a process nor a file yet.
pub fn spawn_bash_job(registry: &mut JobRegistry, command: &str, now: u64) -> (id: u64)
    requires
        old(registry)@.jobs.len() + 1 < u64::MAX,
    ensures
        id == old(registry)@.jobs.len() + 1,
        final(registry)@ == (JobsView {
            jobs: old(registry)@.jobs.push(
                JobView {
                    id,
                    kind: JobKind::Bash,
                    description: first_chars(command@, 80),
                    status: JobStatus::Running,
                    output_path: seq![],
                    started_at: now,
                    pid: None,
                    progress: None,
                    inbox: None,
                },
            ),
            outbox: old(registry)@.outbox,
        }),
{
    let description: String = head_chars(command, 80);
    proof {
        reveal_strlit("");
        assert(""@ =~= Seq::<char>::empty());
    }
    registry.register(JobKind::Bash, &description, "", None, now)
}

/// Notes the process of a job, and the file that its output goes to.
pub fn bash_job_started(registry: &mut JobRegistry, id: u64, pid: u32, output_path: &str)
    ensures
        final(registry)@ == with_job(
            old(registry)@,
            id,
            JobView {
                pid: Some(pid),
                output_path: output_path@,
                ..job_at(old(registry)@, id)
            },
        ),
{
    registry.set_process(id, pid, output_path);
}

/// What is announced where the command of a job has ended.
pub open spec fn exit_notice(id: u64, code: i32, command: Seq<char>) -> Seq<char> {
    "background job #"@ + decimal(id as nat) + " exited (code "@ + decimal_int(code as int) + "): "@
        + command
}

/// Notes that the command of a job has ended, and announces it. A command without an exit code
/// counts as -1.
pub fn bash_job_exited(registry: &mut JobRegistry, id: u64, code: Option<i32>, command: &str)
    ensures
        ({
            let c = match code {
                Some(n) => n,
                None => -1i32,
            };
            let v = with_job(
                old(registry)@,
                id,
                JobView { status: JobStatus::Exited(c), ..job_at(old(registry)@, id) },
            );
            final(registry)@ == (JobsView {
                jobs: v.jobs,
                outbox: match v.outbox {
                    Some(o) => Some(o.push(exit_notice(id, c, command@))),
                    None => None,
                },
            })
        }),
{
    let c: i32 = match code {
        Some(n) => n,
        None => -1,
    };
    registry.set_status(id, JobStatus::Exited(c));
    let mut t: String = owned("background job #");
    t.append(&u64_text(id));
    t.append(" exited (code ");
    t.append(&i64_text(c as i64));
    t.append("): ");
    t.append(command);
    registry.notify(&t);
}

/// What the tools are called, in the order in which they are offered.
pub fn tools() -> (r: Vec<String>)
    ensures
        r.deep_view() == seq!["jobs"@, "job_output"@, "job_kill"@, "job_steer"@],
{
    let mut out: Vec<String> = Vec::new();
    out.push(owned("jobs"));
    out.push(owned("job_output"));
    out.push(owned("job_kill"));
    out.push(owned("job_steer"));
    assert(out.deep_view() =~= seq!["jobs"@, "job_output"@, "job_kill"@, "job_steer"@]);
    out
}

/// The last lines of a text: all of them where there are no more than wanted, otherwise as many as
/// wanted, the last ones, in their order.
pub proof fn lemma_last_lines(s: Seq<char>, n: nat, i: int)
    ensures
        last_lines(s, n).len() == if lines(s).len() < n {
            lines(s).len()
        } else {
            n
        },
        0 <= i < last_lines(s, n).len() ==> last_lines(s, n)[last_lines(s, n).len() - 1 - i] == lines(
            s,
        )[lines(s).len() - 1 - i],
{
}

/// Killing a job: it counts as killed, one that runs an agent and can be told anything is told to
/// stop behind whatever it was told before, and nothing else of it or of the others changes.
pub proof fn lemma_killed(v: JobsView, id: u64, i: int)
    requires
        has_job(v, id),
        0 <= i < v.jobs.len(),
    ensures
        ({
            let before = job_at(v, id);
            let after = job_at(killed(v, id), id);
            &&& after.status is Killed
            &&& before.kind is Agent && before.inbox is Some ==> after.inbox == Some(
                before.inbox->0.push("/cancel"@),
            )
            &&& before.kind is Bash || before.inbox is None ==> after.inbox == before.inbox
            &&& after.id == before.id && after.kind == before.kind && after.description
                == before.description && after.output_path == before.output_path && after.pid
                == before.pid && after.progress == before.progress && after.started_at
                == before.started_at
            &&& i + 1 != id ==> killed(v, id).jobs[i] == v.jobs[i]
            &&& killed(v, id).outbox == v.outbox && killed(v, id).jobs.len() == v.jobs.len()
        }),
{
}

/// What is announced of a command that has ended: the number of its job, its exit code, and the
/// whole command.
pub proof fn lemma_exit_notice(id: u64, code: i32, command: Seq<char>)
    ensures
        exit_notice(id, code, command) == "background job #"@ + decimal(id as nat) + " exited (code "@
            + decimal_int(code as int) + "): "@ + command,
        ends_with(exit_notice(id, code, command), command),
{
    let head = "background job #"@ + decimal(id as nat) + " exited (code "@ + decimal_int(
        code as int,
    ) + "): "@;
    lemma_prefix(command, head, command);
}

/// What is shown of a job, and what is said where there is none.
pub proof fn lemma_job_texts(v: JobsView, i: int, line: Seq<char>, said: Seq<char>, id: u64)
    ensures
        job_report(line, said) == line + "\n\n"@ + said,
        no_such_job(id) == "no such job: "@ + decimal(id as nat),
        job_lines(v).len() == v.jobs.len(),
        0 <= i < v.jobs.len() ==> job_lines(v)[i] == job_line(v.jobs[i]),
{
}

} // verus!
