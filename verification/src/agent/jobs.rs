//! Background jobs: what runs, how it is doing, and what it is told.

use std::collections::HashMap;

use vstd::prelude::*;

use crate::text::chars::owned;
use crate::text::number::{decimal, decimal_int, i64_text, u64_text};

verus! {

broadcast use vstd::std_specs::hash::group_hash_axioms;

/// How a job is doing.
#[derive(Debug, Clone, Copy, PartialEq, Eq, Structural)]
pub enum JobStatus {
    Running,
    Exited(i32),
    Killed,
}

/// What a job runs.
#[derive(Debug, Clone, Copy, PartialEq, Eq, Structural)]
pub enum JobKind {
    Bash,
    Agent,
}

/// A background job.
#[derive(Debug)]
pub struct Job {
    pub id: u64,
    pub kind: JobKind,
    pub description: String,
    pub status: JobStatus,
    pub output_path: String,
    pub started_at: u64,
    pub pid: Option<u32>,
    /// What the job last reported of its progress, where it reports any.
    pub progress: Option<String>,
    /// What the job was told and has not fetched yet, where it can be told anything.
    pub inbox: Option<Vec<String>>,
}

/// A background job.
pub struct JobView {
    pub id: u64,
    pub kind: JobKind,
    pub description: Seq<char>,
    pub status: JobStatus,
    pub output_path: Seq<char>,
    pub started_at: u64,
    pub pid: Option<u32>,
    pub progress: Option<Seq<char>>,
    pub inbox: Option<Seq<Seq<char>>>,
}

impl View for Job {
    type V = JobView;

    open spec fn view(&self) -> JobView {
        JobView {
            id: self.id,
            kind: self.kind,
            description: self.description@,
            status: self.status,
            output_path: self.output_path@,
            started_at: self.started_at,
            pid: self.pid,
            progress: self.progress.deep_view(),
            inbox: self.inbox.deep_view(),
        }
    }
}

/// The name of a kind.
pub open spec fn kind_text(k: JobKind) -> Seq<char> {
    match k {
        JobKind::Bash => "bash"@,
        JobKind::Agent => "agent"@,
    }
}

/// How a status reads.
pub open spec fn status_text(s: JobStatus) -> Seq<char> {
    match s {
        JobStatus::Running => "running"@,
        JobStatus::Exited(code) => "exited("@ + decimal_int(code as int) + ")"@,
        JobStatus::Killed => "killed"@,
    }
}

/// A job in one line.
pub open spec fn job_line(j: JobView) -> Seq<char> {
    "#"@ + decimal(j.id as nat) + " ["@ + status_text(j.status) + "] "@ + kind_text(j.kind) + " — "@
        + j.description
}

fn kind_name(kind: JobKind) -> (r: &'static str)
    ensures
        r@ == kind_text(kind),
{
    match kind {
        JobKind::Bash => "bash",
        JobKind::Agent => "agent",
    }
}

impl Job {
    /// This job in one line.
    pub fn status_line(&self) -> (r: String)
        ensures
            r@ == job_line(self@),
    {
        let status: String = match self.status {
            JobStatus::Running => owned("running"),
            JobStatus::Exited(code) => {
                let mut s: String = owned("exited(");
                s.append(&i64_text(code as i64));
                s.append(")");
                s
            },
            JobStatus::Killed => owned("killed"),
        };
        let mut out: String = owned("#");
        out.append(&u64_text(self.id));
        out.append(" [");
        out.append(&status);
        out.append("] ");
        out.append(kind_name(self.kind));
        out.append(" — ");
        out.append(&self.description);
        out
    }
}

/// The jobs, numbered from 1 in the order in which they were registered, and what is to be
/// announced, where anyone listens.
#[derive(Debug)]
pub struct JobRegistry {
    jobs: HashMap<u64, Job>,
    next_id: u64,
    outbox: Option<Vec<String>>,
}

/// The jobs and what is to be announced.
pub struct JobsView {
    pub jobs: Seq<JobView>,
    pub outbox: Option<Seq<Seq<char>>>,
}

/// The jobs in the order of their numbers, which end before `next_id`.
spec fn jobs_view(jobs: Map<u64, Job>, next_id: u64) -> Seq<JobView> {
    Seq::new((next_id - 1) as nat, |i: int| jobs[(i + 1) as u64]@)
}

/// Whether there is a job under each number from 1 up to `next_id`, and no other.
spec fn are_numbered(jobs: Map<u64, Job>, next_id: u64) -> bool {
    &&& next_id >= 1
    &&& forall|id: u64| #[trigger] jobs.contains_key(id) <==> 1 <= id < next_id
    &&& forall|id: u64| #[trigger] jobs.contains_key(id) ==> jobs[id].id == id
}

impl View for JobRegistry {
    type V = JobsView;

    closed spec fn view(&self) -> JobsView {
        JobsView {
            jobs: jobs_view(self.jobs@, self.next_id),
            outbox: self.outbox.deep_view(),
        }
    }
}

/// Whether there is a job with this number.
pub open spec fn has_job(v: JobsView, id: u64) -> bool {
    1 <= id <= v.jobs.len()
}

/// The job with this number.
pub open spec fn job_at(v: JobsView, id: u64) -> JobView {
    v.jobs[id - 1]
}

/// The jobs with one of them changed; nothing changes where there is no such job.
pub open spec fn with_job(v: JobsView, id: u64, j: JobView) -> JobsView {
    if has_job(v, id) {
        JobsView { jobs: v.jobs.update(id - 1, j), outbox: v.outbox }
    } else {
        v
    }
}

/// No jobs, and nobody who listens.
pub fn registry() -> (r: JobRegistry)
    ensures
        r@ == (JobsView { jobs: seq![], outbox: None }),
{
    let r: JobRegistry = JobRegistry { jobs: HashMap::new(), next_id: 1, outbox: None };
    assert(r@.jobs =~= Seq::<JobView>::empty());
    r
}

impl JobRegistry {
    #[verifier::type_invariant]
    spec fn wf(self) -> bool {
        are_numbered(self.jobs@, self.next_id)
    }

    /// From now on announcements are kept for someone who listens. What was announced to the one
    /// who listened before and not fetched yet stays.
    pub fn set_notifier(&mut self)
        ensures
            final(self)@ == (JobsView {
                jobs: old(self)@.jobs,
                outbox: match old(self)@.outbox {
                    Some(o) => Some(o),
                    None => Some(seq![]),
                },
            }),
    {
        proof {
            use_type_invariant(&*self);
        }
        if self.outbox.is_none() {
            let none: Vec<String> = Vec::new();
            assert(none.deep_view() =~= Seq::<Seq<char>>::empty());
            self.outbox = Some(none);
        }
    }

    /// Announces something; it is lost where nobody listens.
    pub fn notify(&mut self, message: &str)
        ensures
            final(self)@ == (JobsView {
                jobs: old(self)@.jobs,
                outbox: match old(self)@.outbox {
                    Some(o) => Some(o.push(message@)),
                    None => None,
                },
            }),
    {
        proof {
            use_type_invariant(&*self);
        }
        let mut taken: Option<Vec<String>> = None;
        std::mem::swap(&mut taken, &mut self.outbox);
        if let Some(o) = taken {
            let mut o: Vec<String> = o;
            let ghost before = o.deep_view();
            let m: String = owned(message);
            o.push(m);
            assert(o.deep_view() =~= before.push(message@));
            self.outbox = Some(o);
        }
    }

    /// Hands out what was announced and not fetched yet.
    pub fn fetch_notices(&mut self) -> (r: Vec<String>)
        ensures
            final(self)@.jobs == old(self)@.jobs,
            match old(self)@.outbox {
                Some(o) => r.deep_view() == o && final(self)@.outbox == Some(
                    Seq::<Seq<char>>::empty(),
                ),
                None => r@.len() == 0 && final(self)@.outbox is None,
            },
    {
        proof {
            use_type_invariant(&*self);
        }
        let mut taken: Option<Vec<String>> = None;
        std::mem::swap(&mut taken, &mut self.outbox);
        match taken {
            Some(o) => {
                let none: Vec<String> = Vec::new();
                assert(none.deep_view() =~= Seq::<Seq<char>>::empty());
                self.outbox = Some(none);
                o
            },
            None => Vec::new(),
        }
    }

    /// Registers a running job and hands back its number, which no other job has.
    pub fn register(
        &mut self,
        kind: JobKind,
        description: &str,
        output_path: &str,
        pid: Option<u32>,
        now: u64,
    ) -> (id: u64)
        requires
            old(self)@.jobs.len() + 1 < u64::MAX,
        ensures
            id == old(self)@.jobs.len() + 1,
            final(self)@ == (JobsView {
                jobs: old(self)@.jobs.push(
                    JobView {
                        id,
                        kind,
                        description: description@,
                        status: JobStatus::Running,
                        output_path: output_path@,
                        started_at: now,
                        pid,
                        progress: None,
                        inbox: None,
                    },
                ),
                outbox: old(self)@.outbox,
            }),
    {
        proof {
            use_type_invariant(&*self);
        }
        let ghost before = self@.jobs;
        let id: u64 = self.next_id;
        let job: Job = Job {
            id,
            kind,
            description: owned(description),
            status: JobStatus::Running,
            output_path: owned(output_path),
            started_at: now,
            pid,
            progress: None,
            inbox: None,
        };
        let ghost view = job@;
        let mut taken: JobRegistry = registry();
        std::mem::swap(&mut taken, self);
        let JobRegistry { jobs, next_id, outbox } = taken;
        let mut jobs: HashMap<u64, Job> = jobs;
        jobs.insert(id, job);
        *self = JobRegistry { jobs, next_id: next_id + 1, outbox };
        assert(self@.jobs =~= before.push(view));
        id
    }

    /// The job with this number.
    pub fn get(&self, id: u64) -> (r: Option<&Job>)
        ensures
            match r {
                Some(j) => has_job(self@, id) && j@ == job_at(self@, id) && j.id == id,
                None => !has_job(self@, id),
            },
    {
        proof {
            use_type_invariant(self);
        }
        self.jobs.get(&id)
    }

    /// Puts a job in the place of the one with this number.
    fn put(&mut self, id: u64, job: Job)
        requires
            has_job(old(self)@, id),
            job.id == id,
        ensures
            final(self)@ == with_job(old(self)@, id, job@),
    {
        proof {
            use_type_invariant(&*self);
        }
        let ghost before = self@.jobs;
        let ghost view = job@;
        let mut taken: JobRegistry = registry();
        std::mem::swap(&mut taken, self);
        let JobRegistry { jobs, next_id, outbox } = taken;
        let mut jobs: HashMap<u64, Job> = jobs;
        jobs.insert(id, job);
        *self = JobRegistry { jobs, next_id, outbox };
        assert(self@.jobs =~= before.update(id - 1, view));
    }

    /// A copy of the job with this number.
    fn copy_of(&self, id: u64) -> (r: Option<Job>)
        ensures
            match r {
                Some(j) => has_job(self@, id) && j@ == job_at(self@, id) && j.id == id,
                None => !has_job(self@, id),
            },
    {
        match self.get(id) {
            Some(j) => Some(
                Job {
                    id,
                    kind: j.kind,
                    description: owned(&j.description),
                    status: j.status,
                    output_path: owned(&j.output_path),
                    started_at: j.started_at,
                    pid: j.pid,
                    progress: j.progress.clone(),
                    inbox: copy_inbox(&j.inbox),
                },
            ),
            None => None,
        }
    }

    /// Notes how a job is doing.
    pub fn set_status(&mut self, id: u64, status: JobStatus)
        ensures
            final(self)@ == with_job(
                old(self)@,
                id,
                JobView { status, ..job_at(old(self)@, id) },
            ),
    {
        if let Some(j) = self.copy_of(id) {
            let mut j: Job = j;
            j.status = status;
            self.put(id, j);
        }
    }

    /// Notes the process of a job, and the file that its output goes to.
    pub fn set_process(&mut self, id: u64, pid: u32, output_path: &str)
        ensures
            final(self)@ == with_job(
                old(self)@,
                id,
                JobView {
                    pid: Some(pid),
                    output_path: output_path@,
                    ..job_at(old(self)@, id)
                },
            ),
    {
        if let Some(j) = self.copy_of(id) {
            let mut j: Job = j;
            j.pid = Some(pid);
            j.output_path = owned(output_path);
            self.put(id, j);
        }
    }

    /// Notes what a job reports of its progress.
    pub fn set_progress_handle(&mut self, id: u64, progress: &str)
        ensures
            final(self)@ == with_job(
                old(self)@,
                id,
                JobView { progress: Some(progress@), ..job_at(old(self)@, id) },
            ),
    {
        if let Some(j) = self.copy_of(id) {
            let mut j: Job = j;
            j.progress = Some(owned(progress));
            self.put(id, j);
        }
    }

    /// Puts `messages` into the inbox of a job.
    fn set_inbox(&mut self, id: u64, messages: Vec<String>)
        ensures
            final(self)@ == with_job(
                old(self)@,
                id,
                JobView { inbox: Some(messages.deep_view()), ..job_at(old(self)@, id) },
            ),
    {
        if let Some(j) = self.copy_of(id) {
            let mut j: Job = j;
            j.inbox = Some(messages);
            self.put(id, j);
        }
    }

    /// From now on a job can be told something. What it was told before and has not fetched yet
    /// stays.
    pub fn set_steer(&mut self, id: u64)
        ensures
            final(self)@ == with_job(
                old(self)@,
                id,
                JobView {
                    inbox: match job_at(old(self)@, id).inbox {
                        Some(m) => Some(m),
                        None => Some(seq![]),
                    },
                    ..job_at(old(self)@, id)
                },
            ),
    {
        let inbox: Option<Vec<String>> = match self.get(id) {
            None => None,
            Some(j) => copy_inbox(&j.inbox),
        };
        let kept: Vec<String> = match inbox {
            Some(m) => m,
            None => {
                let none: Vec<String> = Vec::new();
                assert(none.deep_view() =~= Seq::<Seq<char>>::empty());
                none
            },
        };
        self.set_inbox(id, kept);
    }

    /// Tells a job something.
    pub fn steer(&mut self, id: u64, message: &str) -> (r: Result<(), String>)
        ensures
            match r {
                Ok(_) => has_job(old(self)@, id) && job_at(old(self)@, id).inbox is Some
                    && final(self)@ == with_job(
                    old(self)@,
                    id,
                    JobView {
                        inbox: Some(job_at(old(self)@, id).inbox->0.push(message@)),
                        ..job_at(old(self)@, id)
                    },
                ),
                Err(e) => final(self)@ == old(self)@ && if has_job(old(self)@, id) {
                    job_at(old(self)@, id).inbox is None && e@ == "job "@ + decimal(id as nat)
                        + " is not steerable"@
                } else {
                    e@ == "no such job: "@ + decimal(id as nat)
                },
            },
    {
        let inbox: Option<Vec<String>> = match self.get(id) {
            None => {
                let mut e: String = owned("no such job: ");
                e.append(&u64_text(id));
                return Err(e);
            },
            Some(j) => copy_inbox(&j.inbox),
        };
        match inbox {
            None => {
                let mut e: String = owned("job ");
                e.append(&u64_text(id));
                e.append(" is not steerable");
                Err(e)
            },
            Some(m) => {
                let mut m: Vec<String> = m;
                let ghost before = m.deep_view();
                m.push(owned(message));
                assert(m.deep_view() =~= before.push(message@));
                self.set_inbox(id, m);
                Ok(())
            },
        }
    }

    /// Hands a job what it was told and has not fetched yet.
    pub fn fetch_steering(&mut self, id: u64) -> (r: Vec<String>)
        ensures
            if has_job(old(self)@, id) && job_at(old(self)@, id).inbox is Some {
                r.deep_view() == job_at(old(self)@, id).inbox->0 && final(self)@ == with_job(
                    old(self)@,
                    id,
                    JobView { inbox: Some(seq![]), ..job_at(old(self)@, id) },
                )
            } else {
                r@.len() == 0 && final(self)@ == old(self)@
            },
    {
        let inbox: Option<Vec<String>> = match self.get(id) {
            None => None,
            Some(j) => copy_inbox(&j.inbox),
        };
        match inbox {
            None => Vec::new(),
            Some(m) => {
                let none: Vec<String> = Vec::new();
                assert(none.deep_view() =~= Seq::<Seq<char>>::empty());
                self.set_inbox(id, none);
                m
            },
        }
    }

    /// The jobs, each in one line.
    pub fn list(&self) -> (r: Vec<String>)
        ensures
            r.deep_view() == Seq::new(self@.jobs.len(), |i: int| job_line(self@.jobs[i])),
    {
        proof {
            use_type_invariant(self);
        }
        let ghost want = Seq::new(self@.jobs.len(), |i: int| job_line(self@.jobs[i]));
        let mut out: Vec<String> = Vec::new();
        let mut id: u64 = 1;
        assert(out.deep_view() =~= want.take(0));
        while id < self.next_id
            invariant
                1 <= id <= self.next_id,
                want == Seq::new(self@.jobs.len(), |i: int| job_line(self@.jobs[i])),
                want.len() == self.next_id - 1,
                out.deep_view() == want.take(id - 1),
            decreases self.next_id - id,
        {
            let ghost before = out.deep_view();
            if let Some(j) = self.get(id) {
                let t: String = j.status_line();
                out.push(t);
                proof {
                    assert(want[id - 1] == t@);
                    assert(out.deep_view() =~= before.push(t@));
                }
            }
            assert(want.take(id as int) =~= want.take(id - 1).push(want[id - 1]));
            id = id + 1;
        }
        assert(want.take(id - 1) =~= want);
        out
    }
}

/// A copy of an inbox.
fn copy_inbox(inbox: &Option<Vec<String>>) -> (r: Option<Vec<String>>)
    ensures
        r.deep_view() == inbox.deep_view(),
{
    match inbox {
        Some(m) => Some(m.clone()),
        None => None,
    }
}

/// How a job reads in one line: its number, how it is doing, its kind, and what it does.
pub proof fn lemma_job_line(j: JobView, code: i32)
    ensures
        j.status is Running && j.kind is Bash ==> job_line(j) == "#"@ + decimal(j.id as nat) + " ["@
            + "running"@ + "] "@ + "bash"@ + " — "@ + j.description,
        j.status is Running && j.kind is Agent ==> job_line(j) == "#"@ + decimal(j.id as nat) + " ["@
            + "running"@ + "] "@ + "agent"@ + " — "@ + j.description,
        j.status is Killed && j.kind is Bash ==> job_line(j) == "#"@ + decimal(j.id as nat) + " ["@
            + "killed"@ + "] "@ + "bash"@ + " — "@ + j.description,
        j.status is Killed && j.kind is Agent ==> job_line(j) == "#"@ + decimal(j.id as nat) + " ["@
            + "killed"@ + "] "@ + "agent"@ + " — "@ + j.description,
        j.status == JobStatus::Exited(code) && j.kind is Bash ==> job_line(j) == "#"@ + decimal(
            j.id as nat,
        ) + " ["@ + ("exited("@ + decimal_int(code as int) + ")"@) + "] "@ + "bash"@ + " — "@
            + j.description,
        j.status == JobStatus::Exited(code) && j.kind is Agent ==> job_line(j) == "#"@ + decimal(
            j.id as nat,
        ) + " ["@ + ("exited("@ + decimal_int(code as int) + ")"@) + "] "@ + "agent"@ + " — "@
            + j.description,
{
}

/// The jobs have the numbers from 1 on, in their order; changing one of them leaves the others and
/// what was announced alone, and a job that is not there cannot be changed.
pub proof fn lemma_one_job_changes(v: JobsView, id: u64, j: JobView, i: int)
    requires
        0 <= i < v.jobs.len(),
    ensures
        i + 1 <= u64::MAX ==> has_job(v, (i + 1) as u64) && job_at(v, (i + 1) as u64) == v.jobs[i],
        !has_job(v, 0),
        id > v.jobs.len() ==> !has_job(v, id),
        with_job(v, id, j).jobs.len() == v.jobs.len(),
        with_job(v, id, j).outbox == v.outbox,
        i + 1 == id ==> with_job(v, id, j).jobs[i] == j,
        i + 1 != id ==> with_job(v, id, j).jobs[i] == v.jobs[i],
{
}

} // verus!
