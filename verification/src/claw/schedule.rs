//! Scheduled prompts: each fires at a time, once or again and again.

use vstd::prelude::*;

use crate::json::Json;
use crate::record::{
    doc_of_text, doc_pretty, field_docs, field_in, item_docs, items_in, items_of, lemma_item_docs,
    lemma_member, member_in, member_number, member_text, member_truth, number_in, only_at, parse_doc,
    plain_doc, push_doc, shown_doc, sole, sole_text, sole_text_of, text_in, truth_in, values_at, DocView, DEEPEST,
};
use crate::text::chars::{owned, same};
use crate::text::number::{decimal, u64_text, usize_text};

verus! {

/// A scheduled prompt.
#[derive(Debug)]
pub struct ScheduleEntry {
    pub id: String,
    pub prompt: String,
    /// When it fires, in seconds since the epoch.
    pub next_fire: u64,
    /// How many seconds after firing it fires again; 0 where it fires once.
    pub every_secs: u64,
    pub enabled: bool,
}

/// A scheduled prompt.
pub struct EntryView {
    pub id: Seq<char>,
    pub prompt: Seq<char>,
    pub next_fire: u64,
    pub every_secs: u64,
    pub enabled: bool,
}

impl View for ScheduleEntry {
    type V = EntryView;

    open spec fn view(&self) -> EntryView {
        EntryView {
            id: self.id@,
            prompt: self.prompt@,
            next_fire: self.next_fire,
            every_secs: self.every_secs,
            enabled: self.enabled,
        }
    }
}

impl Clone for ScheduleEntry {
    fn clone(&self) -> (r: ScheduleEntry)
        ensures
            r@ == self@,
    {
        ScheduleEntry {
            id: owned(&self.id),
            prompt: owned(&self.prompt),
            next_fire: self.next_fire,
            every_secs: self.every_secs,
            enabled: self.enabled,
        }
    }
}

/// What the entries are.
pub open spec fn entries_view(s: Seq<ScheduleEntry>) -> Seq<EntryView> {
    Seq::new(s.len(), |i: int| s[i]@)
}

/// An entry as JSON, its fields in the order in which they are written.
pub open spec fn entry_doc(e: EntryView) -> DocView {
    DocView::Object(
        seq![
            ("id"@, DocView::Text(e.id)),
            ("prompt"@, DocView::Text(e.prompt)),
            ("next_fire"@, DocView::Int(e.next_fire as int)),
            ("every_secs"@, DocView::Int(e.every_secs as int)),
            ("enabled"@, DocView::Bool(e.enabled)),
        ],
    )
}

/// The entry with these members.
pub open spec fn entry_with(
    id: Option<DocView>,
    prompt: Option<DocView>,
    next_fire: Option<DocView>,
    every_secs: Option<DocView>,
    enabled: Option<DocView>,
) -> Option<EntryView> {
    match (
        member_text(id),
        member_text(prompt),
        member_number(next_fire),
        member_number(every_secs),
        member_truth(enabled),
    ) {
        (Some(id), Some(prompt), Some(next_fire), Some(every_secs), Some(enabled)) => Some(
            EntryView { id, prompt, next_fire, every_secs, enabled },
        ),
        _ => None,
    }
}

/// The entry that a JSON value is.
pub open spec fn entry_of(d: DocView) -> Option<EntryView> {
    entry_with(
        sole(d, "id"@, 0, 5),
        sole(d, "prompt"@, 1, 5),
        sole(d, "next_fire"@, 2, 5),
        sole(d, "every_secs"@, 3, 5),
        sole(d, "enabled"@, 4, 5),
    )
}

/// The entry that a text holds.
pub open spec fn entry_in(t: Seq<char>) -> Option<EntryView> {
    entry_with(
        member_in(t, "id"@, 0, 5),
        member_in(t, "prompt"@, 1, 5),
        member_in(t, "next_fire"@, 2, 5),
        member_in(t, "every_secs"@, 3, 5),
        member_in(t, "enabled"@, 4, 5),
    )
}

/// The entries that there are, where all of them are entries.
pub open spec fn all_entries(s: Seq<Option<EntryView>>) -> Option<Seq<EntryView>> {
    if forall|i: int| 0 <= i < s.len() ==> (#[trigger] s[i]) is Some {
        Some(s.map_values(|e: Option<EntryView>| e->0))
    } else {
        None
    }
}

/// A schedule as JSON.
pub open spec fn jobs_doc(jobs: Seq<EntryView>) -> DocView {
    DocView::Object(
        seq![("jobs"@, DocView::Array(jobs.map_values(|e: EntryView| entry_doc(e))))],
    )
}

/// The schedule that a JSON value is.
pub open spec fn jobs_of(d: DocView) -> Option<Seq<EntryView>> {
    match sole(d, "jobs"@, 0, 1) {
        Some(DocView::Array(s)) => all_entries(s.map_values(|e: DocView| entry_of(e))),
        _ => None,
    }
}

/// The text of the entries in a text that cannot be read as a whole.
pub open spec fn jobs_text(t: Seq<char>) -> Option<Seq<char>> {
    match sole_text(t, "jobs"@) {
        Some(jobs) => Some(jobs),
        None => match items_in(t) {
            Some(s) => if s.len() == 1 {
                Some(s[0])
            } else {
                None
            },
            None => None,
        },
    }
}

/// The schedule in a text that cannot be read as a whole: its entries are read one by one.
pub open spec fn jobs_apart(t: Seq<char>) -> Option<Seq<EntryView>> {
    match jobs_text(t) {
        Some(jobs) => match items_in(jobs) {
            Some(s) => all_entries(s.map_values(|e: Seq<char>| entry_in(e))),
            None => None,
        },
        None => None,
    }
}

/// The schedule that a file holds; one that is not readable holds nothing.
pub open spec fn jobs_in(file: Seq<char>) -> Seq<EntryView> {
    let jobs = match doc_of_text(file) {
        Some(d) => jobs_of(d),
        None => jobs_apart(file),
    };
    match jobs {
        Some(jobs) => jobs,
        None => seq![],
    }
}

proof fn lemma_entry_doc(e: EntryView)
    ensures
        plain_doc(entry_doc(e), 125),
        entry_of(entry_doc(e)) == Some(e),
{
    reveal_strlit("id");
    reveal_strlit("prompt");
    reveal_strlit("next_fire");
    reveal_strlit("every_secs");
    reveal_strlit("enabled");
    assert("id"@.len() == 2 && "prompt"@.len() == 6 && "next_fire"@.len() == 9
        && "every_secs"@.len() == 10 && "enabled"@.len() == 7);
    let fields = entry_doc(e)->Object_0;
    assert(fields.drop_last().drop_last().drop_last().drop_last().drop_last() =~= Seq::empty());
    reveal_with_fuel(values_at, 6);
    reveal_with_fuel(plain_doc, 2);
}

/// What is written for a schedule comes back as that schedule.
proof fn lemma_jobs_doc(jobs: Seq<EntryView>)
    ensures
        plain_doc(jobs_doc(jobs), DEEPEST as nat),
        jobs_of(jobs_doc(jobs)) == Some(jobs),
{
    let s = jobs.map_values(|e: EntryView| entry_doc(e));
    let fields = jobs_doc(jobs)->Object_0;
    assert(fields.drop_last() =~= Seq::empty());
    reveal_with_fuel(values_at, 2);
    assert(sole(jobs_doc(jobs), "jobs"@, 0, 1) == Some(DocView::Array(s)));
    assert forall|i: int| 0 <= i < s.len() implies plain_doc(#[trigger] s[i], 125) by {
        lemma_entry_doc(jobs[i]);
    }
    assert(plain_doc(DocView::Array(s), 126));
    assert(plain_doc(fields[0].1, 126));
    let read = s.map_values(|e: DocView| entry_of(e));
    assert forall|i: int| 0 <= i < read.len() implies #[trigger] read[i] == Some(jobs[i]) by {
        lemma_entry_doc(jobs[i]);
    }
    assert(read.map_values(|e: Option<EntryView>| e->0) =~= jobs);
}

/// The entry with these members.
fn entry_from(
    id: Option<&Json>,
    prompt: Option<&Json>,
    next_fire: Option<&Json>,
    every_secs: Option<&Json>,
    enabled: Option<&Json>,
) -> (r: Option<ScheduleEntry>)
    ensures
        opt_entry(r) == entry_with(
            shown_doc(id),
            shown_doc(prompt),
            shown_doc(next_fire),
            shown_doc(every_secs),
            shown_doc(enabled),
        ),
{
    match (
        text_in(id),
        text_in(prompt),
        number_in(next_fire),
        number_in(every_secs),
        truth_in(enabled),
    ) {
        (Some(id), Some(prompt), Some(next_fire), Some(every_secs), Some(enabled)) => Some(
            ScheduleEntry {
                id: owned(id),
                prompt: owned(prompt),
                next_fire,
                every_secs,
                enabled,
            },
        ),
        _ => None,
    }
}

/// What an entry that may be missing is.
pub open spec fn opt_entry(e: Option<ScheduleEntry>) -> Option<EntryView> {
    match e {
        Some(e) => Some(e@),
        None => None,
    }
}

fn read_entry(d: &Json) -> (r: Option<ScheduleEntry>)
    ensures
        opt_entry(r) == entry_of(d.doc()),
{
    entry_from(
        d.sole_at("id", 0, 5),
        d.sole_at("prompt", 1, 5),
        d.sole_at("next_fire", 2, 5),
        d.sole_at("every_secs", 3, 5),
        d.sole_at("enabled", 4, 5),
    )
}

fn read_entry_text(t: &str) -> (r: Option<ScheduleEntry>)
    ensures
        opt_entry(r) == entry_in(t@),
{
    match parse_doc(t) {
        Some(d) => read_entry(&d),
        None => {
            let id: Option<Json> = field_in(t, "id");
            let prompt: Option<Json> = field_in(t, "prompt");
            let next_fire: Option<Json> = field_in(t, "next_fire");
            let every_secs: Option<Json> = field_in(t, "every_secs");
            let enabled: Option<Json> = field_in(t, "enabled");
            entry_from(
                id.as_ref(),
                prompt.as_ref(),
                next_fire.as_ref(),
                every_secs.as_ref(),
                enabled.as_ref(),
            )
        },
    }
}

fn write_entry(e: &ScheduleEntry) -> (r: Json)
    ensures
        r.doc() == entry_doc(e@),
{
    let mut fields: Vec<(String, Json)> = Vec::new();
    push_doc(&mut fields, "id", Json::Text(owned(&e.id)));
    push_doc(&mut fields, "prompt", Json::Text(owned(&e.prompt)));
    push_doc(&mut fields, "next_fire", Json::UInt(e.next_fire));
    push_doc(&mut fields, "every_secs", Json::UInt(e.every_secs));
    push_doc(&mut fields, "enabled", Json::Bool(e.enabled));
    assert(field_docs(fields@) =~= entry_doc(e@)->Object_0);
    Json::Object(fields)
}

/// The schedule that a JSON value is.
fn read_jobs(d: &Json) -> (r: Option<Vec<ScheduleEntry>>)
    ensures
        match r {
            Some(jobs) => jobs_of(d.doc()) == Some(entries_view(jobs@)),
            None => jobs_of(d.doc()) is None,
        },
{
    let items: &Vec<Json> = match d.sole_at("jobs", 0, 1) {
        Some(Json::Array(items)) => items,
        _ => return None,
    };
    proof {
        lemma_item_docs(items@);
    }
    let ghost all = item_docs(items@).map_values(|e: DocView| entry_of(e));
    let mut out: Vec<ScheduleEntry> = Vec::new();
    let n: usize = items.len();
    let mut i: usize = 0;
    while i < n
        invariant
            i <= n,
            n == items@.len(),
            n == all.len(),
            jobs_of(d.doc()) == all_entries(all),
            forall|j: int| 0 <= j < n ==> #[trigger] all[j] == entry_of(items@[j].doc()),
            out@.len() == i,
            forall|j: int| 0 <= j < i ==> #[trigger] all[j] == Some(out@[j]@),
        decreases n - i,
    {
        assert(all[i as int] == entry_of(items@[i as int].doc()));
        match read_entry(&items[i]) {
            Some(e) => {
                out.push(e);
            },
            None => {
                return None;
            },
        }
        i = i + 1;
    }
    assert(all.map_values(|e: Option<EntryView>| e->0) =~= entries_view(out@));
    Some(out)
}

/// The schedule in a text that cannot be read as a whole.
fn read_apart(t: &str) -> (r: Option<Vec<ScheduleEntry>>)
    ensures
        match r {
            Some(jobs) => jobs_apart(t@) == Some(entries_view(jobs@)),
            None => jobs_apart(t@) is None,
        },
{
    let jobs: String = match sole_text_of(t, "jobs") {
        Some(jobs) => jobs,
        None => match items_of(t) {
            Some(s) => if s.len() == 1 {
                assert(s.deep_view()[0] == s@[0]@);
                owned(s[0].as_str())
            } else {
                return None;
            },
            None => return None,
        },
    };
    let items: Vec<String> = match items_of(jobs.as_str()) {
        Some(items) => items,
        None => return None,
    };
    let ghost all = items.deep_view().map_values(|e: Seq<char>| entry_in(e));
    let mut out: Vec<ScheduleEntry> = Vec::new();
    let n: usize = items.len();
    let mut i: usize = 0;
    while i < n
        invariant
            i <= n,
            n == items@.len(),
            n == all.len(),
            jobs_apart(t@) == all_entries(all),
            forall|j: int| 0 <= j < n ==> #[trigger] all[j] == entry_in(items@[j]@),
            out@.len() == i,
            forall|j: int| 0 <= j < i ==> #[trigger] all[j] == Some(out@[j]@),
        decreases n - i,
    {
        assert(all[i as int] == entry_in(items@[i as int]@));
        match read_entry_text(items[i].as_str()) {
            Some(e) => {
                out.push(e);
            },
            None => {
                return None;
            },
        }
        i = i + 1;
    }
    assert(all.map_values(|e: Option<EntryView>| e->0) =~= entries_view(out@));
    Some(out)
}

/// The text of a schedule file.
fn write_jobs(jobs: &Vec<ScheduleEntry>) -> (r: String)
    ensures
        r@ == doc_pretty(jobs_doc(entries_view(jobs@))),
        jobs_in(r@) == entries_view(jobs@),
{
    let ghost all = entries_view(jobs@);
    let ghost want = all.map_values(|e: EntryView| entry_doc(e));
    let mut items: Vec<Json> = Vec::new();
    let mut i: usize = 0;
    assert(item_docs(items@) =~= want.take(0));
    while i < jobs.len()
        invariant
            i <= jobs@.len(),
            all == entries_view(jobs@),
            want == all.map_values(|e: EntryView| entry_doc(e)),
            item_docs(items@) == want.take(i as int),
        decreases jobs@.len() - i,
    {
        let j: Json = write_entry(&jobs[i]);
        proof {
            assert(want[i as int] == j.doc());
            assert(items@.push(j).drop_last() =~= items@);
            assert(want.take(i + 1) =~= want.take(i as int).push(j.doc()));
        }
        items.push(j);
        i = i + 1;
    }
    assert(want.take(i as int) =~= want);
    let mut fields: Vec<(String, Json)> = Vec::new();
    push_doc(&mut fields, "jobs", Json::Array(items));
    let file: Json = Json::Object(fields);
    proof {
        assert(field_docs(fields@) =~= jobs_doc(all)->Object_0);
        lemma_jobs_doc(all);
    }
    file.to_doc_pretty()
}

/// Whether an entry is to fire by now.
pub open spec fn is_due(e: EntryView, now: u64) -> bool {
    e.enabled && e.next_fire <= now
}

/// The entries that are to fire by now, in their order.
pub open spec fn due_of(jobs: Seq<EntryView>, now: u64) -> Seq<EntryView>
    decreases jobs.len(),
{
    if jobs.len() == 0 {
        seq![]
    } else if is_due(jobs.last(), now) {
        due_of(jobs.drop_last(), now).push(jobs.last())
    } else {
        due_of(jobs.drop_last(), now)
    }
}

/// A time and some seconds, no later than the last time there is.
pub open spec fn later(now: u64, secs: u64) -> u64 {
    if now + secs <= u64::MAX {
        (now + secs) as u64
    } else {
        u64::MAX
    }
}

/// An entry after it has fired: it is disabled, or waits for its next time.
pub open spec fn fired(e: EntryView, now: u64) -> EntryView {
    if e.every_secs == 0 {
        EntryView { enabled: false, ..e }
    } else {
        EntryView { next_fire: later(now, e.every_secs), ..e }
    }
}

/// A schedule after the entries with an id have fired.
pub open spec fn marked(jobs: Seq<EntryView>, id: Seq<char>, now: u64) -> Seq<EntryView> {
    Seq::new(
        jobs.len(),
        |i: int|
            if jobs[i].id == id {
                fired(jobs[i], now)
            } else {
                jobs[i]
            },
    )
}

/// A new entry.
pub open spec fn new_entry(
    prompt: Seq<char>,
    every_secs: u64,
    first_fire_in_secs: u64,
    now: u64,
) -> EntryView {
    EntryView {
        id: "job-"@ + decimal(now as nat),
        prompt,
        next_fire: later(now, first_fire_in_secs),
        every_secs,
        enabled: true,
    }
}

fn add_secs(now: u64, secs: u64) -> (r: u64)
    ensures
        r == later(now, secs),
{
    match now.checked_add(secs) {
        Some(t) => t,
        None => u64::MAX,
    }
}

/// The schedule file: where it is, and what it holds.
#[derive(Debug)]
pub struct ScheduleStore {
    path: String,
    file: String,
}

/// The schedule file.
pub struct ScheduleView {
    pub path: Seq<char>,
    pub file: Seq<char>,
}

impl View for ScheduleStore {
    type V = ScheduleView;

    closed spec fn view(&self) -> ScheduleView {
        ScheduleView { path: self.path@, file: self.file@ }
    }
}

impl ScheduleStore {
    /// The schedule at a path; a file that is not there yet is written with nothing in it.
    pub fn open(path: &str, file: Option<&str>) -> (r: ScheduleStore)
        ensures
            r@.path == path@,
            match file {
                Some(t) => r@.file == t@,
                None => r@.file == doc_pretty(jobs_doc(seq![])) && jobs_in(r@.file).len() == 0,
            },
    {
        let text: String = match file {
            Some(t) => owned(t),
            None => {
                let none: Vec<ScheduleEntry> = Vec::new();
                assert(entries_view(none@) =~= Seq::<EntryView>::empty());
                write_jobs(&none)
            },
        };
        ScheduleStore { path: owned(path), file: text }
    }

    /// Where the schedule is.
    pub fn path(&self) -> (r: &str)
        ensures
            r@ == self@.path,
    {
        self.path.as_str()
    }

    /// What the file is to hold.
    pub fn file(&self) -> (r: &str)
        ensures
            r@ == self@.file,
    {
        self.file.as_str()
    }

    /// The entries.
    pub fn list(&self) -> (r: Vec<ScheduleEntry>)
        ensures
            entries_view(r@) == jobs_in(self@.file),
    {
        let jobs: Option<Vec<ScheduleEntry>> = match parse_doc(&self.file) {
            Some(d) => read_jobs(&d),
            None => read_apart(&self.file),
        };
        if let Some(jobs) = jobs {
            return jobs;
        }
        let none: Vec<ScheduleEntry> = Vec::new();
        assert(entries_view(none@) =~= Seq::<EntryView>::empty());
        none
    }

    /// Adds an entry that fires first after some seconds.
    pub fn add(
        &mut self,
        prompt: &str,
        every_secs: u64,
        first_fire_in_secs: u64,
        now: u64,
    ) -> (r: ScheduleEntry)
        ensures
            r@ == new_entry(prompt@, every_secs, first_fire_in_secs, now),
            jobs_in(final(self)@.file) == jobs_in(old(self)@.file).push(r@),
            final(self)@.file == doc_pretty(jobs_doc(jobs_in(old(self)@.file).push(r@))),
            final(self)@.path == old(self)@.path,
    {
        let mut jobs: Vec<ScheduleEntry> = self.list();
        let mut id: String = owned("job-");
        id.append(&u64_text(now));
        let entry: ScheduleEntry = ScheduleEntry {
            id,
            prompt: owned(prompt),
            next_fire: add_secs(now, first_fire_in_secs),
            every_secs,
            enabled: true,
        };
        let copy: ScheduleEntry = entry.clone();
        assert(entries_view(jobs@.push(copy)) =~= entries_view(jobs@).push(entry@));
        jobs.push(copy);
        self.file = write_jobs(&jobs);
        entry
    }

    /// The entries that are to fire by now.
    pub fn due(&self, now: u64) -> (r: Vec<ScheduleEntry>)
        ensures
            entries_view(r@) == due_of(jobs_in(self@.file), now),
    {
        let jobs: Vec<ScheduleEntry> = self.list();
        let ghost all = jobs@;
        let mut out: Vec<ScheduleEntry> = Vec::new();
        assert(entries_view(out@) =~= Seq::<EntryView>::empty());
        for j in it: jobs
            invariant
                it.seq() == all,
                entries_view(out@) == due_of(entries_view(all).take(it.index()), now),
        {
            proof {
                let s = entries_view(all);
                assert(s.take(it.index() + 1).drop_last() =~= s.take(it.index()));
                assert(s.take(it.index() + 1).last() == j@);
                assert(entries_view(out@.push(j)) =~= entries_view(out@).push(j@));
            }
            if j.enabled && j.next_fire <= now {
                out.push(j);
            }
        }
        assert(entries_view(all).take(all.len() as int) =~= entries_view(all));
        out
    }

    /// Notes that the entries with an id have fired: one that fires once is disabled, any other
    /// waits for its next time.
    pub fn mark_fired(&mut self, id: &str, now: u64)
        ensures
            jobs_in(final(self)@.file) == marked(jobs_in(old(self)@.file), id@, now),
            final(self)@.file == doc_pretty(
                jobs_doc(marked(jobs_in(old(self)@.file), id@, now)),
            ),
            final(self)@.path == old(self)@.path,
    {
        let jobs: Vec<ScheduleEntry> = self.list();
        let ghost all = jobs@;
        let ghost want = marked(entries_view(all), id@, now);
        let mut out: Vec<ScheduleEntry> = Vec::new();
        assert(entries_view(out@) =~= want.take(0));
        for j in it: jobs
            invariant
                it.seq() == all,
                want == marked(entries_view(all), id@, now),
                entries_view(out@) == want.take(it.index()),
        {
            let ghost before = j@;
            let mut e: ScheduleEntry = j;
            if same(&e.id, id) {
                if e.every_secs == 0 {
                    e.enabled = false;
                } else {
                    e.next_fire = add_secs(now, e.every_secs);
                }
            }
            proof {
                assert(entries_view(all)[it.index()] == before);
                assert(want[it.index()] == e@);
                assert(entries_view(out@.push(e)) =~= entries_view(out@).push(e@));
                assert(want.take(it.index() + 1) =~= want.take(it.index()).push(e@));
            }
            out.push(e);
        }
        assert(want.take(all.len() as int) =~= want);
        self.file = write_jobs(&out);
    }
}

/// A schedule after a due entry was looked at: it has fired only where it was run, and the run
/// succeeded.
pub open spec fn ticked(
    jobs: Seq<EntryView>,
    id: Seq<char>,
    run: bool,
    fire_succeeded: bool,
    now: u64,
) -> Seq<EntryView> {
    if run && fire_succeeded {
        marked(jobs, id, now)
    } else {
        jobs
    }
}

impl ScheduleStore {
    /// Notes what came of a due entry: it is marked as fired where it was run and the run
    /// succeeded, and the file stays as it is otherwise.
    pub fn finish_tick(&mut self, id: &str, run: bool, fire_succeeded: bool, now: u64)
        ensures
            jobs_in(final(self)@.file) == ticked(
                jobs_in(old(self)@.file),
                id@,
                run,
                fire_succeeded,
                now,
            ),
            !(run && fire_succeeded) ==> final(self)@ == old(self)@,
            final(self)@.path == old(self)@.path,
    {
        if should_mark_schedule_fired(run, fire_succeeded) {
            self.mark_fired(id, now);
        }
    }
}

/// How many entries were run with success, and how many without.
pub fn tick_summary(ok: usize, failed: usize) -> (r: String)
    ensures
        r@ == "[tick summary] ok="@ + decimal(ok as nat) + " failed="@ + decimal(failed as nat),
{
    let mut t: String = owned("[tick summary] ok=");
    t.append(usize_text(ok).as_str());
    t.append(" failed=");
    t.append(usize_text(failed).as_str());
    t
}

/// Whether a due entry is to be marked as fired: only where it was run, and the run succeeded.
pub fn should_mark_schedule_fired(run: bool, fire_succeeded: bool) -> (r: bool)
    ensures
        r == (run && fire_succeeded),
{
    run && fire_succeeded
}

/// An entry that fires once is never due again after it has fired; one that repeats is due
/// again from its next time on, and not before.
pub proof fn lemma_fired(jobs: Seq<EntryView>, id: Seq<char>, now: u64, i: int, t: u64)
    requires
        0 <= i < jobs.len(),
        jobs[i].id == id,
    ensures
        jobs[i].every_secs == 0 ==> !is_due(marked(jobs, id, now)[i], t),
        jobs[i].every_secs > 0 && jobs[i].enabled ==> (is_due(marked(jobs, id, now)[i], t) <==> t
            >= later(now, jobs[i].every_secs)),
{
}

/// Entries with another id stay as they are.
pub proof fn lemma_others_keep(jobs: Seq<EntryView>, id: Seq<char>, now: u64, i: int)
    requires
        0 <= i < jobs.len(),
        jobs[i].id != id,
    ensures
        marked(jobs, id, now)[i] == jobs[i],
{
}

/// What is due is exactly what is enabled and whose time has come.
pub proof fn lemma_due(jobs: Seq<EntryView>, now: u64, e: EntryView)
    ensures
        due_of(jobs, now).contains(e) <==> jobs.contains(e) && is_due(e, now),
    decreases jobs.len(),
{
    if jobs.len() > 0 {
        let d = jobs.drop_last();
        lemma_due(d, now, e);
        let before = due_of(d, now);
        let after = due_of(jobs, now);
        if jobs.contains(e) {
            let i = choose|i: int| 0 <= i < jobs.len() && jobs[i] == e;
            if i < d.len() {
                assert(d[i] == e);
            }
        }
        if d.contains(e) {
            let i = choose|i: int| 0 <= i < d.len() && d[i] == e;
            assert(jobs[i] == e);
        }
        if before.contains(e) {
            let i = choose|i: int| 0 <= i < before.len() && before[i] == e;
            assert(after[i] == e);
        }
        if is_due(jobs.last(), now) {
            assert(after == before.push(jobs.last()));
            assert(after[before.len() as int] == jobs.last());
            assert(jobs[jobs.len() - 1] == jobs.last());
            if after.contains(e) {
                let i = choose|i: int| 0 <= i < after.len() && after[i] == e;
                if i < before.len() {
                    assert(before[i] == e);
                }
            }
        }
    }
}

/// An entry that was not run, or whose run failed, stays as due as it was.
pub proof fn lemma_failed_stays_due(
    jobs: Seq<EntryView>,
    id: Seq<char>,
    run: bool,
    fire_succeeded: bool,
    now: u64,
    t: u64,
)
    requires
        !(run && fire_succeeded),
    ensures
        due_of(ticked(jobs, id, run, fire_succeeded, now), t) == due_of(jobs, t),
{
}

/// A new entry: it has its prompt, is enabled, repeats as it was asked to, and fires first after the
/// seconds that were asked for, or at the last time there is.
pub proof fn lemma_new_entry(prompt: Seq<char>, every: u64, first: u64, now: u64)
    ensures
        ({
            let e = new_entry(prompt, every, first, now);
            &&& e.id == "job-"@ + decimal(now as nat)
            &&& e.prompt == prompt
            &&& e.every_secs == every
            &&& e.enabled
            &&& now + first <= u64::MAX ==> e.next_fire == now + first
            &&& now + first > u64::MAX ==> e.next_fire == u64::MAX
        }),
{
}

/// What firing changes of the entries with an id: of one that fires once, that it is no longer
/// enabled; of one that repeats, only its next time, which is its period from now.
pub proof fn lemma_marked(jobs: Seq<EntryView>, id: Seq<char>, now: u64, i: int)
    requires
        0 <= i < jobs.len(),
        jobs[i].id == id,
    ensures
        marked(jobs, id, now).len() == jobs.len(),
        ({
            let a = jobs[i];
            let b = marked(jobs, id, now)[i];
            &&& b.id == a.id && b.prompt == a.prompt && b.every_secs == a.every_secs
            &&& a.every_secs == 0 ==> !b.enabled && b.next_fire == a.next_fire
            &&& a.every_secs > 0 ==> b.enabled == a.enabled
            &&& a.every_secs > 0 && now + a.every_secs <= u64::MAX ==> b.next_fire == now
                + a.every_secs
            &&& a.every_secs > 0 && now + a.every_secs > u64::MAX ==> b.next_fire == u64::MAX
        }),
{
}

/// What is due of a schedule stands in the order of the schedule: what is due of its first part, and
/// behind it what is due of the rest. An entry is due where it is enabled and its time is not later
/// than now.
pub proof fn lemma_due_in_order(a: Seq<EntryView>, b: Seq<EntryView>, e: EntryView, now: u64)
    ensures
        due_of(a + b, now) == due_of(a, now) + due_of(b, now),
        e.enabled && e.next_fire <= now ==> due_of(seq![e], now) == seq![e],
        !e.enabled || e.next_fire > now ==> due_of(seq![e], now).len() == 0,
    decreases b.len(),
{
    let none = Seq::<EntryView>::empty();
    assert(seq![e].drop_last() =~= none);
    assert(due_of(none, now) =~= none);
    if is_due(e, now) {
        assert(due_of(seq![e], now) =~= seq![e]);
    }
    if b.len() == 0 {
        assert(a + b =~= a);
        assert(due_of(a, now) + due_of(b, now) =~= due_of(a, now));
    } else {
        assert((a + b).drop_last() =~= a + b.drop_last());
        lemma_due_in_order(a, b.drop_last(), e, now);
        assert(due_of(a + b, now) =~= due_of(a, now) + due_of(b, now));
    }
}

/// How a schedule is written: an object whose `jobs` are objects with these members, and what is
/// written is read as the same schedule.
pub proof fn lemma_schedule_written(jobs: Seq<EntryView>)
    ensures
        jobs_of(jobs_doc(jobs)) == Some(jobs),
        jobs_doc(jobs) == DocView::Object(
            seq![
                (
                    "jobs"@,
                    DocView::Array(
                        Seq::new(
                            jobs.len(),
                            |i: int|
                                DocView::Object(
                                    seq![
                                        ("id"@, DocView::Text(jobs[i].id)),
                                        ("prompt"@, DocView::Text(jobs[i].prompt)),
                                        ("next_fire"@, DocView::Int(jobs[i].next_fire as int)),
                                        ("every_secs"@, DocView::Int(jobs[i].every_secs as int)),
                                        ("enabled"@, DocView::Bool(jobs[i].enabled)),
                                    ],
                                ),
                        ),
                    ),
                ),
            ],
        ),
{
    lemma_jobs_doc(jobs);
    let written = Seq::new(
        jobs.len(),
        |i: int|
            DocView::Object(
                seq![
                    ("id"@, DocView::Text(jobs[i].id)),
                    ("prompt"@, DocView::Text(jobs[i].prompt)),
                    ("next_fire"@, DocView::Int(jobs[i].next_fire as int)),
                    ("every_secs"@, DocView::Int(jobs[i].every_secs as int)),
                    ("enabled"@, DocView::Bool(jobs[i].enabled)),
                ],
            ),
    );
    assert(jobs.map_values(|e: EntryView| entry_doc(e)) =~= written);
}

/// How an entry is read: an object that has each of its members once, of the right kind, wherever
/// they stand and whatever other fields there are.
pub proof fn lemma_entry_read(
    fields: Seq<(Seq<char>, DocView)>,
    e: EntryView,
    i: int,
    p: int,
    n: int,
    v: int,
    b: int,
)
    ensures
        only_at(fields, "id"@, i) && fields[i].1 == DocView::Text(e.id) && only_at(
            fields,
            "prompt"@,
            p,
        ) && fields[p].1 == DocView::Text(e.prompt) && only_at(fields, "next_fire"@, n)
            && fields[n].1 == DocView::Int(e.next_fire as int) && only_at(fields, "every_secs"@, v)
            && fields[v].1 == DocView::Int(e.every_secs as int) && only_at(fields, "enabled"@, b)
            && fields[b].1 == DocView::Bool(e.enabled) ==> entry_of(DocView::Object(fields)) == Some(
            e,
        ),
        (forall|k: int| 0 <= k < fields.len() ==> (#[trigger] fields[k]).0 != "prompt"@) ==> entry_of(
            DocView::Object(fields),
        ) is None,
{
    lemma_member(fields, "id"@, i, i, Seq::empty(), 0, 5);
    lemma_member(fields, "prompt"@, p, p, Seq::empty(), 1, 5);
    lemma_member(fields, "next_fire"@, n, n, Seq::empty(), 2, 5);
    lemma_member(fields, "every_secs"@, v, v, Seq::empty(), 3, 5);
    lemma_member(fields, "enabled"@, b, b, Seq::empty(), 4, 5);
}

/// A schedule is read whole: every entry, in the order of the list; and nothing of one in which
/// there is anything that is no entry.
pub proof fn lemma_schedule_read(
    fields: Seq<(Seq<char>, DocView)>,
    items: Seq<DocView>,
    i: int,
    k: int,
)
    requires
        only_at(fields, "jobs"@, i),
        fields[i].1 == DocView::Array(items),
        0 <= k < items.len(),
    ensures
        (forall|j: int| 0 <= j < items.len() ==> entry_of(#[trigger] items[j]) is Some) ==> jobs_of(
            DocView::Object(fields),
        ) is Some && jobs_of(DocView::Object(fields))->0.len() == items.len() && Some(
            jobs_of(DocView::Object(fields))->0[k],
        ) == entry_of(items[k]),
        entry_of(items[k]) is None ==> jobs_of(DocView::Object(fields)) is None,
{
    lemma_member(fields, "jobs"@, i, i, Seq::empty(), 0, 1);
    let read = items.map_values(|e: DocView| entry_of(e));
    assert(read[k] == entry_of(items[k]));
    if forall|j: int| 0 <= j < items.len() ==> entry_of(#[trigger] items[j]) is Some {
        assert forall|j: int| 0 <= j < read.len() implies (#[trigger] read[j]) is Some by {
            assert(read[j] == entry_of(items[j]));
        }
    }
}

/// What a schedule file holds: the entries that it lists, and nothing where it cannot be read.
pub proof fn lemma_schedule_file(file: Seq<char>, d: DocView)
    ensures
        doc_of_text(file) == Some(d) && jobs_of(d) is Some ==> jobs_in(file) == jobs_of(d)->0,
        doc_of_text(file) == Some(d) && jobs_of(d) is None ==> jobs_in(file).len() == 0,
        doc_of_text(file) is None && sole_text(file, "jobs"@) is None && items_in(file) is None
            ==> jobs_in(file).len() == 0,
{
}

/// Where a schedule file cannot be read as a whole, its entries are read one by one; one that is no
/// entry leaves nothing of them.
pub proof fn lemma_schedule_apart(file: Seq<char>, jobs: Seq<char>, items: Seq<Seq<char>>, k: int)
    requires
        doc_of_text(file) is None,
        sole_text(file, "jobs"@) == Some(jobs),
        items_in(jobs) == Some(items),
        0 <= k < items.len(),
    ensures
        (forall|j: int| 0 <= j < items.len() ==> entry_in(#[trigger] items[j]) is Some) ==> jobs_in(
            file,
        ).len() == items.len() && Some(jobs_in(file)[k]) == entry_in(items[k]),
        entry_in(items[k]) is None ==> jobs_in(file).len() == 0,
{
    let read = items.map_values(|e: Seq<char>| entry_in(e));
    assert(read[k] == entry_in(items[k]));
    if forall|j: int| 0 <= j < items.len() ==> entry_in(#[trigger] items[j]) is Some {
        assert forall|j: int| 0 <= j < read.len() implies (#[trigger] read[j]) is Some by {
            assert(read[j] == entry_in(items[j]));
        }
    }
}

} // verus!
