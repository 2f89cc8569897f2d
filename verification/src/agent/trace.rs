//! The trace of a run: one JSON object per event and line, numbered without gaps.

use vstd::prelude::*;

use crate::json::{
    canonical, field, field_trees, json_of_text, json_str, json_text, object2, push_field, shallow,
    Json, JsonView,
};
use crate::text::lines::{lemma_lines_append, lemma_lines_cons, lines};

verus! {

/// What is recorded of an event: its kind, its data, its number, and its time since the start.
/// Data that are no object are left out; number and time count before anything in the data.
pub open spec fn record(kind: Seq<char>, data: JsonView, seq: u64, t_ms: u64) -> JsonView {
    let base = map!["kind"@ => JsonView::Text(kind)];
    let all = match data {
        JsonView::Object(m) => base.union_prefer_right(m),
        _ => base,
    };
    JsonView::Object(
        all.insert("seq"@, JsonView::Int(seq as int)).insert("t_ms"@, JsonView::Int(t_ms as int)),
    )
}

/// The data of an event of the agent loop.
pub open spec fn agent_data(phase: Seq<char>, event: JsonView) -> JsonView {
    JsonView::Object(map!["phase"@ => JsonView::Text(phase), "event"@ => event])
}

/// The data of the event with which a run starts.
pub open spec fn start_data(run_id: Seq<char>, started_unix: u64) -> JsonView {
    JsonView::Object(
        map!["run_id"@ => JsonView::Text(run_id), "started_unix"@ => JsonView::Int(started_unix as int)],
    )
}

/// Whether a text is made of whole lines.
pub open spec fn is_whole(text: Seq<char>) -> bool {
    text.len() == 0 || text.last() == '\n'
}

/// An event as it is handed in.
pub struct EventView {
    pub kind: Seq<char>,
    pub data: JsonView,
    pub t_ms: u64,
}

/// The records of a run: the one with which it starts, and one for each event, numbered from 0.
pub open spec fn records(
    run_id: Seq<char>,
    started_unix: u64,
    t_ms: u64,
    events: Seq<EventView>,
) -> Seq<JsonView> {
    Seq::new(
        events.len() + 1,
        |i: int|
            if i == 0 {
                record("run.start"@, start_data(run_id, started_unix), 0, t_ms)
            } else {
                record(events[i - 1].kind, events[i - 1].data, i as u64, events[i - 1].t_ms)
            },
    )
}

/// Whether a trace holds these records: one whole line for each, in their order, as JSON. A line
/// whose record is not nested deeper than JSON is read reads back as that record.
pub open spec fn holds_records(v: TraceView, recs: Seq<JsonView>) -> bool {
    &&& is_whole(v.text)
    &&& v.seq == recs.len()
    &&& lines(v.text).len() == recs.len()
    &&& forall|i: int| 0 <= i < recs.len() ==> #[trigger] lines(v.text)[i] == json_text(recs[i])
    &&& forall|i: int|
        0 <= i < recs.len() && shallow(#[trigger] recs[i], 127) ==> json_of_text(lines(v.text)[i])
            == Some(recs[i])
}

/// A trace: the next number, and what was recorded.
#[derive(Debug)]
pub struct Recorder {
    seq: u64,
    text: String,
}

/// A trace.
pub struct TraceView {
    pub seq: u64,
    pub text: Seq<char>,
}

impl View for Recorder {
    type V = TraceView;

    closed spec fn view(&self) -> TraceView {
        TraceView { seq: self.seq, text: self.text@ }
    }
}

/// The trace after an event was recorded in a line.
pub open spec fn recorded(
    before: TraceView,
    after: TraceView,
    line: Seq<char>,
    rec: JsonView,
) -> bool {
    &&& after.text == before.text + line.push('\n')
    &&& after.seq == (if before.seq < u64::MAX {
        (before.seq + 1) as u64
    } else {
        0
    })
    &&& canonical(rec) ==> line == json_text(rec)
    &&& canonical(rec) && shallow(rec, 127) ==> json_of_text(line) == Some(rec)
    &&& is_whole(after.text)
    &&& is_whole(before.text) ==> lines(after.text) == lines(before.text).push(line)
}

impl Recorder {
    /// Starts a trace with the event `run.start`.
    pub fn new(run_id: &str, started_unix: u64, t_ms: u64) -> (r: Recorder)
        ensures
            holds_records(r@, records(run_id@, started_unix, t_ms, seq![])),
    {
        let mut r: Recorder = Recorder { seq: 0, text: String::new() };
        let data: Json = object2(
            "run_id",
            json_str(run_id),
            "started_unix",
            Json::UInt(started_unix),
        );
        let ghost d = data@;
        let line: String = r.event("run.start", data, t_ms);
        proof {
            let recs = records(run_id@, started_unix, t_ms, seq![]);
            reveal_with_fuel(canonical, 2);
            lemma_record("run.start"@, d, 0, t_ms);
            assert(lines(Seq::<char>::empty()) =~= Seq::<Seq<char>>::empty());
            assert(recs =~= seq![record("run.start"@, d, 0, t_ms)]);
            assert(lines(r@.text) =~= seq![line@]);
        }
        r
    }

    /// A trace that is only kept in memory.
    pub fn in_memory(run_id: &str) -> (r: Recorder)
        ensures
            holds_records(r@, records(run_id@, 0, 0, seq![])),
    {
        Recorder::new(run_id, 0, 0)
    }

    /// What was recorded.
    pub fn text(&self) -> (r: &str)
        ensures
            r@ == self@.text,
    {
        self.text.as_str()
    }

    /// Numbers and times a record and writes it as one line.
    fn write_obj(&mut self, fields: Vec<(String, Json)>, t_ms: u64) -> (r: String)
        ensures
            recorded(
                old(self)@,
                final(self)@,
                r@,
                JsonView::Object(
                    field_trees(fields@).insert("seq"@, JsonView::Int(old(self)@.seq as int)).insert(
                        "t_ms"@,
                        JsonView::Int(t_ms as int),
                    ),
                ),
            ),
    {
        let mut all: Vec<(String, Json)> = fields;
        push_field(&mut all, "seq", Json::UInt(self.seq));
        push_field(&mut all, "t_ms", Json::UInt(t_ms));
        let j: Json = Json::Object(all);
        let line: String = j.to_text();
        let ghost before = self.text@;
        let next: u64 = if self.seq < u64::MAX {
            self.seq + 1
        } else {
            0
        };
        self.seq = next;
        self.text.append(&line);
        self.text.push('\n');
        proof {
            assert(self.text@ =~= before + line@.push('\n'));
            if is_whole(before) {
                lemma_append_line(before, line@);
            }
        }
        line
    }

    /// Records an event: its kind and the fields of its data. Hands back the line that was
    /// written.
    pub fn event(&mut self, kind: &str, data: Json, t_ms: u64) -> (r: String)
        ensures
            recorded(
                old(self)@,
                final(self)@,
                r@,
                record(kind@, data@, old(self)@.seq, t_ms),
            ),
    {
        let mut fields: Vec<(String, Json)> = Vec::new();
        push_field(&mut fields, "kind", json_str(kind));
        let ghost base = map!["kind"@ => JsonView::Text(kind@)];
        assert(field_trees(fields@) =~= base);
        if let Json::Object(more) = data {
            let ghost m = field_trees(more@);
            let ghost all = more@;
            proof {
                assert(all.take(0) =~= Seq::<(String, Json)>::empty());
                assert(base.union_prefer_right(field_trees(all.take(0))) =~= base);
            }
            for p in it: more
                invariant
                    it.seq() == all,
                    field_trees(fields@) == base.union_prefer_right(
                        field_trees(all.take(it.index())),
                    ),
            {
                let (k, v) = p;
                proof {
                    let s = all.take(it.index() + 1);
                    assert(s.drop_last() =~= all.take(it.index()));
                    assert(s.last() == (k, v));
                    let d = field_trees(all.take(it.index()));
                    assert(base.union_prefer_right(d.insert(k@, v@)) =~= base.union_prefer_right(
                        d,
                    ).insert(k@, v@));
                }
                push_field(&mut fields, &k, v);
            }
            assert(all.take(all.len() as int) =~= all);
        }
        self.write_obj(fields, t_ms)
    }

    /// Records an event of the agent loop, whole, with the phase in which it happened. Hands
    /// back the line that was written.
    pub fn agent_event(&mut self, phase: &str, event: Json, t_ms: u64) -> (r: String)
        ensures
            recorded(
                old(self)@,
                final(self)@,
                r@,
                record("agent"@, agent_data(phase@, event@), old(self)@.seq, t_ms),
            ),
    {
        let data: Json = object2("phase", json_str(phase), "event", event);
        self.event("agent", data, t_ms)
    }
}

/// A record is JSON where its data are, and holds its kind, its number, its time, the fields of its
/// data that are called otherwise, and nothing else. It is as flat as its data.
pub proof fn lemma_record(kind: Seq<char>, data: JsonView, seq: u64, t_ms: u64)
    requires
        canonical(data),
    ensures
        ({
            let r = record(kind, data, seq, t_ms);
            &&& canonical(r)
            &&& field(r, "seq"@) == Some(JsonView::Int(seq as int))
            &&& field(r, "t_ms"@) == Some(JsonView::Int(t_ms as int))
            &&& field(data, "kind"@) is None ==> field(r, "kind"@) == Some(JsonView::Text(kind))
            &&& field(data, "kind"@) is Some ==> field(r, "kind"@) == field(data, "kind"@)
            &&& forall|k: Seq<char>|
                k != "kind"@ && k != "seq"@ && k != "t_ms"@ ==> #[trigger] field(r, k) == field(
                    data,
                    k,
                )
            &&& forall|depth: nat| #[trigger] shallow(data, depth) && depth > 0 ==> shallow(r, depth)
        }),
{
    reveal_strlit("seq");
    reveal_strlit("t_ms");
    reveal_strlit("kind");
    assert("seq"@.len() == 3 && "t_ms"@.len() == 4 && "kind"@.len() == 4);
    assert("t_ms"@[0] == 't' && "kind"@[0] == 'k');
    let r = record(kind, data, seq, t_ms);
    let m = r->Object_0;
    assert forall|k: Seq<char>| #[trigger] m.contains_key(k) implies canonical(m[k]) by {
        if k != "t_ms"@ && k != "seq"@ {
            if let JsonView::Object(d) = data {
                if d.contains_key(k) {
                    assert(canonical(d[k]));
                }
            }
        }
    }
    assert forall|depth: nat| #[trigger] shallow(data, depth) && depth > 0 implies shallow(
        r,
        depth,
    ) by {
        assert forall|k: Seq<char>| #[trigger] m.contains_key(k) implies shallow(
            m[k],
            (depth - 1) as nat,
        ) by {
            if k != "t_ms"@ && k != "seq"@ {
                if let JsonView::Object(d) = data {
                    if d.contains_key(k) {
                        assert(shallow(d[k], (depth - 1) as nat));
                    }
                }
            }
        }
    }
}

proof fn lemma_append_line(text: Seq<char>, line: Seq<char>)
    requires
        is_whole(text),
        line.len() > 0,
        forall|i: int| 0 <= i < line.len() ==> #[trigger] line[i] as u32 >= 0x20,
    ensures
        lines(text + line.push('\n')) == lines(text).push(line),
{
    let e = Seq::<char>::empty();
    assert(!line.contains('\n')) by {
        if line.contains('\n') {
            let i = choose|i: int| 0 <= i < line.len() && line[i] == '\n';
            assert(line[i] as u32 >= 0x20);
        }
    }
    assert(line[line.len() - 1] as u32 >= 0x20);
    lemma_lines_cons(line, e);
    assert(line.push('\n') + e =~= line.push('\n'));
    lemma_lines_append(text, line.push('\n'));
    assert(seq![line] + lines(e) =~= seq![line]);
    assert(lines(text + line.push('\n')) =~= lines(text).push(line));
}

/// The states and the lines of a recorder to which events were handed one after the other.
pub open spec fn is_run(
    states: Seq<TraceView>,
    written: Seq<Seq<char>>,
    events: Seq<EventView>,
) -> bool {
    &&& states.len() == events.len() + 1
    &&& written.len() == events.len()
    &&& forall|i: int|
        0 <= i < events.len() ==> #[trigger] recorded(
            states[i],
            states[i + 1],
            written[i],
            record(events[i].kind, events[i].data, states[i].seq, events[i].t_ms),
        )
}

/// Whatever JSON is recorded, the trace holds the record with which the run starts and one record
/// for each event, each in a line of its own and numbered without gaps, as long as the numbers
/// last.
pub proof fn lemma_trace(
    run_id: Seq<char>,
    started_unix: u64,
    t_ms: u64,
    states: Seq<TraceView>,
    written: Seq<Seq<char>>,
    events: Seq<EventView>,
)
    requires
        events.len() + 1 < u64::MAX,
        forall|i: int| 0 <= i < events.len() ==> canonical((#[trigger] events[i]).data),
        is_run(states, written, events),
        holds_records(states[0], records(run_id, started_unix, t_ms, seq![])),
    ensures
        holds_records(states.last(), records(run_id, started_unix, t_ms, events)),
    decreases events.len(),
{
    let recs = records(run_id, started_unix, t_ms, events);
    if events.len() == 0 {
        assert(events =~= Seq::<EventView>::empty());
    } else {
        let n = events.len() - 1;
        let e = events[n];
        let before = events.drop_last();
        assert forall|i: int| 0 <= i < before.len() implies #[trigger] recorded(
            states.drop_last()[i],
            states.drop_last()[i + 1],
            written.drop_last()[i],
            record(before[i].kind, before[i].data, states.drop_last()[i].seq, before[i].t_ms),
        ) by {
            assert(recorded(
                states[i],
                states[i + 1],
                written[i],
                record(events[i].kind, events[i].data, states[i].seq, events[i].t_ms),
            ));
        }
        lemma_trace(run_id, started_unix, t_ms, states.drop_last(), written.drop_last(), before);
        let a = states[n];
        let b = states[n + 1];
        assert(states.drop_last().last() == a);
        let rec = record(e.kind, e.data, a.seq, e.t_ms);
        assert(recorded(a, b, written[n], rec));
        lemma_record(e.kind, e.data, a.seq, e.t_ms);
        let earlier = records(run_id, started_unix, t_ms, before);
        assert(recs =~= earlier.push(rec));
        let ls = lines(b.text);
        assert(ls == lines(a.text).push(written[n]));
        assert forall|i: int| 0 <= i < recs.len() implies #[trigger] ls[i] == json_text(recs[i]) by {
            if i < earlier.len() {
                assert(ls[i] == lines(a.text)[i]);
                assert(recs[i] == earlier[i]);
            }
        }
        assert forall|i: int| 0 <= i < recs.len() && shallow(#[trigger] recs[i], 127) implies
            json_of_text(ls[i]) == Some(recs[i]) by {
            if i < earlier.len() {
                assert(ls[i] == lines(a.text)[i]);
                assert(recs[i] == earlier[i]);
            }
        }
    }
}

/// The times of a trace never fall where they do not in the order in which they are handed in.
pub proof fn lemma_times_never_fall(
    run_id: Seq<char>,
    started_unix: u64,
    t_ms: u64,
    events: Seq<EventView>,
    i: int,
    j: int,
)
    requires
        events.len() + 1 < u64::MAX,
        forall|k: int| 0 <= k < events.len() ==> canonical((#[trigger] events[k]).data),
        forall|k: int| 0 <= k < events.len() ==> t_ms <= (#[trigger] events[k]).t_ms,
        forall|k: int, l: int|
            0 <= k < l < events.len() ==> (#[trigger] events[k]).t_ms <= (#[trigger] events[l]).t_ms,
        0 <= i <= j <= events.len(),
    ensures
        ({
            let recs = records(run_id, started_unix, t_ms, events);
            field(recs[i], "t_ms"@) matches Some(JsonView::Int(a)) && field(
                recs[j],
                "t_ms"@,
            ) matches Some(JsonView::Int(b)) && a <= b
        }),
{
    reveal_with_fuel(canonical, 2);
    lemma_record("run.start"@, start_data(run_id, started_unix), 0, t_ms);
    if i > 0 {
        let e = events[i - 1];
        lemma_record(e.kind, e.data, i as u64, e.t_ms);
    }
    if j > 0 {
        let e = events[j - 1];
        lemma_record(e.kind, e.data, j as u64, e.t_ms);
    }
}

/// What the first record and the records of the agent loop say: the run and when it started, and the
/// phase and the whole event.
pub proof fn lemma_data(run_id: Seq<char>, started_unix: u64, phase: Seq<char>, event: JsonView)
    ensures
        field(start_data(run_id, started_unix), "run_id"@) == Some(JsonView::Text(run_id)),
        field(start_data(run_id, started_unix), "started_unix"@) == Some(
            JsonView::Int(started_unix as int),
        ),
        field(agent_data(phase, event), "phase"@) == Some(JsonView::Text(phase)),
        field(agent_data(phase, event), "event"@) == Some(event),
{
    reveal_strlit("run_id");
    reveal_strlit("started_unix");
    reveal_strlit("phase");
    reveal_strlit("event");
    assert("run_id"@.len() != "started_unix"@.len());
    assert("phase"@[0] != "event"@[0]);
}

/// The first record is that of the start of the run, and behind it comes one for each event, in
/// order, with its kind.
pub proof fn lemma_records_in_order(
    run_id: Seq<char>,
    started_unix: u64,
    t_ms: u64,
    events: Seq<EventView>,
    i: int,
)
    requires
        0 <= i < events.len(),
        events.len() < u64::MAX,
        canonical(events[i].data),
    ensures
        ({
            let recs = records(run_id, started_unix, t_ms, events);
            &&& recs.len() == events.len() + 1
            &&& field(recs[0], "kind"@) == Some(JsonView::Text("run.start"@))
            &&& field(recs[0], "run_id"@) == Some(JsonView::Text(run_id))
            &&& field(recs[0], "seq"@) == Some(JsonView::Int(0))
            &&& field(events[i].data, "kind"@) is None ==> field(recs[i + 1], "kind"@) == Some(
                JsonView::Text(events[i].kind),
            )
            &&& field(recs[i + 1], "seq"@) == Some(JsonView::Int(i + 1))
            &&& field(recs[i + 1], "t_ms"@) == Some(JsonView::Int(events[i].t_ms as int))
        }),
{
    let start = start_data(run_id, started_unix);
    lemma_data(run_id, started_unix, run_id, start);
    reveal_with_fuel(canonical, 2);
    lemma_record("run.start"@, start, 0, t_ms);
    lemma_record(events[i].kind, events[i].data, (i + 1) as u64, events[i].t_ms);
    reveal_strlit("run_id");
    reveal_strlit("started_unix");
    reveal_strlit("kind");
    reveal_strlit("seq");
    reveal_strlit("t_ms");
    assert("run_id"@.len() != "kind"@.len());
    assert("run_id"@.len() != "seq"@.len());
    assert("run_id"@.len() != "t_ms"@.len());
    assert("started_unix"@.len() != "kind"@.len());
}

} // verus!
