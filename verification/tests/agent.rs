use std::sync::{Arc, Mutex};

use pirs::agent::gate::{run_gated, Gate, GateOutcome, GateStep};
use pirs::agent::jobs::{registry, JobKind, JobStatus};
use pirs::agent::trace::Recorder;
use pirs::json::{parse_json, Json};

fn drive(
    max: u32,
    mut attempt: impl FnMut(Option<String>) -> Result<(), String>,
    mut verify: impl FnMut() -> Option<String>,
) -> Result<GateOutcome, String> {
    let mut gate: Gate = run_gated(max);
    loop {
        match gate.next() {
            GateStep::Attempt(verdict) => match attempt(verdict) {
                Ok(()) => gate.verified(verify()),
                Err(e) => gate.attempt_failed(e),
            },
            GateStep::Finished(end) => return end,
        }
    }
}

#[test]
fn passes_on_first_attempt_runs_once() {
    let mut attempts = 0;
    let out = drive(
        3,
        |_verdict| {
            attempts += 1;
            Ok(())
        },
        || None,
    )
    .unwrap();
    assert_eq!(out, GateOutcome::Passed { on_attempt: 1 });
    assert_eq!(attempts, 1, "must not retry after a pass");
}

#[test]
fn retries_with_verdict_then_passes() {
    let mut seen_verdicts: Vec<Option<String>> = Vec::new();
    let mut gate_calls = 0;
    let out = drive(
        5,
        |verdict| {
            seen_verdicts.push(verdict);
            Ok(())
        },
        || {
            gate_calls += 1;
            if gate_calls < 3 {
                Some(format!("failure #{gate_calls}"))
            } else {
                None
            }
        },
    )
    .unwrap();
    assert_eq!(out, GateOutcome::Passed { on_attempt: 3 });
    assert_eq!(
        seen_verdicts,
        vec![None, Some("failure #1".to_string()), Some("failure #2".to_string())]
    );
}

#[test]
fn exhausts_attempts_and_returns_last_failure() {
    let mut attempts = 0;
    let out = drive(
        2,
        |_v| {
            attempts += 1;
            Ok(())
        },
        || Some("still red".to_string()),
    )
    .unwrap();
    assert_eq!(out, GateOutcome::Exhausted { last_failure: "still red".to_string() });
    assert_eq!(attempts, 2, "used exactly max_attempts");
    assert!(!out.passed());
}

#[test]
fn zero_max_attempts_is_clamped_to_one() {
    let mut attempts = 0;
    let out = drive(
        0,
        |_v| {
            attempts += 1;
            Ok(())
        },
        || None,
    )
    .unwrap();
    assert_eq!(attempts, 1);
    assert!(out.passed());
}

#[test]
fn attempt_error_aborts_immediately() {
    let mut attempts = 0;
    let out = drive(
        3,
        |_v| {
            attempts += 1;
            Err("agent exploded".to_string())
        },
        || None,
    );
    assert_eq!(attempts, 1, "no attempt follows one that could not be made");
    assert!(out.is_err());
    assert!(out.unwrap_err().contains("agent exploded"));
}

#[test]
fn register_list_steer() {
    let mut r = registry();
    let id = r.register(JobKind::Bash, "sleep 1", "/tmp/x.log", Some(1), 0);
    assert!(r.list().iter().any(|l| l.contains(&format!("#{id}"))));
    assert!(r.steer(id, "hi").is_err(), "bash jobs are not steerable");
    r.set_steer(id);
    r.steer(id, "hello job").unwrap();
    assert_eq!(r.fetch_steering(id), vec!["hello job".to_string()]);
    r.set_status(id, JobStatus::Exited(0));
    assert!(r.list().iter().any(|l| l.contains("exited(0)")));
}

#[test]
fn notifier_fires() {
    let mut r = registry();
    r.set_notifier();
    r.notify("job done");
    assert_eq!(r.fetch_notices(), vec!["job done".to_string()]);
}

#[test]
fn nothing_is_noted_without_a_notifier() {
    let mut r = registry();
    r.notify("lost");
    r.set_notifier();
    assert!(r.fetch_notices().is_empty());
}

#[test]
fn what_is_pending_stays() {
    let mut r = registry();
    r.set_notifier();
    r.notify("one");
    r.set_notifier();
    assert_eq!(r.fetch_notices(), vec!["one".to_string()]);
    let id = r.register(JobKind::Agent, "a", "/a", None, 0);
    r.set_steer(id);
    r.steer(id, "left").unwrap();
    r.set_steer(id);
    assert_eq!(r.fetch_steering(id), vec!["left".to_string()]);
    assert!(r.fetch_steering(id).is_empty());
}

#[test]
fn jobs_are_numbered_and_listed_in_order() {
    let mut r = registry();
    let a = r.register(JobKind::Bash, "one", "/a", None, 5);
    let b = r.register(JobKind::Agent, "two", "/b", None, 6);
    assert!(a < b);
    assert_eq!(r.get(a).unwrap().started_at, 5);
    assert_eq!(r.get(b).unwrap().description, "two");
    assert!(r.get(b + 1).is_none());
    assert!(r.steer(b + 1, "x").is_err());
    r.set_process(a, 42, "/a2");
    assert_eq!(r.get(a).unwrap().pid, Some(42));
    assert_eq!(r.get(a).unwrap().output_path, "/a2");
    r.set_progress_handle(b, "half way");
    assert_eq!(r.get(b).unwrap().progress.as_deref(), Some("half way"));
    assert_eq!(r.list().len(), 2);
}

fn trace_lines(text: &str) -> Vec<Json> {
    text.lines().map(|l| parse_json(l).unwrap()).collect()
}

#[test]
fn header_then_events_get_monotonic_seq() {
    let mut rec = Recorder::in_memory("run-1");
    rec.event("instance.start", parse_json("{\"id\":\"abc\"}").unwrap(), 1);
    rec.event("instance.end", parse_json("{\"outcome\":\"solved\"}").unwrap(), 2);
    let ls = trace_lines(rec.text());
    assert_eq!(ls.len(), 3);
    assert_eq!(ls[0].text_at("kind"), Some("run.start"));
    assert_eq!(ls[0].text_at("run_id"), Some("run-1"));
    assert_eq!(ls[1].text_at("kind"), Some("instance.start"));
    assert_eq!(ls[1].text_at("id"), Some("abc"));
    for (i, l) in ls.iter().enumerate() {
        assert_eq!(l.get("seq").unwrap().as_u64(), Some(i as u64));
        assert!(l.get("t_ms").unwrap().as_u64().is_some());
    }
}

#[test]
fn agent_events_are_captured_verbatim() {
    let mut rec = Recorder::in_memory("r");
    let event = parse_json(
        "{\"type\":\"tool_execution_start\",\"toolCallId\":\"t1\",\"toolName\":\"read\",\"args\":{\"path\":\"a.py\"}}",
    )
    .unwrap();
    rec.agent_event("plan-exec#0", event, 3);
    let ls = trace_lines(rec.text());
    let ev = &ls[1];
    assert_eq!(ev.text_at("kind"), Some("agent"));
    assert_eq!(ev.text_at("phase"), Some("plan-exec#0"));
    assert_eq!(ev.pointer("/event/type").unwrap().as_str(), Some("tool_execution_start"));
    assert_eq!(ev.pointer("/event/toolName").unwrap().as_str(), Some("read"));
    assert_eq!(ev.pointer("/event/args/path").unwrap().as_str(), Some("a.py"));
}

#[test]
fn concurrent_recorders_do_not_interleave_partial_lines() {
    let rec = Arc::new(Mutex::new(Recorder::in_memory("r")));
    let workers = tokio::runtime::Builder::new_multi_thread().worker_threads(8).build().unwrap();
    let mut handles = Vec::new();
    for n in 0..8 {
        let r = Arc::clone(&rec);
        handles.push(workers.spawn_blocking(move || {
            for i in 0..50 {
                let data = parse_json(&format!("{{\"worker\":{n},\"i\":{i}}}")).unwrap();
                let line = r.lock().unwrap().event("tick", data, 0);
                assert!(!line.contains('\n'));
            }
        }));
    }
    for h in handles {
        workers.block_on(h).unwrap();
    }
    let rec = rec.lock().unwrap();
    let ls = trace_lines(rec.text());
    assert_eq!(ls.len(), 1 + 8 * 50);
    for n in 0..8 {
        let of_one = ls.iter().filter(|l| l.get("worker").and_then(|w| w.as_u64()) == Some(n));
        assert!(of_one.map(|l| l.get("i").unwrap().as_u64().unwrap()).eq(0..50));
    }
}

#[test]
fn floats_come_through_a_trace() {
    let mut rec = Recorder::in_memory("r");
    let data = "{\"a\":0.1,\"b\":1.7976931348623157e308,\"c\":-0.0,\"d\":5e-324,\"e\":8.41}";
    rec.event("f", parse_json(data).unwrap(), 7);
    rec.event("g", parse_json("3").unwrap(), 9);
    let ls = trace_lines(rec.text());
    assert_eq!(
        rec.text().lines().nth(1),
        Some("{\"a\":0.1,\"b\":1.7976931348623157e+308,\"c\":-0.0,\"d\":5e-324,\"e\":8.41,\"kind\":\"f\",\"seq\":1,\"t_ms\":7}")
    );
    assert_eq!(ls[1].get("b").unwrap().to_text(), "1.7976931348623157e+308");
    assert_eq!(ls[1].get("e").unwrap().to_text(), "8.41");
    assert_eq!(rec.text().lines().nth(2), Some("{\"kind\":\"g\",\"seq\":2,\"t_ms\":9}"));
}
