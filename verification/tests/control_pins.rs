use pirs::agent::control_pins::{
    backfill_missing_tool_results, enforce_tool_result_adjacency, is_reminder_kind,
    message_reminder_kind, preserve_control_pins, reminder_kind, strip_reminder_kind,
    wrap_reminder, PROTECTED_KINDS,
};
use pirs::ai::message::{
    AssistantMessage, ContentBlock, Message, ToolResultMessage, UserContent, UserMessage,
};
use pirs::json::Json;

fn user(s: &str) -> Message {
    Message::user(s)
}

fn call(id: &str, name: &str) -> ContentBlock {
    ContentBlock::ToolCall {
        id: id.into(),
        name: name.into(),
        arguments: Json::Object(vec![]),
        thought_signature: None,
    }
}

fn assistant_tool_use(id: &str) -> Message {
    Message::Assistant(AssistantMessage {
        content: vec![call(id, "update_plan")],
        ..Default::default()
    })
}

fn tool_result(id: &str) -> Message {
    Message::ToolResult(ToolResultMessage {
        tool_call_id: id.into(),
        tool_name: "update_plan".into(),
        content: vec![ContentBlock::text("blocked")],
        details: None,
        is_error: true,
        terminate: false,
        timestamp: 0,
    })
}

fn is_tool_result(m: &Message) -> bool {
    matches!(m, Message::ToolResult(_))
}

fn text_of(m: &Message) -> Option<String> {
    match m {
        Message::User(UserMessage { content: UserContent::Text(t), .. }) => Some(t.clone()),
        _ => None,
    }
}

#[test]
fn adjacency_moves_pin_after_tool_result() {
    let mut msgs = vec![
        user("do the thing"),
        assistant_tool_use("update_plan:0"),
        user(&wrap_reminder("plan", "PLAN: step 1")),
        tool_result("update_plan:0"),
    ];
    enforce_tool_result_adjacency(&mut msgs);
    assert!(is_tool_result(&msgs[2]), "tool_result must immediately follow the tool_use");
    assert!(
        is_reminder_kind(&msgs[3], "plan"),
        "the pin must be displaced to after the tool_result"
    );
    assert_eq!(msgs.len(), 4, "no messages added or dropped");
}

#[test]
fn adjacency_is_noop_when_result_already_adjacent() {
    let mut msgs = vec![
        assistant_tool_use("t1"),
        tool_result("t1"),
        user(&wrap_reminder("plan", "PLAN")),
    ];
    enforce_tool_result_adjacency(&mut msgs);
    assert_eq!(msgs.len(), 3);
    assert!(matches!(msgs[0], Message::Assistant(_)));
    assert!(is_tool_result(&msgs[1]));
    assert!(is_reminder_kind(&msgs[2], "plan"));
}

#[test]
fn adjacency_keeps_multiple_results_together_and_pin_last() {
    let mut msgs = vec![
        assistant_tool_use("t1"),
        tool_result("t1"),
        user(&wrap_reminder("plan", "PLAN")),
        tool_result("t2"),
    ];
    enforce_tool_result_adjacency(&mut msgs);
    assert!(is_tool_result(&msgs[1]) && is_tool_result(&msgs[2]));
    assert!(is_reminder_kind(&msgs[3], "plan"));
}

#[test]
fn adjacency_does_not_cross_turn_boundaries() {
    let mut msgs = vec![
        assistant_tool_use("t1"),
        tool_result("t1"),
        Message::Assistant(AssistantMessage {
            content: vec![ContentBlock::text("done")],
            ..Default::default()
        }),
        user(&wrap_reminder("plan", "PLAN")),
    ];
    enforce_tool_result_adjacency(&mut msgs);
    assert_eq!(msgs.len(), 4);
    assert!(matches!(msgs[0], Message::Assistant(_)));
    assert!(is_tool_result(&msgs[1]));
    assert!(matches!(msgs[2], Message::Assistant(_)));
    assert!(is_reminder_kind(&msgs[3], "plan"), "pin stays in its own turn");
}

#[test]
fn adjacency_twice_is_adjacency_once() {
    let mut msgs = vec![
        assistant_tool_use("t1"),
        user("a"),
        tool_result("t1"),
        user("b"),
        tool_result("t2"),
    ];
    enforce_tool_result_adjacency(&mut msgs);
    let once: Vec<bool> = msgs.iter().map(is_tool_result).collect();
    assert_eq!(once, vec![false, true, true, false, false]);
    assert_eq!(text_of(&msgs[3]).as_deref(), Some("a"));
    assert_eq!(text_of(&msgs[4]).as_deref(), Some("b"));
    enforce_tool_result_adjacency(&mut msgs);
    let twice: Vec<bool> = msgs.iter().map(is_tool_result).collect();
    assert_eq!(once, twice);
}

#[test]
fn backfill_synthesizes_missing_result() {
    let mut msgs = vec![user("go"), assistant_tool_use("t1")];
    backfill_missing_tool_results(&mut msgs, 0);
    assert_eq!(msgs.len(), 3, "one stub result added");
    match &msgs[2] {
        Message::ToolResult(tr) => {
            assert_eq!(tr.tool_call_id, "t1");
            assert!(tr.is_error, "stub is an error result");
        }
        _ => panic!("expected a synthesized tool_result at index 2"),
    }
}

#[test]
fn backfill_is_noop_when_all_results_present() {
    let mut msgs = vec![assistant_tool_use("t1"), tool_result("t1")];
    backfill_missing_tool_results(&mut msgs, 0);
    assert_eq!(msgs.len(), 2, "nothing added when the call is answered");
}

#[test]
fn backfill_only_fills_the_absent_call_in_a_group() {
    let mut msgs = vec![
        Message::Assistant(AssistantMessage {
            content: vec![call("a", "git"), call("b", "git")],
            ..Default::default()
        }),
        tool_result("a"),
    ];
    backfill_missing_tool_results(&mut msgs, 0);
    let result_ids: std::collections::HashSet<String> = msgs
        .iter()
        .filter_map(|m| match m {
            Message::ToolResult(tr) => Some(tr.tool_call_id.clone()),
            _ => None,
        })
        .collect();
    assert!(result_ids.contains("a") && result_ids.contains("b"));
    assert_eq!(msgs.len(), 3, "exactly one stub added for the missing call");
}

#[test]
fn backfill_carries_the_time_and_the_tool() {
    let mut msgs = vec![assistant_tool_use("t9")];
    backfill_missing_tool_results(&mut msgs, 77);
    match &msgs[1] {
        Message::ToolResult(tr) => {
            assert_eq!(tr.timestamp, 77);
            assert_eq!(tr.tool_name, "update_plan");
            assert_eq!(tr.content.len(), 1);
        }
        _ => panic!("expected a result"),
    }
    backfill_missing_tool_results(&mut msgs, 78);
    assert_eq!(msgs.len(), 2);
}

#[test]
fn reminder_kind_parses_standard_envelope() {
    let t = wrap_reminder("stop_gate", "STOP GATE: run tests");
    assert_eq!(reminder_kind(&t), Some("stop_gate"));
    assert_eq!(
        reminder_kind("<system-reminder> kind=plan\nx\n</system-reminder>"),
        Some("plan")
    );
    assert_eq!(reminder_kind("plain user text"), None);
}

#[test]
fn strip_reminder_kind_only_drops_matching_kind() {
    let msgs = vec![
        user("hello"),
        user(&wrap_reminder("plan", "do x")),
        user(&wrap_reminder("stop_gate", "STOP GATE")),
        user(&wrap_reminder("verify", "run tests")),
    ];
    let out = strip_reminder_kind(msgs, "plan");
    assert_eq!(out.len(), 3);
    assert!(out.iter().any(|m| is_reminder_kind(m, "stop_gate")));
    assert!(out.iter().any(|m| is_reminder_kind(m, "verify")));
    assert!(!out.iter().any(|m| is_reminder_kind(m, "plan")));
}

#[test]
fn preserve_restores_stop_gate_when_pack_strips_all_reminders() {
    let before = vec![
        user("task"),
        user(&wrap_reminder("plan", "1. edit")),
        user(&wrap_reminder(
            "stop_gate",
            "STOP GATE: you edited files but have not shown tests",
        )),
        user("all done"),
    ];
    let after_bad: Vec<Message> = before
        .iter()
        .filter(|m| text_of(m).map(|t| !t.contains("<system-reminder>")).unwrap_or(true))
        .cloned()
        .chain(std::iter::once(user(&wrap_reminder("plan", "1. edit"))))
        .collect();
    assert!(
        !after_bad.iter().any(|m| is_reminder_kind(m, "stop_gate")),
        "precondition: bad transform dropped stop_gate"
    );

    let restored = preserve_control_pins(&before, after_bad);
    assert!(
        restored.iter().any(|m| is_reminder_kind(m, "stop_gate")),
        "host must restore stop_gate: {restored:?}"
    );
    assert!(
        restored.iter().any(|m| is_reminder_kind(m, "plan")),
        "plan pin should remain"
    );
    let gates = restored.iter().filter(|m| is_reminder_kind(m, "stop_gate")).count();
    assert_eq!(gates, 1);
}

#[test]
fn preserve_does_not_duplicate_when_still_present() {
    let gate = user(&wrap_reminder("stop_gate", "STOP GATE"));
    let before = vec![user("task"), gate.clone()];
    let after = vec![user("task"), gate];
    let out = preserve_control_pins(&before, after);
    assert_eq!(out.iter().filter(|m| is_reminder_kind(m, "stop_gate")).count(), 1);
}

#[test]
fn preserve_restores_verify_and_thrash_kinds() {
    let before = vec![
        user(&wrap_reminder("verify", "run build")),
        user(&wrap_reminder("edit_fail", "re-read")),
        user(&wrap_reminder("repeat", "different approach")),
        user(&wrap_reminder("no_progress", "one step")),
        user("done"),
    ];
    let after = vec![user("done")];
    let out = preserve_control_pins(&before, after);
    for kind in ["verify", "edit_fail", "repeat", "no_progress"] {
        assert!(
            out.iter().any(|m| is_reminder_kind(m, kind)),
            "missing restored kind={kind} in {out:?}"
        );
    }
}

#[test]
fn plan_is_not_auto_restored() {
    let before = vec![user(&wrap_reminder("plan", "old")), user("hi")];
    let after = vec![user("hi")];
    let out = preserve_control_pins(&before, after);
    assert!(!out.iter().any(|m| is_reminder_kind(m, "plan")));
}

#[test]
fn preserving_twice_adds_nothing() {
    let before = vec![user(&wrap_reminder("verify", "run build")), user("x")];
    let once = preserve_control_pins(&before, vec![user("x")]);
    let n = once.len();
    assert_eq!(n, 2);
    let twice = preserve_control_pins(&before, once);
    assert_eq!(twice.len(), n);
}

#[test]
fn every_protected_kind_is_wrapped_and_read_back() {
    for kind in PROTECTED_KINDS {
        let m = user(&wrap_reminder(kind, "body"));
        assert_eq!(message_reminder_kind(&m), Some(kind));
    }
    assert_eq!(message_reminder_kind(&tool_result("t")), None);
}
