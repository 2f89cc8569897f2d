use pirs::ai::message::{AssistantMessage, ContentBlock, Message};
use pirs::claw::duration_parse::{parse_duration_secs, DurationError};
use pirs::claw::exec_env::{apply_exec_backend, describe_active, ExecBackend, ExecError};
use pirs::claw::instance_lock::{lock_contents, lock_dir, lock_path, try_acquire};
use pirs::claw::memory_bridge::{
    memory_db_path, open_memory, recall_context, remember_turn, scope_session, MemoryHit,
};
use pirs::claw::pairing::{
    allow_all_enabled, warn_if_allow_all, PairingAllowlist, ALLOW_ALL_ENV, ALLOW_ALL_WARNING,
};
use pirs::claw::schedule::{should_mark_schedule_fired, tick_summary, ScheduleStore};
use pirs::claw::secrets::{
    load_secrets_env, read_secret, resolve_chat_provider_and_key, resolve_provider_and_key,
    try_load_secrets, SecretLine,
};
use pirs::claw::session::{
    claw_system_prompt, default_schedule_path, default_session_path, default_state_dir,
    extract_assistant_reply, history, peer_session_path, prior_messages, require_llm_key, LoadError,
    SessionStore,
};
use pirs::claw::skills::{
    default_skills_dir, find_skill, install_skill, load_skills, missing_skill_text,
    parse_skill_md, record_usage, skills_prompt_section, try_record_usage, usage_counts,
    usage_path, DirEntry, DirNode,
};
use pirs::claw::voice::{
    transcribe_audio, transcribe_command, transcript_of, VoiceEvent, VoiceStep,
};
use pirs::environ::Environ;

fn env(vars: &[(&str, &str)]) -> Environ {
    let mut e = Environ::new();
    for (k, v) in vars {
        e.set_var(k, v);
    }
    e
}

#[test]
fn parses_units() {
    assert_eq!(parse_duration_secs("30").unwrap(), 30);
    assert_eq!(parse_duration_secs("30s").unwrap(), 30);
    assert_eq!(parse_duration_secs("5m").unwrap(), 300);
    assert_eq!(parse_duration_secs("2h").unwrap(), 7200);
    assert_eq!(parse_duration_secs("1d").unwrap(), 86400);
    assert_eq!(parse_duration_secs("1H").unwrap(), 3600);
}

#[test]
fn rejects_garbage() {
    assert!(parse_duration_secs("").is_err());
    assert!(parse_duration_secs("xx").is_err());
    assert!(parse_duration_secs("5w").is_err());
}

#[test]
fn durations_that_are_refused_say_why() {
    assert!(matches!(parse_duration_secs("  "), Err(DurationError::Empty)));
    assert_eq!(parse_duration_secs("").unwrap_err().message(), "empty duration");
    match parse_duration_secs("5w") {
        Err(e @ DurationError::UnknownUnit { .. }) => {
            assert!(e.message().starts_with("unknown duration unit \"w\""))
        }
        other => panic!("{other:?}"),
    }
    assert!(parse_duration_secs("99999999999999999999s").is_err());
}

#[test]
fn exec_backend_specs_roundtrip() {
    let apply = |spec: &str| -> ExecBackend { apply_exec_backend(spec).unwrap() };
    let b = apply("docker");
    assert_eq!(b.label, "docker");
    assert_eq!(b.sandbox.as_deref(), Some("docker"));
    let b = apply("docker:ubuntu:22.04");
    assert_eq!(b.label, "docker:ubuntu:22.04");
    assert_eq!(b.sandbox.as_deref(), Some("docker"));
    assert_eq!(b.image.as_deref(), Some("ubuntu:22.04"));
    let b = apply("docker@myctr");
    assert_eq!(b.label, "docker@myctr");
    assert_eq!(b.sandbox.as_deref(), Some("docker:myctr"));
    let b = apply("ssh:me@box:22");
    assert_eq!(b.label, "ssh:me@box:22");
    assert_eq!(b.sandbox.as_deref(), Some("ssh:me@box:22"));
    let b = apply("local");
    assert_eq!(b.label, "local");
    assert!(b.sandbox.is_none());
}

#[test]
fn rejects_modal_daytona_singularity() {
    for b in ["modal", "daytona", "singularity", "Modal"] {
        let e = apply_exec_backend(b).unwrap_err().message();
        assert!(e.contains("unsupported"), "{b}: {e}");
    }
}

#[test]
fn other_exec_backends_are_refused() {
    assert!(matches!(apply_exec_backend("ssh:"), Err(ExecError::NoSshTarget)));
    match apply_exec_backend("podman") {
        Err(e @ ExecError::Unknown(_)) => {
            assert!(e.message().starts_with("unknown --exec \"podman\""))
        }
        _ => panic!("expected an unknown backend"),
    }
    assert_eq!(describe_active(&env(&[])), "local");
    assert_eq!(describe_active(&env(&[("PIRS_SANDBOX", "docker")])), "docker");
}

#[test]
fn second_lock_fails() {
    let a = try_acquire("/state", "telegram", true).unwrap();
    assert_eq!(a.path(), lock_path("/state", "telegram"));
    let err = try_acquire("/state", "telegram", false).unwrap_err();
    assert!(err.contains("already holds") || err.contains("lock"), "{err}");
    let _b = try_acquire("/state", "telegram", true).unwrap();
}

#[test]
fn a_lock_names_its_process() {
    assert_eq!(lock_dir("/state"), "/state/locks");
    assert_eq!(lock_path("/state", "telegram"), "/state/locks/telegram.lock");
    assert_eq!(lock_contents(42, "telegram"), "pid=42\nname=telegram\n\n");
}

#[test]
fn session_survives_reopen() {
    let mut file = String::new();
    {
        let mut s = SessionStore::open("session.jsonl", Some(&file));
        file.push_str(&s.append("user", "remember my dog is named Pixel", 1));
        file.push_str(&s.append("assistant", "Got it — Pixel.", 2));
    }
    let s2 = SessionStore::open("session.jsonl", Some(&file));
    let lines = s2.load().unwrap();
    assert_eq!(lines.len(), 2);
    assert_eq!(lines[0].role, "user");
    assert!(lines[0].text.contains("Pixel"));
    assert_eq!(lines[1].role, "assistant");
    let msgs = s2.to_agent_messages().unwrap();
    assert_eq!(msgs.len(), 2);
    assert_eq!(s2.path(), "session.jsonl");
    assert_eq!(lines[1].ts, 2);
    assert_eq!(history(&lines, 1), vec!["[2] assistant: Got it — Pixel."]);
    assert_eq!(prior_messages(&lines).len(), 2);
}

#[test]
fn a_session_keeps_texts_with_line_feeds_and_quotes() {
    let mut s = SessionStore::open("s", None);
    let text = "a\nb \"c\" \\ \u{1f600}\t";
    let line = s.append("user", text, 9);
    assert_eq!(
        line,
        "{\"ts\":9,\"role\":\"user\",\"text\":\"a\\nb \\\"c\\\" \\\\ \u{1f600}\\t\"}\n"
    );
    assert_eq!(s.load().unwrap()[0].text, text);
    let broken = SessionStore::open("s", Some("{\"ts\":1}\n"));
    assert!(broken.load().is_err());
    assert!(broken.to_agent_messages().is_err());
    assert!(SessionStore::open("s", Some("\n  \n")).load().unwrap().is_empty());
}

fn session(line: &str) -> Result<usize, LoadError> {
    SessionStore::open("s", Some(line)).load().map(|ls| ls.len())
}

#[test]
fn a_line_holds_each_field_once() {
    assert_eq!(session("{\"ts\":1,\"role\":\"a\",\"text\":\"b\"}").unwrap(), 1);
    assert_eq!(session("[1,\"a\",\"b\"]").unwrap(), 1);
    assert!(session("[1,\"a\",\"b\",2]").is_err());
    assert!(session("{\"ts\":1,\"role\":\"a\",\"text\":\"b\",\"ts\":1}").is_err());
    assert!(session("{\"ts\":-1,\"role\":\"a\",\"text\":\"b\"}").is_err());
    assert!(session("{\"ts\":1.0,\"role\":\"a\",\"text\":\"b\"}").is_err());
    // Other fields may hold anything, and occur as often as they like.
    let deep = format!("{}{}", "[".repeat(300), "]".repeat(300));
    for other in ["1", "null", "1e999", "\"\\ud800\"", deep.as_str()] {
        let line = format!("{{\"x\":{other},\"ts\":1,\"role\":\"a\",\"text\":\"b\",\"x\":0}}");
        assert_eq!(session(&line).unwrap(), 1, "{other}");
    }
    assert!(session(&format!("{{\"x\":{deep},\"ts\":1,\"role\":\"a\"}}")).is_err());
    assert!(session(&format!("[{deep},\"a\",\"b\"]")).is_err());
    let line = format!(" {{ \"\\u0074s\" : 7 ,\t\"x\" :{deep} , \"role\":\"a\",\"text\": \"}},{{\" }} ");
    let s = SessionStore::open("s", Some(&line));
    let ls = s.load().unwrap();
    assert_eq!((ls[0].ts, ls[0].text.as_str()), (7, "},{"));
    assert!(session(&line.replace("\"x\"", "\"ts\":8,\"x\"")).is_err());
    assert!(session(&line.replace("\"x\"", "\"\\ud800\"")).is_err());
}

#[test]
fn a_session_that_cannot_be_read_says_why() {
    match session("\n{\"ts\":\n") {
        Err(e @ LoadError::Json(_)) => {
            assert_eq!(e.message(), "EOF while parsing a value at line 1 column 6")
        }
        _ => panic!("not JSON"),
    }
    match session("{}\n") {
        Err(e @ LoadError::Record(_)) => assert_eq!(e.message(), "not a line of a session: {}"),
        _ => panic!("no line"),
    }
}

#[test]
fn every_peer_has_a_session_of_its_own() {
    let path = |peer: &str| peer_session_path("/s", "telegram", peer);
    assert_eq!(path("42"), "/s/sessions/telegram/42.jsonl");
    assert_eq!(path("a/b"), "/s/sessions/telegram/a%2Fb.jsonl");
    assert_eq!(path("a_b"), "/s/sessions/telegram/a_b.jsonl");
    assert_eq!(path("a%2Fb"), "/s/sessions/telegram/a%252Fb.jsonl");
    assert_eq!(path(".."), "/s/sessions/telegram/...jsonl");
}

#[test]
fn the_prompt_that_was_just_noted_is_not_sent_twice() {
    let mut s = SessionStore::open("s", None);
    s.append("user", "one", 1);
    assert!(prior_messages(&s.load().unwrap()).is_empty());
    s.append("assistant", "two", 2);
    s.append("system", "ignored", 2);
    s.append("user", "three", 3);
    assert_eq!(prior_messages(&s.load().unwrap()).len(), 2);
}

#[test]
fn a_schedule_is_written_in_the_order_of_its_fields() {
    let mut store = ScheduleStore::open("s", None);
    assert_eq!(store.file(), "{\n  \"jobs\": []\n}");
    store.add("2020-01-01T00:00:00+02:00", 5, 1, 7);
    assert_eq!(
        store.file(),
        "{\n  \"jobs\": [\n    {\n      \"id\": \"job-7\",\n      \"prompt\": \"2020-01-01T00:00:00+02:00\",\n      \"next_fire\": 8,\n      \"every_secs\": 5,\n      \"enabled\": true\n    }\n  ]\n}"
    );
    store.add("x", u64::MAX, u64::MAX, u64::MAX);
    assert_eq!(store.list()[1].next_fire, u64::MAX);
}

#[test]
fn a_schedule_holds_each_field_once() {
    let count = |file: &str| ScheduleStore::open("s", Some(file)).list().len();
    let entry = "\"id\":\"a\",\"prompt\":\"p\",\"next_fire\":1,\"every_secs\":0,\"enabled\":true";
    assert_eq!(count(&format!("{{\"jobs\":[{{{entry}}}]}}")), 1);
    assert_eq!(count(&format!("[[{{{entry}}},[\"b\",\"p\",1,0,false]]]")), 2);
    assert_eq!(count(&format!("{{\"jobs\":[{{{entry},\"id\":\"a\"}}]}}")), 0);
    assert_eq!(count(&format!("{{\"jobs\":[{{{entry}}}],\"jobs\":[]}}")), 0);
    let deep = format!("{}{}", "[".repeat(300), "]".repeat(300));
    assert_eq!(count(&format!("{{\"x\":{deep},\"jobs\":[{{{entry},\"y\":{deep}}},{{{entry}}}]}}")), 2);
    assert_eq!(count(&format!("[[{{\"y\":1e999,{entry}}}]]")), 1);
    assert_eq!(count(&format!("{{\"jobs\":[{{{entry}}},{deep}]}}")), 0);
    assert_eq!(count("nothing"), 0);
}

#[test]
fn counts_are_counts_wherever_they_stand() {
    assert_eq!(usage_counts(Some("{\"a\":1,\"a\":2}")).get("a"), Some(&2));
    assert_eq!(usage_counts(Some("{\"a\":\"x\",\"a\":2}")).get("a"), None);
    assert_eq!(usage_counts(Some("{\"a\":-1}")).len(), 0);
    assert_eq!(
        record_usage(Some("{\"b\":1}"), "a"),
        "{\n  \"a\": 1,\n  \"b\": 1\n}"
    );
}

#[test]
fn schedule_due_and_mark_fired_one_shot() {
    let mut store = ScheduleStore::open("schedule.json", None);
    let job = store.add("morning brief", 0, 0, 1000);
    let now = 1001;
    let due = store.due(now);
    assert_eq!(due.len(), 1);
    assert_eq!(due[0].id, job.id);
    store.mark_fired(&job.id, now);
    let due2 = store.due(now + 10);
    assert!(due2.is_empty(), "one-shot disabled after fire");
}

#[test]
fn schedule_repeat_advances_next_fire() {
    let mut store = ScheduleStore::open("schedule.json", None);
    let now = 5000;
    let job = store.add("hourly", 3600, 0, now);
    store.mark_fired(&job.id, now);
    let jobs = store.list();
    let j = jobs.iter().find(|j| j.id == job.id).unwrap();
    assert!(j.enabled);
    assert_eq!(j.next_fire, now + 3600);
    assert!(store.due(now + 10).is_empty());
    assert_eq!(store.due(now + 3600).len(), 1);
}

#[test]
fn dry_run_tick_must_not_mark_fired() {
    assert!(!should_mark_schedule_fired(false, true));
    assert!(!should_mark_schedule_fired(false, false));
}

#[test]
fn failed_run_must_not_mark_fired() {
    assert!(!should_mark_schedule_fired(true, false));
    assert!(should_mark_schedule_fired(true, true));
}

#[test]
fn dry_run_leaves_job_enabled_in_store() {
    let mut store = ScheduleStore::open("schedule.json", None);
    let job = store.add("stay due", 0, 0, 10);
    let now = 11;
    let due = store.due(now);
    assert_eq!(due.len(), 1);
    assert!(!should_mark_schedule_fired(false, false));
    assert_eq!(store.due(now).len(), 1);
    assert!(store.list().iter().any(|j| j.id == job.id && j.enabled));
}

#[test]
fn only_a_run_that_succeeds_marks_a_job() {
    let mut store = ScheduleStore::open("schedule.json", None);
    let job = store.add("brief", 0, 0, 10);
    for (run, ok) in [(false, false), (false, true), (true, false)] {
        let file = store.file().to_string();
        store.finish_tick(&job.id, run, ok, 20);
        assert_eq!(store.file(), file);
        assert_eq!(store.due(20).len(), 1);
    }
    store.finish_tick(&job.id, true, true, 20);
    assert!(store.due(20).is_empty());
    assert_eq!(tick_summary(2, 1), "[tick summary] ok=2 failed=1");
}

#[test]
fn a_schedule_survives_reopen() {
    let mut store = ScheduleStore::open("x/schedule.json", None);
    store.add("a \"quoted\" prompt", 60, 5, 100);
    let again = ScheduleStore::open(store.path(), Some(store.file()));
    let jobs = again.list();
    assert_eq!(jobs.len(), 1);
    assert_eq!(jobs[0].id, "job-100");
    assert_eq!(jobs[0].prompt, "a \"quoted\" prompt");
    assert_eq!(jobs[0].next_fire, 105);
    assert_eq!(jobs[0].every_secs, 60);
    assert!(ScheduleStore::open("x", Some("not json")).list().is_empty());
    let mut far = ScheduleStore::open("x", None);
    assert_eq!(far.add("p", 0, 10, u64::MAX).next_fire, u64::MAX);
}

#[test]
fn require_llm_key_fails_closed() {
    assert!(require_llm_key(None).is_err());
    assert!(require_llm_key(Some("")).is_err());
    assert!(require_llm_key(Some("   ")).is_err());
    assert!(require_llm_key(Some("sk-test")).is_ok());
}

fn assistant(text: &str) -> Message {
    Message::Assistant(AssistantMessage {
        content: vec![ContentBlock::text(text)],
        ..Default::default()
    })
}

#[test]
fn chat_does_not_invent_reply_text() {
    assert!(extract_assistant_reply(&[]).is_none());
    assert!(extract_assistant_reply(&[assistant("  ")]).is_none());
    assert_eq!(extract_assistant_reply(&[assistant("hello")]).as_deref(), Some("hello"));
}

#[test]
fn the_last_reply_that_says_something_counts() {
    let msgs = [assistant("first"), assistant("second"), assistant(" "), Message::user("x")];
    assert_eq!(extract_assistant_reply(&msgs).as_deref(), Some("second"));
}

#[test]
fn no_fake_assistant_on_missing_reply() {
    let mut store = SessionStore::open("s.jsonl", None);
    store.append("user", "hi", 1);
    let reply = extract_assistant_reply(&[]);
    assert!(reply.is_none());
    let lines = store.load().unwrap();
    assert_eq!(lines.len(), 1);
    assert_eq!(lines[0].role, "user");
    assert!(!lines.iter().any(|l| l.role == "assistant"));
}

#[test]
fn state_is_kept_below_home() {
    let e = env(&[("HOME", "/home/u")]);
    assert_eq!(default_state_dir(&e), "/home/u/.pirs/claw");
    assert_eq!(default_session_path(&e), "/home/u/.pirs/claw/session.jsonl");
    assert_eq!(default_schedule_path(&e), "/home/u/.pirs/claw/schedule.json");
    assert_eq!(default_state_dir(&env(&[])), "./.pirs/claw");
    assert!(claw_system_prompt().starts_with("You are pirs-claw, a lean personal assistant"));
}

#[test]
fn remember_and_recall() {
    assert!(open_memory::<u8>(Err("locked".into())).unwrap_err() == "memory open: locked");
    assert_eq!(open_memory::<u8>(Ok(7)), Ok(7));
    let scope = scope_session("cli/local");
    let rows = vec![
        remember_turn(&scope, "user", "my dog is named Pixel"),
        remember_turn(&scope, "assistant", "Got it about Pixel"),
    ];
    assert!(rows.iter().all(|r| r.session == "cli/local" && r.kind == "chat"));
    let hits: Vec<MemoryHit> = rows
        .into_iter()
        .filter(|r| r.text.contains("Pixel"))
        .map(|r| MemoryHit { kind: r.kind, name: r.role, snippet: r.text })
        .collect();
    let ctx = recall_context(&hits);
    assert!(ctx.contains("Pixel"), "{ctx}");
    assert_eq!(
        ctx,
        "\n\n## Memory recall\n- [chat] user: my dog is named Pixel\n- [chat] assistant: Got it about Pixel\n"
    );
    assert_eq!(recall_context(&vec![]), "");
    assert_eq!(memory_db_path("/s"), "/s/memory.db");
}

#[test]
fn deny_by_default() {
    let al = PairingAllowlist::open(None, &env(&[]));
    assert!(!al.is_allowed("123"));
    assert!(al.is_empty());
    assert!(!al.allow_all());
}

#[test]
fn allowlisted_peer() {
    let al = PairingAllowlist::open(Some("# comment\n42\n99\n"), &env(&[]));
    assert!(al.is_allowed("42"));
    assert!(!al.is_allowed("7"));
    assert_eq!(al.len(), 2);
}

#[test]
fn allow_all_warning_text_is_stable() {
    assert!(ALLOW_ALL_WARNING.contains("PIRS_CLAW_ALLOW_ALL"));
    assert!(ALLOW_ALL_WARNING.contains("pairing disabled"));
}

#[test]
fn add_list_remove_roundtrip() {
    let none = env(&[]);
    let mut al = PairingAllowlist::open(None, &none);
    assert!(al.add("111").unwrap());
    assert!(!al.add("111").unwrap());
    assert!(al.add("222").unwrap());
    assert_eq!(al.list(), vec!["111".to_string(), "222".to_string()]);
    let file = al.save();
    let al2 = PairingAllowlist::open(Some(&file), &none);
    assert!(al2.is_allowed("111"));
    assert!(al2.is_allowed("222"));
    let mut al3 = PairingAllowlist::open(Some(&file), &none);
    assert!(al3.remove("111"));
    assert!(!al3.is_allowed("111"));
    assert!(al3.is_allowed("222"));
}

#[test]
fn everyone_may_speak_only_where_the_environment_says_so() {
    let e = env(&[(ALLOW_ALL_ENV, "1")]);
    assert!(allow_all_enabled(&e));
    assert_eq!(warn_if_allow_all(&e), Some(format!("[pirs-claw] {ALLOW_ALL_WARNING}")));
    assert!(PairingAllowlist::open(None, &e).is_allowed("anyone"));
    let off = env(&[(ALLOW_ALL_ENV, "0")]);
    assert!(!allow_all_enabled(&off));
    assert_eq!(warn_if_allow_all(&off), None);
    let mut al = PairingAllowlist::open(None, &off);
    assert!(al.add("  ").is_err());
    assert!(!al.remove("nobody"));
    assert_eq!(PairingAllowlist::default_path("/s"), "/s/allowlist.txt");
}

#[test]
fn parse_frontmatter_skill() {
    let raw = "---\nname: fix-rust\ndescription: when cargo fails\n---\nRun cargo test.\n";
    let sk = parse_skill_md(raw, "/x/SKILL.md");
    assert_eq!(sk.name, "fix-rust");
    assert_eq!(sk.description, "when cargo fails");
    assert!(sk.body.contains("cargo test"));
}

#[test]
fn load_from_dir() {
    let entries = vec![DirEntry {
        path: "/skills/my-skill".into(),
        node: DirNode::SkillDir(Some(
            "---\nname: my-skill\ndescription: demo\n---\nDo the thing.\n".into(),
        )),
    }];
    let skills = load_skills(&entries);
    assert_eq!(skills.len(), 1);
    assert_eq!(skills[0].name, "my-skill");
    let section = skills_prompt_section(&skills);
    assert!(section.contains("my-skill"));
    assert!(section.contains("Do the thing"));
}

#[test]
fn a_skill_without_a_name_is_called_by_its_file() {
    let name = |path: &str| parse_skill_md("body", path).name;
    assert_eq!(name("/x/plan.md"), "plan");
    assert_eq!(name("plan.old.md"), "plan.old");
    assert_eq!(name("/x.y/plan"), "plan");
    assert_eq!(name("/x/.md"), ".md");
    assert_eq!(name("/x/.."), "skill");
    let entries: Vec<DirEntry> = ["/s/a.md", "/s/.md", "/s/b.txt", "/s/c.md.md", "/s/md"]
        .iter()
        .map(|p| DirEntry { path: p.to_string(), node: DirNode::File(Some(String::new())) })
        .collect();
    let found: Vec<String> = load_skills(&entries).into_iter().map(|s| s.name).collect();
    assert_eq!(found, vec!["a", "c.md"]);
}

#[test]
fn install_skill_from_file() {
    let raw = "---\nname: installed-skill\ndescription: d\n---\nBody here.\n";
    let (dir, file) = install_skill(raw, "/src/x.md", "/dest");
    assert_eq!(dir, "/dest/installed-skill");
    assert_eq!(file, "/dest/installed-skill/SKILL.md");
    let loaded = load_skills(&vec![DirEntry {
        path: dir,
        node: DirNode::SkillDir(Some(raw.to_string())),
    }]);
    assert!(loaded.iter().any(|s| s.name == "installed-skill"));
}

#[test]
fn skills_are_found_by_stem_and_extension() {
    let file = |path: &str, text: &str| DirEntry {
        path: path.into(),
        node: DirNode::File(Some(text.into())),
    };
    let entries = vec![
        file("/s/zeta.md", "body z"),
        file("/s/notes.txt", "no skill"),
        DirEntry {
            path: "/s/sub".into(),
            node: DirNode::Dir(vec![file("/s/sub/alpha.md", "body a")]),
        },
    ];
    let skills = load_skills(&entries);
    let names: Vec<&str> = skills.iter().map(|s| s.name.as_str()).collect();
    assert_eq!(names, vec!["alpha", "zeta"]);
    assert_eq!(find_skill(&skills, "zeta").unwrap().body, "body z");
    assert!(find_skill(&skills, "Zeta").is_none());
    assert_eq!(
        skills_prompt_section(&skills[..1]),
        "\n\n## Available skills\n\n### alpha\n\n\nbody a\n"
    );
    assert_eq!(skills_prompt_section(&[]), "");
    assert_eq!(missing_skill_text("/x"), "skill path not found: /x");
    let e = env(&[("HOME", "/h")]);
    assert_eq!(default_skills_dir(&e), "/h/.pirs/skills");
    assert_eq!(usage_path(&e), "/h/.pirs/skills/usage.json");
}

#[test]
fn the_use_of_skills_is_counted() {
    let once = record_usage(None, "a");
    assert_eq!(once, "{\n  \"a\": 1\n}");
    let twice = record_usage(Some(&once), "a");
    let more = try_record_usage(Some(&twice), "b").unwrap();
    let counts = usage_counts(Some(&more));
    assert_eq!(counts.get("a"), Some(&2));
    assert_eq!(counts.get("b"), Some(&1));
    assert_eq!(usage_counts(Some("[]")).len(), 0);
    let full = format!("{{\"a\": {}}}", u64::MAX);
    assert_eq!(try_record_usage(Some(&full), "a"), None);
}

#[test]
fn missing_file_errors() {
    let err = transcribe_audio("/no/such/audio.ogg", false, None, [false; 3]).unwrap_err();
    assert!(err.contains("not found"));
}

#[test]
fn no_transcriber_returns_none_for_empty_file() {
    let plan = transcribe_audio("a.ogg", true, None, [false, false, false]).unwrap();
    assert!(plan.commands.is_empty());
}

#[test]
fn transcribers_are_tried_in_order() {
    let plan = transcribe_audio("a.ogg", true, None, [true, false, true]).unwrap();
    assert_eq!(plan.commands[0], vec!["whisper", "a.ogg", "--output_format", "txt"]);
    assert_eq!(plan.commands[1][0], "faster-whisper");
    let silent = VoiceEvent::Ran { success: true, stdout: " \n".into() };
    assert!(matches!(plan.after(0, silent), VoiceStep::Next { at: 1 }));
    let absent = VoiceEvent::NotStarted { error: "e".into() };
    assert!(matches!(plan.after(1, absent), VoiceStep::Nothing));
    match plan.after(0, VoiceEvent::Ran { success: true, stdout: " hi \n".into() }) {
        VoiceStep::Said { text } => assert_eq!(text, "hi"),
        other => panic!("{other:?}"),
    }
    let shell = transcribe_audio("a.ogg", true, Some("t {path} {path}"), [true; 3]).unwrap();
    assert_eq!(shell.commands, vec![vec!["sh", "-c", "t a.ogg a.ogg"]]);
    match shell.after(0, VoiceEvent::NotStarted { error: "no sh".into() }) {
        VoiceStep::Failed { error } => assert_eq!(error, "no sh"),
        other => panic!("{other:?}"),
    }
    assert_eq!(transcribe_command("x", "p"), "x");
    assert_eq!(transcript_of(false, "text"), None);
}

#[test]
fn secrets_do_not_override_what_is_set() {
    let text = "# comment\nexport A=1\nB='two words'\nC=\"${A}\"\nD=${NOPE}\nHOME=/x\nno line\n";
    let mut e = env(&[("HOME", "/h")]);
    let sets = load_secrets_env(text, &mut e);
    let sets: Vec<(&str, &str)> = sets.iter().map(|(k, v)| (k.as_str(), v.as_str())).collect();
    assert_eq!(sets, vec![("A", "1"), ("B", "two words"), ("C", "1")]);
    assert_eq!(e.var("HOME"), Some("/h"));
    assert_eq!(e.var("B"), Some("two words"));
    assert_eq!(e.var("D"), None);
}

#[test]
fn a_line_that_no_environment_can_hold_is_refused() {
    let e = env(&[]);
    assert!(matches!(read_secret("X='", &e), SecretLine::Refused));
    assert!(matches!(read_secret("=v", &e), SecretLine::Refused));
    assert!(matches!(read_secret("  # x=1", &e), SecretLine::Skip));
    assert!(matches!(read_secret("K=v", &e), SecretLine::Assign(_, _)));
    let mut half = env(&[]);
    assert!(try_load_secrets("A=1\nX='\nB=2\n", &mut half).is_none());
    assert_eq!(half.var("A"), Some("1"));
    assert_eq!(half.var("B"), None);
    assert_eq!(try_load_secrets("A=1", &mut env(&[])).unwrap().len(), 1);
}

#[test]
fn the_endpoint_follows_the_keys() {
    let pair = |vars: &[(&str, &str)]| resolve_provider_and_key(&env(vars));
    assert_eq!(
        pair(&[("OPENAI_BASE_URL", "http://l"), ("DEEPSEEK_API_KEY", "d")]),
        (Some("http://l".into()), Some("d".into()))
    );
    assert_eq!(
        pair(&[("DASHSCOPE_API_KEY", "s"), ("DEEPSEEK_API_KEY", "d")]),
        (Some("https://coding-intl.dashscope.aliyuncs.com/v1".into()), Some("s".into()))
    );
    assert_eq!(
        pair(&[("OPENROUTER_API_KEY", "r")]),
        (Some("https://openrouter.ai/api/v1".into()), Some("r".into()))
    );
    assert_eq!(pair(&[("OPENAI_API_KEY", "o")]), (None, Some("o".into())));
    assert_eq!(
        resolve_chat_provider_and_key(&env(&[("OPENROUTER_API_KEY", "r")])),
        (None, None)
    );
}
