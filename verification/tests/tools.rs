use pirs::agent::jobs::{registry, JobKind, JobStatus};
use pirs::bench::proc::{run_capture, spawn_error_text, ExitInfo};
use pirs::json::parse_json;
use pirs::tools::job_tools::{
    bash_job_exited, bash_job_output_path, bash_job_started, spawn_bash_job, tail_of, tools,
    JobKillTool, JobOutput, JobOutputTool, JobSteerTool, JobsTool,
};
use pirs::tools::output::ExecutionMode;
use pirs::tools::run_tests::{
    detect, detect_verify_command, shell_quote, summarize, tail_lines, ExecOutput,
    ProjectMarkers, RunTestsTool,
};

fn none() -> ProjectMarkers {
    ProjectMarkers {
        cargo_toml: false,
        go_mod: false,
        package_json: false,
        pnpm_lock: false,
        yarn_lock: false,
        pyproject_toml: false,
        setup_py: false,
        setup_cfg: false,
        tox_ini: false,
        pytest_ini: false,
        tests_dir: false,
        makefile: false,
    }
}

#[test]
fn detects_rust_by_cargo_toml() {
    let r = detect(&ProjectMarkers { cargo_toml: true, ..none() }, None).unwrap();
    assert_eq!(r.ecosystem, "rust");
    assert_eq!(r.command, "cargo test");
}

#[test]
fn go_filter_uses_run_flag() {
    let r = detect(&ProjectMarkers { go_mod: true, ..none() }, Some("TestFoo")).unwrap();
    assert_eq!(r.command, "go test -run 'TestFoo' ./...");
}

#[test]
fn node_picks_the_lockfile_specific_runner() {
    let m = ProjectMarkers { package_json: true, pnpm_lock: true, ..none() };
    let r = detect(&m, None).unwrap();
    assert_eq!(r.command, "pnpm test");
}

#[test]
fn python_detected_by_a_tests_dir_alone() {
    let r = detect(&ProjectMarkers { tests_dir: true, ..none() }, Some("edge")).unwrap();
    assert_eq!(r.ecosystem, "python");
    assert_eq!(r.command, "pytest -q -k 'edge'");
}

#[test]
fn language_marker_beats_makefile_fallback() {
    let m = ProjectMarkers { cargo_toml: true, makefile: true, ..none() };
    assert_eq!(detect(&m, None).unwrap().ecosystem, "rust");
}

#[test]
fn makefile_is_the_last_resort() {
    let r = detect(&ProjectMarkers { makefile: true, ..none() }, None).unwrap();
    assert_eq!(r.ecosystem, "make");
    assert_eq!(r.command, "make test");
}

#[test]
fn no_markers_reports_what_it_looked_for() {
    let err = detect(&none(), None).unwrap_err();
    assert!(err.contains("Cargo.toml"), "{err}");
    assert!(err.contains("go.mod"), "{err}");
}

#[test]
fn detect_verify_command_public_api_for_weak_auto_verify() {
    assert!(detect_verify_command(&none()).is_none());
    let (eco, cmd) =
        detect_verify_command(&ProjectMarkers { cargo_toml: true, ..none() }).expect("rust");
    assert_eq!(eco, "rust");
    assert_eq!(cmd, "cargo test");
}

#[test]
fn filter_is_shell_quoted_against_injection() {
    let m = ProjectMarkers { cargo_toml: true, ..none() };
    let r = detect(&m, Some("foo; rm -rf /")).unwrap();
    assert_eq!(r.command, "cargo test 'foo; rm -rf /'");
    assert_eq!(shell_quote("it's"), "'it'\\''s'");
}

#[test]
fn rust_summary_line_is_extracted() {
    let out = "running 3 tests\ntest result: ok. 3 passed; 0 failed; 0 ignored";
    assert_eq!(
        summarize("rust", out).unwrap(),
        "test result: ok. 3 passed; 0 failed; 0 ignored"
    );
}

#[test]
fn tail_keeps_only_the_last_lines() {
    let s: String = (0..100).map(|i| format!("line{i}\n")).collect();
    let t = tail_lines(&s, 5);
    assert!(t.starts_with("line95"));
    assert!(t.ends_with("line99"));
}

fn run(markers: &ProjectMarkers, code: Option<i32>, timed_out: bool) -> (String, String) {
    let tool = RunTestsTool::new("/p");
    let (runner, secs) = tool.plan(&parse_json("{}").unwrap(), markers).unwrap();
    assert_eq!(secs, 300);
    let out = ExecOutput {
        stdout: "all good\n".into(),
        stderr: "".into(),
        code,
        timed_out,
    };
    let r = tool.report(&runner, &out, secs);
    (r.text, r.details.unwrap().to_text())
}

#[test]
fn executes_a_passing_make_target_end_to_end() {
    let (text, details) = run(&ProjectMarkers { makefile: true, ..none() }, Some(0), false);
    assert_eq!(text, "[make] make test — PASS\n\nall good");
    let d = parse_json(&details).unwrap();
    assert_eq!(d.get("passed").unwrap().as_bool(), Some(true));
    assert_eq!(d.text_at("ecosystem"), Some("make"));
}

#[test]
fn executes_a_failing_make_target_and_reports_fail() {
    let (text, details) = run(&ProjectMarkers { makefile: true, ..none() }, Some(2), false);
    assert!(text.contains("FAIL (exit 2)"));
    let d = parse_json(&details).unwrap();
    assert_eq!(d.get("passed").unwrap().as_bool(), Some(false));
    assert!(d.get("exit_code").unwrap().as_i64().unwrap() > 0);
}

#[test]
fn a_run_that_takes_too_long_or_is_killed_fails() {
    let m = ProjectMarkers { makefile: true, ..none() };
    assert!(run(&m, None, true).0.contains("TIMEOUT after 300s"));
    assert!(run(&m, None, false).0.contains("FAIL (killed by signal)"));
}

#[test]
fn pinned_ecosystem_without_its_marker_errors() {
    let tool = RunTestsTool::new("/p");
    let args = parse_json("{ \"ecosystem\": \"rust\" }").unwrap();
    let err = tool.plan(&args, &none()).unwrap_err();
    assert!(err.contains("marker file is not present"), "{err}");
    let args = parse_json("{ \"timeout_secs\": 5, \"filter\": \"x\" }").unwrap();
    let (runner, secs) =
        tool.plan(&args, &ProjectMarkers { cargo_toml: true, ..none() }).unwrap();
    assert_eq!((runner.command.as_str(), secs), ("cargo test 'x'", 5));
    assert_eq!(tool.update_text(&runner), "running: cargo test 'x'");
    assert_eq!(tool.cwd(), "/p");
    assert_eq!(tool.name(), "run_tests");
}

#[test]
fn jobs_are_listed_read_steered_and_killed() {
    let mut r = registry();
    assert_eq!(JobsTool.execute(&r).text, "no background jobs");
    let id = spawn_bash_job(&mut r, &"c".repeat(100), 1);
    assert_eq!(r.get(id).unwrap().description.len(), 80);
    let path = bash_job_output_path("/tmp", id);
    assert_eq!(path, format!("/tmp/pirs-job-{id}.log"));
    bash_job_started(&mut r, id, 77, &path);
    assert!(JobsTool.execute(&r).text.contains(&format!("#{id}")));
    match JobOutputTool.execute(&r, id) {
        Ok(JobOutput::InFile { status_line, path: p }) => {
            assert_eq!(p, path);
            let shown = JobOutputTool.finish(&status_line, Some("a\nb\nc\n"), Some(2));
            assert!(shown.text.ends_with("\n\nb\nc"));
            let empty = JobOutputTool.finish(&status_line, None, None);
            assert!(empty.text.ends_with("(no output yet)"));
        }
        other => panic!("{other:?}"),
    }
    assert_eq!(JobOutputTool.execute(&r, 99).unwrap_err(), "no such job: 99");
    assert!(JobSteerTool.execute(&mut r, id, "x").is_err());
    match JobKillTool.execute(&mut r, id) {
        Ok((pid, out)) => {
            assert_eq!(pid, Some(77));
            assert_eq!(out.text, format!("job {id} killed"));
        }
        Err(e) => panic!("{e}"),
    }
    assert_eq!(r.get(id).unwrap().status, JobStatus::Killed);
    assert!(JobKillTool.execute(&mut r, 99).is_err());
    assert_eq!(tail_of("a\nb", 1), "b");
    assert_eq!(tools().len(), 4);
    assert_eq!(JobsTool.name(), "jobs");
}

#[test]
fn an_agent_job_is_told_to_stop() {
    let mut r = registry();
    let id = r.register(JobKind::Agent, "think", "", None, 1);
    r.set_steer(id);
    assert_eq!(
        JobSteerTool.execute(&mut r, id, "left").unwrap().text,
        format!("steered job {id}")
    );
    assert!(JobKillTool.execute(&mut r, id).unwrap().0.is_none());
    assert_eq!(r.fetch_steering(id), vec!["left", "/cancel"]);
    r.set_progress_handle(id, "thinking");
    match JobOutputTool.execute(&r, id) {
        Ok(JobOutput::Ready(out)) => assert!(out.text.ends_with("\n\nthinking")),
        other => panic!("{other:?}"),
    }
}

#[test]
fn the_end_of_a_job_is_announced() {
    let mut r = registry();
    r.set_notifier();
    let id = spawn_bash_job(&mut r, "make", 1);
    bash_job_exited(&mut r, id, None, "make");
    assert_eq!(r.get(id).unwrap().status, JobStatus::Exited(-1));
    assert_eq!(
        r.fetch_notices(),
        vec![format!("background job #{id} exited (code -1): make")]
    );
}

#[test]
fn captures_stdout_and_exit() {
    let ok = Some(ExitInfo { success: true, code: Some(0) });
    let c = run_capture(ok, false, "hello\n".into(), "".into());
    assert!(c.success);
    assert!(c.stdout.contains("hello"));
    assert!(!c.timed_out);
}

#[test]
fn captures_failure_and_stderr() {
    let failed = Some(ExitInfo { success: false, code: Some(3) });
    let c = run_capture(failed, false, "".into(), "oops\n".into());
    assert!(!c.success);
    assert_eq!(c.code, Some(3));
    assert!(c.stderr.contains("oops"));
}

#[test]
fn timeout_kills_and_flags() {
    let c = run_capture(None, true, "".into(), "".into());
    assert!(c.timed_out);
    assert!(!c.success);
    let ended = Some(ExitInfo { success: true, code: Some(0) });
    assert!(!run_capture(ended, true, "".into(), "".into()).success);
    assert_eq!(spawn_error_text("x"), "spawn command: x");
}

#[test]
fn run_tests_parameters_are_a_schema() {
    let tool = RunTestsTool::new("/repo");
    assert_eq!(
        tool.parameters().to_text(),
        [
            "{\"additionalProperties\":false,\"properties\":{\"ecosystem\":{\"description\":",
            "\"Pin the ecosystem instead of auto-detecting.\",\"enum\":",
            "[\"rust\",\"go\",\"node\",\"python\",\"make\"],\"type\":\"string\"},",
            "\"filter\":{\"description\":\"Optional test name or substring to narrow the run.\",",
            "\"type\":\"string\"},\"timeout_secs\":{\"description\":",
            "\"Max seconds before the run is killed (default 300).\",\"type\":\"integer\"}},",
            "\"type\":\"object\"}",
        ]
        .concat()
    );
    assert_eq!(tool.execution_mode(), ExecutionMode::Sequential);
}
