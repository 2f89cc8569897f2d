use pirs::work::{
    apply_work_defaults, banner, build_work_agent, phase_scope_summary, pirs_args,
    pirs_candidates, resolve_work_strategy, usage_text, work_options, Phase, Step, Strategy,
    ToolScope, WorkArgs, WorkOptions, DEFAULT_MODEL, DEFAULT_PLAN_MODEL, DEFAULT_STRATEGY,
};

fn plan_exec() -> Strategy {
    Strategy {
        name: "plan-exec".into(),
        steps: vec![
            Step::Solo(Phase { scope: ToolScope::ReadOnly, model: None }),
            Step::Solo(Phase { scope: ToolScope::Full, model: None }),
        ],
    }
}

#[test]
fn defaults_are_coding_oriented() {
    let mut o = WorkOptions::default(None);
    o.model.clear();
    o.strategy.clear();
    o.plan_model = None;
    let o = apply_work_defaults(o);
    assert_eq!(o.model, DEFAULT_MODEL);
    assert_eq!(o.strategy, DEFAULT_STRATEGY);
    assert_eq!(o.plan_model.as_deref(), Some(DEFAULT_PLAN_MODEL));
}

#[test]
fn work_is_done_in_the_current_directory() {
    assert_eq!(WorkOptions::default(Some("/src")).cwd, "/src");
    assert_eq!(WorkOptions::default(None).cwd, ".");
}

#[test]
fn defaults_do_not_clobber_what_is_said() {
    let o = apply_work_defaults(WorkOptions {
        model: "m".into(),
        strategy: "s".into(),
        plan_model: Some("p".into()),
        prompt: Some("hi".into()),
        max_turns: None,
        sequential: true,
        ..WorkOptions::default(None)
    });
    assert_eq!((o.model.as_str(), o.strategy.as_str()), ("m", "s"));
    assert_eq!(o.plan_model.as_deref(), Some("p"));
    assert_eq!(o.prompt.as_deref(), Some("hi"));
    assert_eq!(o.max_turns, None);
    assert!(o.sequential);
    let empty = WorkOptions { plan_model: Some(String::new()), ..WorkOptions::default(None) };
    assert_eq!(apply_work_defaults(empty).plan_model.as_deref(), Some(DEFAULT_PLAN_MODEL));
}

#[test]
fn plan_exec_strategy_pins_plan_model_on_readonly_only() {
    let opts = WorkOptions {
        strategy: "plan-exec".into(),
        plan_model: Some("deepseek-v4-pro".into()),
        model: "qwen3.5-plus".into(),
        ..WorkOptions::default(None)
    };
    let s = resolve_work_strategy(&opts, Some(plan_exec())).expect("plan-exec builtin");
    assert_eq!(s.name, "plan-exec");
    let (ro, full, models) = phase_scope_summary(&s);
    assert!(ro >= 1, "need plan phase");
    assert!(full >= 1, "need exec phase");
    match &s.steps[0] {
        Step::Solo(p) => {
            assert_eq!(p.scope, ToolScope::ReadOnly);
            assert_eq!(p.model.as_deref(), Some("deepseek-v4-pro"));
        }
        _ => panic!("expected solo plan"),
    }
    match s.steps.last() {
        Some(Step::Solo(p)) => {
            assert_eq!(p.scope, ToolScope::Full);
            assert!(p.model.is_none(), "exec keeps run default model");
        }
        _ => panic!("expected solo exec"),
    }
    assert!(models.iter().any(|m| m.as_deref() == Some("deepseek-v4-pro")));
}

#[test]
fn branches_are_pinned_and_counted() {
    let s = Strategy {
        name: "fan".into(),
        steps: vec![
            Step::Fan {
                branches: vec![
                    Phase { scope: ToolScope::ReadOnly, model: None },
                    Phase { scope: ToolScope::Full, model: Some("own".into()) },
                ],
            },
            Step::Solo(Phase { scope: ToolScope::ReadOnly, model: None }),
        ],
    };
    let opts = WorkOptions { plan_model: Some("p".into()), ..WorkOptions::default(None) };
    let s = resolve_work_strategy(&opts, Some(s)).unwrap();
    let (ro, full, models) = phase_scope_summary(&s);
    assert_eq!((ro, full), (2, 1));
    let models: Vec<Option<&str>> = models.iter().map(|m| m.as_deref()).collect();
    assert_eq!(models, vec![Some("p"), Some("own"), Some("p")]);
}

#[test]
fn a_strategy_that_is_not_there_is_an_error() {
    let opts = WorkOptions { strategy: "nope".into(), ..WorkOptions::default(None) };
    assert_eq!(resolve_work_strategy(&opts, None).unwrap_err(), "unknown strategy \"nope\"");
    let bare = WorkOptions { plan_model: None, ..WorkOptions::default(None) };
    let s = resolve_work_strategy(&bare, Some(plan_exec())).unwrap();
    assert!(phase_scope_summary(&s).2.iter().all(|m| m.is_none()));
}

fn args(plan_model: &str, max_turns: Option<usize>, prompt: Vec<&str>) -> WorkArgs {
    WorkArgs {
        model: "m".into(),
        plan_model: plan_model.into(),
        strategy: "".into(),
        max_turns,
        sequential: false,
        prompt: prompt.into_iter().map(|s| s.to_string()).collect(),
    }
}

#[test]
fn a_command_line_is_read() {
    let o = work_options(args("", None, vec!["fix", "it"]), "/repo");
    assert_eq!(o.cwd, "/repo");
    assert_eq!(o.plan_model.as_deref(), Some(DEFAULT_PLAN_MODEL));
    assert_eq!(o.strategy, DEFAULT_STRATEGY);
    assert_eq!(o.prompt.as_deref(), Some("fix it"));
    assert_eq!(o.max_turns, Some(40));
    let o = work_options(args("p", Some(3), vec![]), ".");
    assert_eq!(o.prompt, None);
    assert_eq!(o.max_turns, Some(3));
    let agent = build_work_agent(&o);
    assert_eq!(agent.model, "m");
    assert_eq!(agent.max_turns, Some(3));
    assert!(agent.system_prompt.starts_with("You are pirs-work, a coding agent working in `.`.\n"));
    assert_eq!(
        banner(&o, &plan_exec()),
        "[pirs-work: cwd=. model=m plan_model=Some(\"p\") strategy=plan-exec phases=2]"
    );
    assert!(usage_text().ends_with(
        "defaults: model=qwen3.5-plus plan_model=deepseek-v4-pro strategy=plan-exec"
    ));
    assert_eq!(
        pirs_args(&o, "go"),
        vec![
            "--strategy",
            "plan-exec",
            "--model",
            "m",
            "--plan-model",
            "p",
            "--max-turns",
            "3",
            "go"
        ]
    );
}

#[test]
fn the_program_is_looked_for_in_order() {
    let path = vec!["/usr/bin".to_string(), "/bin/".to_string()];
    assert_eq!(
        pirs_candidates(Some("/opt/pirs"), Some("/target"), &path),
        vec!["/opt/pirs", "/target/pirs", "/usr/bin/pirs", "/bin/pirs"]
    );
    assert_eq!(pirs_candidates(None, None, &[]), Vec::<String>::new());
}
