use pirs::ai::message::{AssistantMessage, ContentBlock, StopReason};
use pirs::ai::routing::{
    options_for, probe_stream, BackendKind, BackendParts, CompletionOptions, ModelRoute, Probe,
    RouteStep, RoutingProvider, ServeTarget, StreamEvent,
};

/// What a provider was called with: the model, the key and the headers.
type Call = (String, Option<String>, Vec<(String, String)>);

fn route(alias: &str, serve: Vec<(&str, &str)>) -> ModelRoute {
    ModelRoute {
        alias: alias.into(),
        serve: serve
            .into_iter()
            .map(|(b, m)| ServeTarget { backend: b.into(), remote_model: m.into() })
            .collect(),
        tier: None,
        ctx: None,
    }
}

fn backend(
    name: &str,
    provider: &str,
    key: Option<&str>,
    headers: Vec<(&str, &str)>,
) -> BackendParts<String> {
    BackendParts {
        name: name.into(),
        provider: provider.into(),
        api_key: key.map(|k| k.into()),
        headers: headers.into_iter().map(|(k, v)| (k.into(), v.into())).collect(),
    }
}

fn ok_stream(text: &str) -> Vec<StreamEvent> {
    vec![
        StreamEvent::Start,
        StreamEvent::TextDelta(text.into()),
        StreamEvent::Done(Box::new(AssistantMessage {
            content: vec![ContentBlock::text(text)],
            stop_reason: StopReason::Stop,
            ..Default::default()
        })),
    ]
}

fn failing_stream(error: &str) -> Vec<StreamEvent> {
    vec![StreamEvent::Done(Box::new(AssistantMessage {
        content: vec![],
        stop_reason: StopReason::Error,
        error_message: Some(error.into()),
    }))]
}

/// Runs a request: `call` answers for a provider, and gets what it was called with.
fn stream(
    router: &RoutingProvider<String>,
    model: &str,
    options: &CompletionOptions,
    mut call: impl FnMut(&str, Call) -> Vec<StreamEvent>,
) -> Vec<StreamEvent> {
    let mut run = router.start(model);
    loop {
        let at = match run.next(false) {
            RouteStep::Finish(events) => return events,
            RouteStep::Try(at) => at,
        };
        let target = &run.targets[at];
        let opts = options_for(target, options);
        let events = call(
            target.provider,
            (target.remote_model.clone(), opts.api_key.clone(), opts.extra_headers.clone()),
        );
        let mut buffered: Vec<StreamEvent> = Vec::new();
        let mut rest = events.into_iter();
        let error = loop {
            match probe_stream(&mut buffered, rest.next()) {
                None => {}
                Some(Probe::Commit(mut seen)) => {
                    seen.extend(rest);
                    return seen;
                }
                Some(Probe::Fail(e)) => break e,
            }
        };
        run.failed(&error);
    }
}

fn two_aliases(default: &str, default_key: Option<&str>, title: bool) -> RoutingProvider<String> {
    RoutingProvider::new(
        default.to_string(),
        default_key.map(|k| k.to_string()),
        vec![],
        vec![
            backend(
                "openrouter",
                "or",
                Some("or-key"),
                if title { vec![("X-Title", "pirs")] } else { vec![] },
            ),
            backend("dashscope", "ds", Some("ds-key"), vec![]),
        ],
        vec![
            route("deepseek-v4-flash", vec![("openrouter", "deepseek/deepseek-v4-flash")]),
            route("qwen-plus", vec![("dashscope", "qwen3.5-plus")]),
        ],
    )
}

#[test]
fn routes_alias_to_backend_remote_model_and_key() {
    let router = two_aliases("def", Some("def-key"), true);
    let mut or: Vec<Call> = Vec::new();
    let mut ds: Vec<Call> = Vec::new();
    let mut def: Vec<Call> = Vec::new();
    for (model, key) in [
        ("deepseek-v4-flash", Some("cli-key-should-be-overridden")),
        ("qwen-plus", None),
        ("gpt-4o", None),
    ] {
        let options = CompletionOptions {
            api_key: key.map(|k| k.to_string()),
            ..Default::default()
        };
        stream(&router, model, &options, |provider, call| {
            match provider {
                "or" => or.push(call),
                "ds" => ds.push(call),
                "def" => def.push(call),
                _ => unreachable!(),
            }
            ok_stream("x")
        });
    }
    assert_eq!(or.len(), 1);
    assert_eq!(or[0].0, "deepseek/deepseek-v4-flash");
    assert_eq!(or[0].1.as_deref(), Some("or-key"));
    assert!(or[0].2.iter().any(|(k, v)| k == "X-Title" && v == "pirs"));

    assert_eq!(ds.len(), 1);
    assert_eq!(ds[0].0, "qwen3.5-plus");
    assert_eq!(ds[0].1.as_deref(), Some("ds-key"));

    assert_eq!(def.len(), 1);
    assert_eq!(def[0].0, "gpt-4o");
}

#[test]
fn strong_plan_weak_exec_aliases_use_distinct_backends() {
    let router = two_aliases("ds", None, false);
    let mut seen: Vec<(String, Call)> = Vec::new();
    for model in ["deepseek-v4-flash", "qwen-plus"] {
        stream(&router, model, &CompletionOptions::default(), |provider, call| {
            seen.push((provider.to_string(), call));
            ok_stream("x")
        });
    }
    assert_eq!(seen[0].0, "or");
    assert_eq!(seen[0].1 .0, "deepseek/deepseek-v4-flash");
    assert_eq!(seen[0].1 .1.as_deref(), Some("or-key"));
    assert_eq!(seen[1].0, "ds");
    assert_eq!(seen[1].1 .0, "qwen3.5-plus");
    assert_eq!(seen[1].1 .1.as_deref(), Some("ds-key"));
}

#[test]
fn failover_tries_second_serve_when_first_errors() {
    let router = RoutingProvider::new(
        "primary".to_string(),
        None,
        vec![],
        vec![
            backend("a", "primary", None, vec![]),
            backend("b", "secondary", Some("b-key"), vec![]),
        ],
        vec![route("flash", vec![("a", "model-a"), ("b", "model-b")])],
    );
    let mut primary = 0;
    let mut secondary = 0;
    let events = stream(&router, "flash", &CompletionOptions::default(), |provider, call| {
        if provider == "primary" {
            primary += 1;
            failing_stream("fail")
        } else {
            secondary += 1;
            ok_stream(&format!("{provider}:{}", call.0))
        }
    });
    let texts: Vec<String> = events
        .into_iter()
        .filter_map(|e| match e {
            StreamEvent::TextDelta(t) => Some(t),
            _ => None,
        })
        .collect();
    assert!(
        texts.iter().any(|t| t.contains("secondary:model-b")),
        "failover must reach secondary: {texts:?}"
    );
    assert_eq!(primary, 1);
    assert_eq!(secondary, 1);
}

#[test]
fn all_serve_targets_failing_surfaces_error() {
    let router = RoutingProvider::new(
        "a".to_string(),
        None,
        vec![],
        vec![backend("a", "a", None, vec![])],
        vec![route("x", vec![("a", "m1"), ("a", "m2")])],
    );
    let mut calls = 0;
    let events = stream(&router, "x", &CompletionOptions::default(), |_, _| {
        calls += 1;
        failing_stream(&format!("fail-{}", calls - 1))
    });
    let mut saw_error = false;
    for ev in events {
        if let StreamEvent::Error(e) = &ev {
            assert_eq!(e, "backend a model m2: fail-1");
            saw_error = true;
        }
        if let StreamEvent::Done(m) = ev {
            assert_eq!(m.stop_reason, StopReason::Error);
            assert_eq!(m.text(), "all serve targets failed: backend a model m2: fail-1");
        }
    }
    assert!(saw_error);
    assert_eq!(calls, 2);
}

#[test]
fn a_cancelled_request_ends_as_aborted() {
    let router = two_aliases("ds", None, false);
    match router.start("qwen-plus").next(true) {
        RouteStep::Finish(events) => {
            assert_eq!(events.len(), 1);
            match &events[0] {
                StreamEvent::Done(m) => assert_eq!(m.stop_reason, StopReason::Aborted),
                _ => panic!("expected the end"),
            }
        }
        RouteStep::Try(_) => panic!("must not try"),
    }
}

#[test]
fn an_alias_is_known_and_another_name_goes_to_the_default() {
    let router = two_aliases("ds", Some("k"), false);
    assert!(router.has_alias("qwen-plus"));
    assert!(!router.has_alias("qwen3.5-plus"));
    assert_eq!(router.aliases(), vec!["deepseek-v4-flash", "qwen-plus"]);
    let r = router.resolve("gpt-4o");
    assert_eq!(r.alias, None);
    assert_eq!(r.backend_name, "default");
    assert_eq!(r.remote_model, "gpt-4o");
    assert_eq!(r.api_key.as_deref(), Some("k"));
    let t = router.targets_for("qwen-plus");
    assert_eq!(t.len(), 1);
    assert_eq!(t[0].alias.as_deref(), Some("qwen-plus"));
    assert_eq!(t[0].provider, "ds");
}

#[test]
fn a_stream_is_committed_to_with_its_first_content() {
    let mut seen: Vec<StreamEvent> = Vec::new();
    assert!(probe_stream(&mut seen, Some(StreamEvent::Start)).is_none());
    match probe_stream(&mut seen, Some(StreamEvent::ThinkingDelta("hm".into()))) {
        Some(Probe::Commit(events)) => assert_eq!(events.len(), 2),
        other => panic!("expected a commitment, got {other:?}"),
    }
    let mut seen: Vec<StreamEvent> = Vec::new();
    match probe_stream(&mut seen, Some(StreamEvent::Error("e".into()))) {
        Some(Probe::Fail(e)) => assert_eq!(e, "e"),
        other => panic!("expected a failure, got {other:?}"),
    }
}

#[test]
fn backend_kinds_are_read() {
    assert_eq!(BackendKind::parse("openai_compatible"), Some(BackendKind::OpenaiCompatible));
    assert_eq!(BackendKind::parse("anthropic"), Some(BackendKind::Anthropic));
    assert_eq!(BackendKind::parse("smoke-signals"), None);
}
