use pirs::ai::routing::BackendKind;
use pirs::claw::registry::{
    alias_notice, api_key_for_alias, first_available_backend_key, load_user_registry,
    registry_error_message, registry_file_has_models, resolve_llm, user_config_path, LlmChoice,
};
use pirs::config::{
    ignored_note, parse_from_config_value, parse_registry_toml, parse_toml, project_note,
    ConfigError, ModelForm,
};
use pirs::environ::Environ;
use pirs::json::parse_json;
use pirs::registry::{
    build_routing_provider, load_registry_layers, merge, project_is_trusted, trust_covers,
    unset_key_warnings, ProviderSpec, RegistryError, RegistryFile,
};

const SAMPLE: &str = r#"
[[backends]]
name = "openrouter"
kind = "openai_compatible"
base_url = "https://openrouter.ai/api/v1"
api_key_env = "OPENROUTER_API_KEY"
headers = { HTTP-Referer = "https://example.com", X-Title = "pirs" }

[[backends]]
name = "dashscope"
kind = "openai_compatible"
base_url = "https://coding-intl.dashscope.aliyuncs.com/v1"
api_key_env = "DASHSCOPE_API_KEY"

[[models]]
alias = "deepseek-v4-flash"
tier = "fast"
ctx = 1000000
serve = [
  { backend = "openrouter", model = "deepseek/deepseek-v4-flash" },
  { backend = "dashscope", model = "deepseek-v4-flash" },
]

[[models]]
alias = "qwen-plus"
serve = [{ backend = "dashscope", model = "qwen3.5-plus" }]
"#;

fn default_spec() -> ProviderSpec {
    ProviderSpec {
        kind: BackendKind::OpenaiCompatible,
        base_url: None,
        max_retries: 0,
        provider_name: None,
    }
}

#[test]
fn parses_backends_and_failover_serve_list() {
    let reg = parse_registry_toml(SAMPLE).unwrap();
    assert_eq!(reg.backends.len(), 2);
    let m = reg.models.iter().find(|m| m.alias == "deepseek-v4-flash").unwrap();
    assert_eq!(m.serve.len(), 2);
    assert_eq!(m.serve[0].backend, "openrouter");
    assert_eq!(m.serve[1].backend, "dashscope");
    assert_eq!(m.ctx, Some(1000000));
    assert_eq!(m.tier.as_deref(), Some("fast"));
    assert_eq!(reg.backends[0].headers.len(), 2);
    assert!(reg.backends[0].headers.iter().any(|(k, v)| k == "X-Title" && v == "pirs"));
}

#[test]
fn parse_from_full_config_ignores_other_keys() {
    let text = r#"
model = "qwen-plus"
provider = "openai"

[[backends]]
name = "dashscope"
kind = "openai_compatible"
base_url = "https://example.com/v1"
api_key_env = "DASHSCOPE_API_KEY"

[[models]]
alias = "qwen-plus"
serve = [{ backend = "dashscope", model = "qwen3.5-plus" }]
"#;
    let v = parse_toml(text).unwrap();
    let reg = parse_from_config_value(ModelForm::Full, &v);
    assert_eq!(reg.backends.len(), 1);
    assert_eq!(reg.models[0].alias, "qwen-plus");
}

#[test]
fn merge_prefers_overlay_alias() {
    let base = parse_registry_toml(
        r#"
[[models]]
alias = "x"
serve = [{ backend = "a", model = "old" }]
"#,
    )
    .unwrap();
    let over = parse_registry_toml(
        r#"
[[models]]
alias = "x"
serve = [{ backend = "b", model = "new" }]
"#,
    )
    .unwrap();
    let m = merge(base, over);
    assert_eq!(m.models.len(), 1);
    assert_eq!(m.models[0].serve[0].model, "new");
}

#[test]
fn build_routing_keeps_full_serve_chain() {
    let reg = parse_registry_toml(SAMPLE).unwrap();
    let env = Environ::new();
    let router = match build_routing_provider(&reg, default_spec(), None, 0, &env) {
        Ok(Some(router)) => router,
        _ => panic!("router"),
    };
    let targets = router.targets_for("deepseek-v4-flash");
    assert_eq!(targets.len(), 2);
    assert_eq!(targets[0].backend_name, "openrouter");
    assert_eq!(targets[1].backend_name, "dashscope");
}

#[test]
fn parse_sample_registry() {
    let sample = r#"
[[backends]]
name = "dashscope"
kind = "openai_compatible"
base_url = "https://example.com/v1"
api_key_env = "DASHSCOPE_API_KEY"

[[models]]
alias = "qwen3.5-plus"
serve = [{ backend = "dashscope", model = "qwen3.5-plus" }]
"#;
    let v = parse_toml(sample).unwrap();
    let reg = parse_from_config_value(ModelForm::Gateway, &v);
    assert_eq!(reg.backends.len(), 1);
    assert_eq!(reg.models.len(), 1);
    assert_eq!(reg.models[0].alias, "qwen3.5-plus");
}

#[test]
fn a_configuration_that_cannot_be_read_configures_nothing() {
    let no_url = "[[backends]]\nname = \"a\"\n";
    let v = parse_toml(no_url).unwrap();
    assert!(parse_from_config_value(ModelForm::Full, &v).backends.is_empty());
    assert!(parse_registry_toml(no_url).is_err());
    assert!(parse_registry_toml("= broken").is_err());
    assert!(load_user_registry(Some("= broken")).models.is_empty());
    assert!(load_user_registry(None).models.is_empty());
    let bad_headers =
        "[[backends]]\nname = \"a\"\nbase_url = \"u\"\nheaders = { a = 1 }\n";
    assert!(parse_registry_toml(bad_headers).is_err());
    assert!(parse_registry_toml("models = 3").is_err());
    assert!(parse_registry_toml("[[models]]\nalias = \"a\"\nserve = []\nctx = -1\n").is_err());
    assert!(parse_registry_toml("[[models]]\nalias = \"a\"\nserve = []\ncaps = [1]\n").is_err());
}

#[test]
fn a_date_in_a_configuration_is_a_text() {
    let text = "[[backends]]\nname = 1979-05-27\nbase_url = \"u\"\nheaders = { x = 07:32:00 }\n";
    let reg = parse_from_config_value(ModelForm::Full, &parse_toml(text).unwrap());
    assert_eq!(reg.backends.len(), 1);
    assert_eq!(reg.backends[0].name, "1979-05-27");
    assert_eq!(reg.backends[0].headers, vec![("x".to_string(), "07:32:00".to_string())]);
    let text = "[[models]]\nalias = 1979-05-27T07:32:00Z\n";
    assert_eq!(load_user_registry(Some(text)).models[0].alias, "1979-05-27T07:32:00Z");
    let text = "[[backends]]\nname = \"a\"\nbase_url = \"u\"\nheaders = 1979-05-27\n";
    assert!(load_user_registry(Some(text)).backends.is_empty());
    assert!(parse_registry_toml("[[backends]]\nname = 1979-05-27\nbase_url = \"u\"\n").is_err());
}

#[test]
fn a_refused_text_says_why() {
    match parse_registry_toml("= broken") {
        Err(e @ ConfigError::Toml(_)) => assert!(e.message().contains("line 1"), "{}", e.message()),
        _ => panic!("not TOML"),
    }
    match parse_registry_toml("models = 3") {
        Err(e @ ConfigError::Registry) => {
            assert_eq!(e.message(), "not a registry of backends and models")
        }
        _ => panic!("no registry"),
    }
}

#[test]
fn values_behind_the_last_member_are_overlooked_straight_out_of_a_text() {
    let text = "backends = [[\"a\", \"k\", \"u\", \"E\", { h = \"v\" }, 1, 2]]\n\
                models = [[\"m\", \"p\", \"t\", 3, [\"c\"], [[\"a\", \"r\", true]], 9]]\n";
    let reg = parse_registry_toml(text).unwrap();
    assert_eq!((reg.backends[0].name.as_str(), reg.backends[0].base_url.as_str()), ("a", "u"));
    assert_eq!(reg.models[0].serve[0].model, "r");
    let reg = parse_from_config_value(ModelForm::Full, &parse_toml(text).unwrap());
    assert!(reg.backends.is_empty() && reg.models.is_empty());
    let text = "backends = [[\"a\", \"k\", \"u\", \"E\", { h = \"v\" }]]\n";
    let reg = parse_from_config_value(ModelForm::Full, &parse_toml(text).unwrap());
    assert_eq!(reg.backends[0].kind, "k");
}

#[test]
fn an_ignored_configuration_is_noted() {
    let bad = parse_toml("[[backends]]\nname = \"a\"\n").unwrap();
    assert_eq!(
        ignored_note(ModelForm::Full, &bad, "missing field `base_url`").as_deref(),
        Some("[warning: backends/models in config.toml ignored: missing field `base_url`]")
    );
    assert_eq!(
        ignored_note(ModelForm::Gateway, &bad, "e").as_deref(),
        Some("[pirs-claw registry: parse warning: e]")
    );
    let bare = parse_toml("[[models]]\nalias = \"bare\"\n").unwrap();
    assert!(ignored_note(ModelForm::Full, &bare, "e").is_some());
    assert_eq!(ignored_note(ModelForm::Gateway, &bare, "e"), None);
    let other = parse_toml("model = 3\n").unwrap();
    assert_eq!(ignored_note(ModelForm::Full, &other, "e"), None);
}

#[test]
fn serve_may_be_missing_in_the_gateway_only() {
    let text = "[[models]]\nalias = \"bare\"\n";
    assert!(parse_registry_toml(text).is_err());
    let reg = load_user_registry(Some(text));
    assert_eq!(reg.models.len(), 1);
    assert!(reg.models[0].serve.is_empty());
    assert!(registry_file_has_models(Some(text)));
    assert!(!registry_file_has_models(Some("model = 1")));
    assert!(!registry_file_has_models(None));
}

#[test]
fn a_record_may_be_written_as_an_array() {
    let reg = parse_registry_toml(
        "backends = [[\"a\", \"anthropic\", \"u\", \"KEY\"]]\nmodels = [{ alias = \"m\", serve = [[\"a\", \"r\"]] }]\n",
    )
    .unwrap();
    assert_eq!(reg.backends[0].kind, "anthropic");
    assert_eq!(reg.backends[0].api_key_env.as_deref(), Some("KEY"));
    assert_eq!(reg.models[0].serve[0].model, "r");
    assert!(parse_registry_toml("backends = [[\"a\", \"anthropic\", \"u\"]]\n").is_err());
}

#[test]
fn a_project_without_trust_brings_no_backends() {
    let user = parse_registry_toml(SAMPLE).unwrap();
    let project = parse_registry_toml(
        "[[backends]]\nname = \"evil\"\nbase_url = \"u\"\n[[models]]\nalias = \"p\"\nserve = [{ backend = \"evil\", model = \"m\" }]\n",
    )
    .unwrap();
    assert_eq!(
        project_note(&project, "/p/.pirs/config.toml", true).as_deref(),
        Some("[model registry: loading 1 backend(s) from trusted project config /p/.pirs/config.toml]")
    );
    let note = project_note(&project, "/p/c.toml", false).unwrap();
    assert!(note.starts_with("[note: project /p/c.toml defines backends but is not trusted"));
    assert!(project_note(&RegistryFile::default(), "/p", false).is_none());
    let layered = load_registry_layers(user, Some(project), false);
    assert_eq!(layered.backends.len(), 2);
    assert!(layered.models.iter().any(|m| m.alias == "p"));
}

#[test]
fn a_trusted_project_brings_its_backends() {
    let user = parse_registry_toml(SAMPLE).unwrap();
    let project =
        parse_registry_toml("[[backends]]\nname = \"own\"\nbase_url = \"u\"\n").unwrap();
    assert_eq!(project.backends[0].kind, "openai_compatible");
    let layered = load_registry_layers(user, Some(project), true);
    assert_eq!(layered.backends.len(), 3);
    assert!(!trust_covers(&parse_json("[\"/p/ext\"]").unwrap(), "/p"));
    assert!(trust_covers(&parse_json("[\"/q\", \"/p#abc\"]").unwrap(), "/p"));
    assert!(!project_is_trusted("[\"/p/.pirs/extensions2#abc\"]", "/p/.pirs/extensions"));
    assert!(project_is_trusted("[\"/p/.pirs/extensions#abc\"]", "/p/.pirs/extensions"));
    assert!(!trust_covers(&parse_json("[\"/q\"]").unwrap(), "/p"));
    assert!(!trust_covers(&parse_json("[\"/p\", 3]").unwrap(), "/p"));
    assert!(project_is_trusted("[\"/p\"]", "/p"));
    assert!(!project_is_trusted("not json", "/p"));
}

#[test]
fn a_registry_with_a_mistake_is_refused() {
    let env = Environ::new();
    let build = |text: &str| {
        build_routing_provider(&parse_registry_toml(text).unwrap(), default_spec(), None, 0, &env)
    };
    match build("[[backends]]\nname = \"a\"\nkind = \"x\"\nbase_url = \"u\"\n[[models]]\nalias = \"m\"\nserve = [{ backend = \"a\", model = \"r\" }]\n") {
        Err(e @ RegistryError::UnknownKind { .. }) => assert!(e.message().contains("\"a\"")),
        _ => panic!("unknown kind"),
    }
    match build("[[models]]\nalias = \"m\"\nserve = []\n") {
        Err(e @ RegistryError::EmptyServe { .. }) => assert!(e.message().contains("\"m\"")),
        _ => panic!("empty serve"),
    }
    match build("[[models]]\nalias = \"m\"\nserve = [{ backend = \"gone\", model = \"r\" }]\n") {
        Err(e @ RegistryError::UnknownBackend { .. }) => {
            assert!(e.message().contains("\"gone\""));
            assert!(registry_error_message(&e).contains("gone"));
        }
        _ => panic!("unknown backend"),
    }
    assert!(matches!(build(""), Ok(None)));
}

#[test]
fn keys_come_from_the_environment() {
    let reg = parse_registry_toml(SAMPLE).unwrap();
    let mut env = Environ::new();
    let warnings = unset_key_warnings(&reg, &env);
    assert_eq!(warnings.len(), 2);
    assert!(warnings[0].contains("OPENROUTER_API_KEY"));
    assert_eq!(api_key_for_alias(&reg, "deepseek-v4-flash", &env), None);
    env.set_var("OPENROUTER_API_KEY", "k1");
    assert_eq!(unset_key_warnings(&reg, &env).len(), 1);
    assert_eq!(api_key_for_alias(&reg, "deepseek-v4-flash", &env).as_deref(), Some("k1"));
    assert_eq!(api_key_for_alias(&reg, "nobody", &env), None);
    assert_eq!(first_available_backend_key(&reg, &env).as_deref(), Some("k1"));
}

#[test]
fn an_alias_is_answered_by_the_registry_and_any_other_name_by_the_environment() {
    let reg = parse_registry_toml(SAMPLE).unwrap();
    let mut env = Environ::new();
    env.set_var("DEEPSEEK_API_KEY", "dk");
    env.set_var("OPENROUTER_API_KEY", "ok");
    match resolve_llm("deepseek-v4-flash", 2, &reg, &env) {
        Ok(l) => {
            assert!(matches!(l.choice, LlmChoice::Routed(_)));
            assert_eq!(l.key.as_deref(), Some("ok"));
        }
        Err(_) => panic!("must resolve"),
    }
    match resolve_llm("other", 2, &reg, &env) {
        Ok(l) => {
            match l.choice {
                LlmChoice::Single(p) => {
                    assert_eq!(p.base_url.as_deref(), Some("https://api.deepseek.com/v1"));
                    assert_eq!(p.max_retries, 2);
                }
                LlmChoice::Routed(_) => panic!("no alias"),
            }
            assert_eq!(l.key.as_deref(), Some("dk"));
        }
        Err(_) => panic!("must resolve"),
    }
    assert_eq!(
        alias_notice("m", 2),
        "[pirs-claw registry: alias \"m\" via ~/.pirs/config.toml (2 model(s))]"
    );
    assert_eq!(user_config_path(Some("/h")).as_deref(), Some("/h/.pirs/config.toml"));
    assert_eq!(user_config_path(None), None);
}
