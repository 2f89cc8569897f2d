//! The model registry as the chat gateway uses it: the user's configuration alone, with the
//! endpoint of the environment for every name that is no alias.

use vstd::prelude::*;

use crate::ai::routing::{BackendKind, RoutingProvider, RoutingView};
use crate::claw::secrets::{provider_and_key, resolve_provider_and_key};
use crate::config::{
    config_tree, configured, load_registry_text, models_in, registry_ok, ModelForm,
};
use crate::environ::Environ;
use crate::json::field;
pub use crate::registry::{BackendEntry, ModelEntry, RegistryFile, ServeEntry};
use crate::registry::{
    backend_key, backend_name, build_view, built, empty_registry, error_text, first_with,
    lemma_accepted, lemma_alias_has_route, lemma_first_with, lemma_routes_are_aliases, model_alias, BackendEntryView, ProviderSpec, ProviderView, RegistryError, RegistryErrorView,
    RegistryView,
};
use crate::text::chars::owned;
use crate::text::number::{decimal, usize_text};
use crate::text::path::{join_path, joined};
use crate::text::quote::{quoted, quoted_text};

verus! {

/// Where the user's configuration is: `.pirs/config.toml` below the home directory.
pub fn user_config_path(home: Option<&str>) -> (r: Option<String>)
    ensures
        match home {
            Some(h) => r.deep_view() == Some(joined(joined(h@, ".pirs"@), "config.toml"@)),
            None => r is None,
        },
{
    match home {
        Some(h) => Some(join_path(&join_path(h, ".pirs"), "config.toml")),
        None => None,
    }
}

/// The key of the primary backend of an alias.
pub open spec fn alias_key(
    reg: RegistryView,
    alias: Seq<char>,
    env: Map<Seq<char>, Seq<char>>,
) -> Option<Seq<char>> {
    match first_with(reg.models, model_alias(), alias) {
        None => None,
        Some(m) => if m.serve.len() == 0 {
            None
        } else {
            match first_with(reg.backends, backend_name(), m.serve[0].backend) {
                None => None,
                Some(b) => backend_key(b, env),
            }
        },
    }
}

/// A copy of the key that a backend finds in the environment.
fn key_of(b: &BackendEntry, env: &Environ) -> (r: Option<String>)
    ensures
        r.deep_view() == backend_key(b@, env@),
{
    match &b.api_key_env {
        Some(name) => match env.value(name) {
            Some(v) => Some(owned(v)),
            None => None,
        },
        None => None,
    }
}

/// The key of the primary backend of an alias.
pub fn api_key_for_alias(registry: &RegistryFile, alias: &str, env: &Environ) -> (r: Option<String>)
    ensures
        r.deep_view() == alias_key(registry@, alias@, env@),
{
    match crate::registry::find_model(&registry.models, alias) {
        None => None,
        Some(i) => {
            let m: &ModelEntry = &registry.models[i];
            assert(registry@.models[i as int] == m@);
            if m.serve.len() == 0 {
                return None;
            }
            assert(m@.serve[0] == m.serve@[0]@);
            match crate::registry::find_backend(&registry.backends, &m.serve[0].backend) {
                None => None,
                Some(j) => {
                    assert(registry@.backends[j as int] == registry.backends@[j as int]@);
                    key_of(&registry.backends[j], env)
                },
            }
        },
    }
}

/// The first key that one of the backends has.
pub open spec fn first_key(
    s: Seq<BackendEntryView>,
    env: Map<Seq<char>, Seq<char>>,
) -> Option<Seq<char>>
    decreases s.len(),
{
    if s.len() == 0 {
        None
    } else if backend_key(s[0], env) is Some {
        backend_key(s[0], env)
    } else {
        first_key(s.skip(1), env)
    }
}

/// The first key that one of the backends has.
pub fn first_available_backend_key(registry: &RegistryFile, env: &Environ) -> (r: Option<String>)
    ensures
        r.deep_view() == first_key(registry@.backends, env@),
{
    let ghost s = registry@.backends;
    let mut i: usize = 0;
    assert(s.skip(0) =~= s);
    while i < registry.backends.len()
        invariant
            i <= registry.backends@.len(),
            s == registry@.backends,
            first_key(s, env@) == first_key(s.skip(i as int), env@),
        decreases registry.backends@.len() - i,
    {
        proof {
            assert(s.skip(i as int)[0] == registry.backends@[i as int]@);
            assert(s.skip(i as int).skip(1) =~= s.skip(i + 1));
        }
        let key: Option<String> = key_of(&registry.backends[i], env);
        if key.is_some() {
            return key;
        }
        i = i + 1;
    }
    None
}

/// Turns a registry into a routing provider; without aliases there is nothing to route.
pub fn build_routing_provider(
    registry: &RegistryFile,
    default: ProviderSpec,
    default_api_key: Option<String>,
    max_retries: u32,
    env: &Environ,
) -> (r: Result<Option<RoutingProvider<ProviderSpec>>, RegistryError>)
    ensures
        build_view(r) == built(
            registry@,
            default@,
            default_api_key.deep_view(),
            max_retries,
            env@,
        ),
{
    crate::registry::build_routing_provider(registry, default, default_api_key, max_retries, env)
}

/// How an error reads here.
pub open spec fn gateway_error_text(e: RegistryErrorView) -> Seq<char> {
    match e {
        RegistryErrorView::UnknownBackend { alias, backend } => "model alias "@ + quoted_text(alias)
            + " serves unknown backend "@ + quoted_text(backend),
        _ => error_text(e),
    }
}

/// How an error reads here.
pub fn registry_error_message(e: &RegistryError) -> (r: String)
    ensures
        r@ == gateway_error_text(e@),
{
    match e {
        RegistryError::UnknownBackend { alias, backend } => {
            let mut out: String = owned("model alias ");
            out.append(&quoted(alias));
            out.append(" serves unknown backend ");
            out.append(&quoted(backend));
            out
        },
        _ => e.message(),
    }
}

/// Who answers for a model: one endpoint, or the routes of the registry.
pub enum LlmChoice {
    Single(ProviderSpec),
    Routed(RoutingProvider<ProviderSpec>),
}

/// Who answers for a model.
pub enum ChoiceView {
    Single(ProviderView),
    Routed(RoutingView<ProviderView>),
}

/// Who answers for a model, and with which key.
pub struct ResolvedLlm {
    pub choice: LlmChoice,
    pub key: Option<String>,
}

/// Who answers for a model, and with which key.
pub struct ResolvedLlmView {
    pub choice: ChoiceView,
    pub key: Option<Seq<char>>,
}

impl View for ResolvedLlm {
    type V = ResolvedLlmView;

    open spec fn view(&self) -> ResolvedLlmView {
        ResolvedLlmView {
            choice: match self.choice {
                LlmChoice::Single(p) => ChoiceView::Single(p@),
                LlmChoice::Routed(r) => ChoiceView::Routed(r@),
            },
            key: self.key.deep_view(),
        }
    }
}

/// The endpoint that the environment names.
pub open spec fn env_provider(
    env: Map<Seq<char>, Seq<char>>,
    max_retries: u32,
) -> ProviderView {
    ProviderView {
        kind: BackendKind::OpenaiCompatible,
        base_url: provider_and_key(env, true).0,
        max_retries,
        provider_name: None,
    }
}

/// Who answers for a model: the routes of the registry where the name is an alias there, with
/// the key of its primary backend, or of any backend, or of the environment; otherwise the
/// endpoint of the environment. A registry that cannot be used is an error either way.
pub open spec fn llm_for(
    model: Seq<char>,
    max_retries: u32,
    reg: RegistryView,
    env: Map<Seq<char>, Seq<char>>,
) -> Result<ResolvedLlmView, RegistryErrorView> {
    let default = env_provider(env, max_retries);
    let env_key = provider_and_key(env, true).1;
    let single = ResolvedLlmView { choice: ChoiceView::Single(default), key: env_key };
    match built(reg, default, env_key, max_retries, env) {
        Err(e) => Err(e),
        Ok(None) => Ok(single),
        Ok(Some(router)) => if router.routes.contains_key(model) {
            Ok(
                ResolvedLlmView {
                    choice: ChoiceView::Routed(router),
                    key: if alias_key(reg, model, env) is Some {
                        alias_key(reg, model, env)
                    } else if first_key(reg.backends, env) is Some {
                        first_key(reg.backends, env)
                    } else {
                        env_key
                    },
                },
            )
        } else {
            Ok(single)
        },
    }
}

/// Finds out who answers for a model.
pub fn resolve_llm(
    model: &str,
    max_retries: u32,
    registry: &RegistryFile,
    env: &Environ,
) -> (r: Result<ResolvedLlm, RegistryError>)
    ensures
        match r {
            Ok(l) => llm_for(model@, max_retries, registry@, env@) == Ok::<
                ResolvedLlmView,
                RegistryErrorView,
            >(l@),
            Err(e) => llm_for(model@, max_retries, registry@, env@) == Err::<
                ResolvedLlmView,
                RegistryErrorView,
            >(e@),
        },
{
    let (base, env_key) = resolve_provider_and_key(env);
    let default: ProviderSpec = ProviderSpec {
        kind: BackendKind::OpenaiCompatible,
        base_url: base,
        max_retries,
        provider_name: None,
    };
    match build_routing_provider(registry, default.clone(), env_key.clone(), max_retries, env) {
        Err(e) => Err(e),
        Ok(None) => Ok(ResolvedLlm { choice: LlmChoice::Single(default), key: env_key }),
        Ok(Some(router)) => {
            if router.has_alias(model) {
                let own: Option<String> = api_key_for_alias(registry, model, env);
                let any: Option<String> = first_available_backend_key(registry, env);
                let key: Option<String> = if own.is_some() {
                    own
                } else if any.is_some() {
                    any
                } else {
                    env_key
                };
                Ok(ResolvedLlm { choice: LlmChoice::Routed(router), key })
            } else {
                Ok(ResolvedLlm { choice: LlmChoice::Single(default), key: env_key })
            }
        },
    }
}

/// What is said where an alias of the registry answers.
pub fn alias_notice(model: &str, models: usize) -> (r: String)
    ensures
        r@ == "[pirs-claw registry: alias "@ + quoted_text(model@)
            + " via ~/.pirs/config.toml ("@ + decimal(models as nat) + " model(s))]"@,
{
    let mut out: String = owned("[pirs-claw registry: alias ");
    out.append(&quoted(model));
    out.append(" via ~/.pirs/config.toml (");
    out.append(&usize_text(models));
    out.append(" model(s))]");
    out
}

/// The registry in the text of the user's configuration file; nothing configured where the file is
/// missing or cannot be read.
pub fn load_user_registry(text: Option<&str>) -> (r: RegistryFile)
    ensures
        match text {
            Some(t) => match config_tree(t@) {
                Some(v) => configured(ModelForm::Gateway, v, r@),
                None => r@ == empty_registry(),
            },
            None => r@ == empty_registry(),
        },
{
    load_registry_text(ModelForm::Gateway, text)
}

/// Whether the text of a configuration file configures a model.
pub fn registry_file_has_models(text: Option<&str>) -> (r: bool)
    ensures
        r == (text matches Some(t) && config_tree(t@) matches Some(v) && registry_ok(
            ModelForm::Gateway,
            v,
        ) && models_in(ModelForm::Gateway, field(v, "models"@)).len() > 0),
{
    let registry: RegistryFile = load_user_registry(text);
    assert(registry@.models.len() == registry.models@.len());
    registry.models.len() > 0
}

/// The key of an alias is that of the backend by which it is served first: what the variable that
/// the backend names holds, where it holds anything.
pub proof fn lemma_alias_key(
    reg: RegistryView,
    i: int,
    n: int,
    env: Map<Seq<char>, Seq<char>>,
    variable: Seq<char>,
)
    requires
        0 <= i < reg.models.len(),
        forall|m: int| 0 <= m < i ==> (#[trigger] reg.models[m]).alias != reg.models[i].alias,
        reg.models[i].serve.len() > 0,
        0 <= n < reg.backends.len(),
        reg.backends[n].name == reg.models[i].serve[0].backend,
        forall|m: int| 0 <= m < n ==> (#[trigger] reg.backends[m]).name != reg.backends[n].name,
        reg.backends[n].api_key_env == Some(variable),
    ensures
        env.contains_key(variable) && env[variable].len() > 0 ==> alias_key(
            reg,
            reg.models[i].alias,
            env,
        ) == Some(env[variable]),
        !env.contains_key(variable) || env[variable].len() == 0 ==> alias_key(
            reg,
            reg.models[i].alias,
            env,
        ) is None,
{
    assert forall|m: int| 0 <= m < i implies model_alias()(#[trigger] reg.models[m])
        != model_alias()(reg.models[i]) by {}
    assert forall|m: int| 0 <= m < n implies backend_name()(#[trigger] reg.backends[m])
        != backend_name()(reg.backends[n]) by {}
    lemma_first_with(reg.models, model_alias(), i);
    lemma_first_with(reg.backends, backend_name(), n);
}

/// The first key is that of the first backend whose variable holds anything.
pub proof fn lemma_first_key(
    s: Seq<BackendEntryView>,
    env: Map<Seq<char>, Seq<char>>,
    n: int,
    variable: Seq<char>,
)
    requires
        0 <= n <= s.len(),
        forall|m: int|
            0 <= m < n ==> (#[trigger] s[m]).api_key_env is None || !env.contains_key(
                s[m].api_key_env->0,
            ) || env[s[m].api_key_env->0].len() == 0,
        n < s.len() ==> s[n].api_key_env == Some(variable) && env.contains_key(variable)
            && env[variable].len() > 0,
    ensures
        n < s.len() ==> first_key(s, env) == Some(env[variable]),
        n == s.len() ==> first_key(s, env) is None,
    decreases n,
{
    if s.len() > 0 && n > 0 {
        let r = s.skip(1);
        assert(s[0].api_key_env is None || !env.contains_key(s[0].api_key_env->0)
            || env[s[0].api_key_env->0].len() == 0);
        assert forall|m: int| 0 <= m < n - 1 implies (#[trigger] r[m]).api_key_env is None
            || !env.contains_key(r[m].api_key_env->0) || env[r[m].api_key_env->0].len() == 0 by {
            assert(r[m] == s[m + 1]);
        }
        if n < s.len() {
            assert(r[n - 1] == s[n]);
        }
        lemma_first_key(r, env, n - 1, variable);
    }
}

/// A name that is no alias is answered by the endpoint of the environment, with its key, where the
/// registry is in order.
pub proof fn lemma_no_alias(
    model: Seq<char>,
    max_retries: u32,
    reg: RegistryView,
    env: Map<Seq<char>, Seq<char>>,
)
    requires
        forall|i: int| 0 <= i < reg.models.len() ==> (#[trigger] reg.models[i]).alias != model,
        llm_for(model, max_retries, reg, env) is Ok,
    ensures
        ({
            let l = llm_for(model, max_retries, reg, env)->Ok_0;
            let (url, key) = provider_and_key(env, true);
            &&& l.choice is Single
            &&& l.choice->Single_0.base_url == url
            &&& l.choice->Single_0.kind == BackendKind::OpenaiCompatible
            &&& l.choice->Single_0.max_retries == max_retries
            &&& l.key == key
        }),
{
    let default = env_provider(env, max_retries);
    let env_key = provider_and_key(env, true).1;
    let b = built(reg, default, env_key, max_retries, env);
    if b is Ok && b->Ok_0 is Some {
        lemma_routes_are_aliases(reg, default, env_key, max_retries, env, model);
    }
}

/// An alias is answered by the routes of the registry: with the key of its first backend, or else
/// with the first key of any, or else with that of the environment.
pub proof fn lemma_alias_is_routed(
    max_retries: u32,
    reg: RegistryView,
    env: Map<Seq<char>, Seq<char>>,
    i: int,
)
    requires
        0 <= i < reg.models.len(),
        llm_for(reg.models[i].alias, max_retries, reg, env) is Ok,
    ensures
        ({
            let alias = reg.models[i].alias;
            let l = llm_for(alias, max_retries, reg, env)->Ok_0;
            let own = alias_key(reg, alias, env);
            let any = first_key(reg.backends, env);
            &&& l.choice is Routed
            &&& l.choice->Routed_0.routes.contains_key(alias)
            &&& own is Some ==> l.key == own
            &&& own is None && any is Some ==> l.key == any
            &&& own is None && any is None ==> l.key == provider_and_key(env, true).1
        }),
{
    let default = env_provider(env, max_retries);
    let env_key = provider_and_key(env, true).1;
    lemma_accepted(reg, default, env_key, max_retries, env);
    let b = built(reg, default, env_key, max_retries, env);
    if b is Ok && b->Ok_0 is Some {
        lemma_alias_has_route(reg, default, env_key, max_retries, env, i);
    }
}

/// How the errors of a registry read here: as elsewhere, but for an alias that names an unknown
/// backend.
pub proof fn lemma_gateway_errors(a: Seq<char>, b: Seq<char>)
    ensures
        gateway_error_text(RegistryErrorView::UnknownBackend { alias: a, backend: b })
            == "model alias "@ + quoted_text(a) + " serves unknown backend "@ + quoted_text(b),
        gateway_error_text(RegistryErrorView::UnknownKind { backend: a, kind: b }) == error_text(
            RegistryErrorView::UnknownKind { backend: a, kind: b },
        ),
        gateway_error_text(RegistryErrorView::EmptyServe { alias: a }) == error_text(
            RegistryErrorView::EmptyServe { alias: a },
        ),
{
}

} // verus!
