//! Named backends and model aliases, as they are configured.
//!
//! The user's configuration comes first; that of a project is laid over it. A project that is
//! not trusted contributes aliases, but no backends.

use vstd::prelude::*;

use crate::ai::routing::{
    backend_table, kind_named, lemma_alias_leads, lemma_backend_table, lemma_kind_names,
    lemma_other_names, lemma_route_table, lemma_route_table_only, parts_view, route_table,
    routes_view, targets, targets_view, BackendKind, BackendParts, HandleView, ModelRoute, RouteView,
    RoutingProvider, RoutingView, ServeTarget, TargetView,
};
use crate::environ::{env_value, Environ};
use crate::json::{json_of_text, parse_json, text, Json, JsonView};
use crate::text::chars::{owned, same};
use crate::text::pairs::{copy_pairs, text_pairs};
use crate::text::quote::{quoted, quoted_text};
use crate::text::search::{starts, starts_with};

verus! {

/// The configured backends and model aliases.
#[derive(Debug, Clone)]
pub struct RegistryFile {
    pub backends: Vec<BackendEntry>,
    pub models: Vec<ModelEntry>,
}

/// A configured backend.
#[derive(Debug, Clone)]
pub struct BackendEntry {
    pub name: String,
    pub kind: String,
    pub base_url: String,
    pub api_key_env: Option<String>,
    pub headers: Vec<(String, String)>,
}

/// A configured model alias.
#[derive(Debug, Clone)]
pub struct ModelEntry {
    pub alias: String,
    pub persona: Option<String>,
    pub tier: Option<String>,
    pub ctx: Option<u64>,
    pub caps: Vec<String>,
    /// The first entry is the primary one, the rest are for failover.
    pub serve: Vec<ServeEntry>,
}

/// A backend, and the name of a model there.
#[derive(Debug, Clone)]
pub struct ServeEntry {
    pub backend: String,
    pub model: String,
}

pub struct BackendEntryView {
    pub name: Seq<char>,
    pub kind: Seq<char>,
    pub base_url: Seq<char>,
    pub api_key_env: Option<Seq<char>>,
    pub headers: Seq<(Seq<char>, Seq<char>)>,
}

pub struct ModelEntryView {
    pub alias: Seq<char>,
    pub persona: Option<Seq<char>>,
    pub tier: Option<Seq<char>>,
    pub ctx: Option<u64>,
    pub caps: Seq<Seq<char>>,
    pub serve: Seq<TargetView>,
}

pub struct RegistryView {
    pub backends: Seq<BackendEntryView>,
    pub models: Seq<ModelEntryView>,
}

impl View for BackendEntry {
    type V = BackendEntryView;

    open spec fn view(&self) -> BackendEntryView {
        BackendEntryView {
            name: self.name@,
            kind: self.kind@,
            base_url: self.base_url@,
            api_key_env: self.api_key_env.deep_view(),
            headers: text_pairs(self.headers@),
        }
    }
}

impl View for ServeEntry {
    type V = TargetView;

    open spec fn view(&self) -> TargetView {
        TargetView { backend: self.backend@, remote_model: self.model@ }
    }
}

/// What the serve entries are.
pub open spec fn serve_view(s: Seq<ServeEntry>) -> Seq<TargetView> {
    Seq::new(s.len(), |i: int| s[i]@)
}

impl View for ModelEntry {
    type V = ModelEntryView;

    open spec fn view(&self) -> ModelEntryView {
        ModelEntryView {
            alias: self.alias@,
            persona: self.persona.deep_view(),
            tier: self.tier.deep_view(),
            ctx: self.ctx,
            caps: self.caps.deep_view(),
            serve: serve_view(self.serve@),
        }
    }
}

/// What the backends are.
pub open spec fn backends_view(s: Seq<BackendEntry>) -> Seq<BackendEntryView> {
    Seq::new(s.len(), |i: int| s[i]@)
}

/// What the model aliases are.
pub open spec fn models_view(s: Seq<ModelEntry>) -> Seq<ModelEntryView> {
    Seq::new(s.len(), |i: int| s[i]@)
}

impl View for RegistryFile {
    type V = RegistryView;

    open spec fn view(&self) -> RegistryView {
        RegistryView {
            backends: backends_view(self.backends@),
            models: models_view(self.models@),
        }
    }
}

impl Default for RegistryFile {
    fn default() -> (r: RegistryFile)
        ensures
            r@ == empty_registry(),
    {
        let r: RegistryFile = RegistryFile { backends: Vec::new(), models: Vec::new() };
        assert(r@.backends =~= empty_registry().backends);
        assert(r@.models =~= empty_registry().models);
        r
    }
}

/// Nothing configured.
pub open spec fn empty_registry() -> RegistryView {
    RegistryView { backends: seq![], models: seq![] }
}

/// The kind of a backend that names none.
pub fn default_kind() -> (r: String)
    ensures
        r@ == "openai_compatible"@,
{
    owned("openai_compatible")
}

/// The first position at which an item has the given key.
pub open spec fn first_at<V>(
    s: Seq<V>,
    key: spec_fn(V) -> Seq<char>,
    k: Seq<char>,
) -> Option<nat>
    decreases s.len(),
{
    if s.len() == 0 {
        None
    } else if key(s[0]) == k {
        Some(0)
    } else {
        match first_at(s.skip(1), key, k) {
            Some(n) => Some(n + 1),
            None => None,
        }
    }
}

/// The first item with the given key.
pub open spec fn first_with<V>(s: Seq<V>, key: spec_fn(V) -> Seq<char>, k: Seq<char>) -> Option<V> {
    match first_at(s, key, k) {
        Some(n) => Some(s[n as int]),
        None => None,
    }
}

/// `v` in place of the first item with its key, or at the end.
pub open spec fn put<V>(s: Seq<V>, key: spec_fn(V) -> Seq<char>, v: V) -> Seq<V> {
    match first_at(s, key, key(v)) {
        Some(n) => s.update(n as int, v),
        None => s.push(v),
    }
}

/// The items of `over` put, one after the other, into `base`.
pub open spec fn overlaid<V>(base: Seq<V>, key: spec_fn(V) -> Seq<char>, over: Seq<V>) -> Seq<V>
    decreases over.len(),
{
    if over.len() == 0 {
        base
    } else {
        put(overlaid(base, key, over.drop_last()), key, over.last())
    }
}

/// The name of a backend.
pub open spec fn backend_name() -> spec_fn(BackendEntryView) -> Seq<char> {
    |b: BackendEntryView| b.name
}

/// The alias of a model.
pub open spec fn model_alias() -> spec_fn(ModelEntryView) -> Seq<char> {
    |m: ModelEntryView| m.alias
}

/// One registry laid over another.
pub open spec fn merged(base: RegistryView, over: RegistryView) -> RegistryView {
    RegistryView {
        backends: overlaid(base.backends, backend_name(), over.backends),
        models: overlaid(base.models, model_alias(), over.models),
    }
}

proof fn lemma_first_at<V>(s: Seq<V>, key: spec_fn(V) -> Seq<char>, k: Seq<char>)
    ensures
        match first_at(s, key, k) {
            Some(n) => n < s.len() && key(s[n as int]) == k && forall|i: int|
                0 <= i < n ==> key(#[trigger] s[i]) != k,
            None => forall|i: int| 0 <= i < s.len() ==> key(#[trigger] s[i]) != k,
        },
    decreases s.len(),
{
    if s.len() > 0 && key(s[0]) != k {
        let t = s.skip(1);
        lemma_first_at(t, key, k);
        match first_at(t, key, k) {
            Some(n) => {
                assert(s[n as int + 1] == t[n as int]);
                assert forall|i: int| 0 <= i < n + 1 implies key(#[trigger] s[i]) != k by {
                    if i > 0 {
                        assert(s[i] == t[i - 1]);
                    }
                }
            },
            None => {
                assert forall|i: int| 0 <= i < s.len() implies key(#[trigger] s[i]) != k by {
                    if i > 0 {
                        assert(s[i] == t[i - 1]);
                    }
                }
            },
        }
    }
}

proof fn lemma_first_at_is<V>(s: Seq<V>, key: spec_fn(V) -> Seq<char>, k: Seq<char>, n: int)
    requires
        0 <= n <= s.len(),
        forall|i: int| 0 <= i < n ==> key(#[trigger] s[i]) != k,
        n < s.len() ==> key(s[n]) == k,
    ensures
        first_at(s, key, k) == (if n < s.len() {
            Some(n as nat)
        } else {
            None
        }),
{
    lemma_first_at(s, key, k);
    match first_at(s, key, k) {
        Some(m) => {
            if m < n {
                assert(key(s[m as int]) != k);
            }
        },
        None => {},
    }
}

/// Where the first backend with the given name stands.
pub(crate) fn find_backend(s: &Vec<BackendEntry>, name: &str) -> (r: Option<usize>)
    ensures
        match r {
            Some(n) => first_at(backends_view(s@), backend_name(), name@) == Some(n as nat) && n
                < s@.len(),
            None => first_at(backends_view(s@), backend_name(), name@) is None,
        },
{
    let ghost v = backends_view(s@);
    let mut i: usize = 0;
    while i < s.len()
        invariant
            i <= s@.len(),
            v == backends_view(s@),
            forall|j: int| 0 <= j < i ==> backend_name()(#[trigger] v[j]) != name@,
        decreases s@.len() - i,
    {
        assert(v[i as int] == s@[i as int]@);
        if same(&s[i].name, name) {
            proof {
                lemma_first_at_is(v, backend_name(), name@, i as int);
            }
            return Some(i);
        }
        i = i + 1;
    }
    proof {
        lemma_first_at_is(v, backend_name(), name@, i as int);
    }
    None
}

/// Where the first model with the given alias stands.
pub(crate) fn find_model(s: &Vec<ModelEntry>, alias: &str) -> (r: Option<usize>)
    ensures
        match r {
            Some(n) => first_at(models_view(s@), model_alias(), alias@) == Some(n as nat) && n
                < s@.len(),
            None => first_at(models_view(s@), model_alias(), alias@) is None,
        },
{
    let ghost v = models_view(s@);
    let mut i: usize = 0;
    while i < s.len()
        invariant
            i <= s@.len(),
            v == models_view(s@),
            forall|j: int| 0 <= j < i ==> model_alias()(#[trigger] v[j]) != alias@,
        decreases s@.len() - i,
    {
        assert(v[i as int] == s@[i as int]@);
        if same(&s[i].alias, alias) {
            proof {
                lemma_first_at_is(v, model_alias(), alias@, i as int);
            }
            return Some(i);
        }
        i = i + 1;
    }
    proof {
        lemma_first_at_is(v, model_alias(), alias@, i as int);
    }
    None
}

/// Lays `over` over `base`: an entry replaces the one with its name or alias, or is added.
pub fn merge(base: RegistryFile, over: RegistryFile) -> (r: RegistryFile)
    ensures
        r@ == merged(base@, over@),
{
    let ghost bv = base@;
    let ghost ov = over@;
    let ghost ob = over.backends@;
    let ghost om = over.models@;
    let mut backends: Vec<BackendEntry> = base.backends;
    for b in it: over.backends
        invariant
            it.seq() == ob,
            backends_view(backends@) == overlaid(
                bv.backends,
                backend_name(),
                backends_view(ob).take(it.index()),
            ),
    {
        proof {
            let s = backends_view(ob).take(it.index() + 1);
            assert(s.drop_last() == backends_view(ob).take(it.index()));
            assert(s.last() == b@);
            assert(backends_view(backends@.push(b)) =~= backends_view(backends@).push(b@));
        }
        match find_backend(&backends, &b.name) {
            Some(i) => {
                proof {
                    assert(backends_view(backends@.update(i as int, b)) =~= backends_view(
                        backends@,
                    ).update(i as int, b@));
                }
                backends.set(i, b);
            },
            None => {
                backends.push(b);
            },
        }
    }
    assert(backends_view(ob).take(ob.len() as int) == backends_view(ob));
    let mut models: Vec<ModelEntry> = base.models;
    for m in it: over.models
        invariant
            it.seq() == om,
            models_view(models@) == overlaid(
                bv.models,
                model_alias(),
                models_view(om).take(it.index()),
            ),
    {
        proof {
            let s = models_view(om).take(it.index() + 1);
            assert(s.drop_last() == models_view(om).take(it.index()));
            assert(s.last() == m@);
            assert(models_view(models@.push(m)) =~= models_view(models@).push(m@));
        }
        match find_model(&models, &m.alias) {
            Some(i) => {
                proof {
                    assert(models_view(models@.update(i as int, m)) =~= models_view(
                        models@,
                    ).update(i as int, m@));
                }
                models.set(i, m);
            },
            None => {
                models.push(m);
            },
        }
    }
    assert(models_view(om).take(om.len() as int) == models_view(om));
    RegistryFile { backends, models }
}

/// Looking a key up after putting an item in gives that item, or what was there before.
proof fn lemma_put<V>(s: Seq<V>, key: spec_fn(V) -> Seq<char>, v: V, k: Seq<char>)
    ensures
        first_with(put(s, key, v), key, k) == (if k == key(v) {
            Some(v)
        } else {
            first_with(s, key, k)
        }),
{
    let p = put(s, key, v);
    lemma_first_at(s, key, key(v));
    lemma_first_at(s, key, k);
    let n: int = match first_at(s, key, k) {
        Some(m) => m as int,
        None => s.len() as int,
    };
    assert forall|i: int| 0 <= i < n implies key(#[trigger] p[i]) != k by {
        assert(key(s[i]) != k);
    }
    if first_at(s, key, k) is Some {
        lemma_first_at_is(p, key, k, n);
    } else if k == key(v) {
        lemma_first_at_is(p, key, k, n);
    } else {
        assert forall|i: int| 0 <= i < p.len() implies key(#[trigger] p[i]) != k by {
            if i < s.len() {
                assert(key(s[i]) != k);
            }
        }
        lemma_first_at_is(p, key, k, p.len() as int);
    }
}

/// The last item with the given key.
pub open spec fn last_with<V>(s: Seq<V>, key: spec_fn(V) -> Seq<char>, k: Seq<char>) -> Option<V>
    decreases s.len(),
{
    if s.len() == 0 {
        None
    } else if key(s.last()) == k {
        Some(s.last())
    } else {
        last_with(s.drop_last(), key, k)
    }
}

proof fn lemma_overlaid<V>(
    base: Seq<V>,
    key: spec_fn(V) -> Seq<char>,
    over: Seq<V>,
    k: Seq<char>,
)
    ensures
        first_with(overlaid(base, key, over), key, k) == (match last_with(over, key, k) {
            Some(v) => Some(v),
            None => first_with(base, key, k),
        }),
        overlaid(base, key, over).len() >= base.len(),
        forall|i: int|
            0 <= i < base.len() ==> key(#[trigger] overlaid(base, key, over)[i]) == key(base[i]),
    decreases over.len(),
{
    if over.len() > 0 {
        let o = overlaid(base, key, over.drop_last());
        lemma_overlaid(base, key, over.drop_last(), k);
        lemma_put(o, key, over.last(), k);
        lemma_first_at(o, key, key(over.last()));
        assert forall|i: int| 0 <= i < base.len() implies key(
            #[trigger] overlaid(base, key, over)[i],
        ) == key(base[i]) by {
            assert(key(o[i]) == key(base[i]));
        }
    }
}

/// After laying one registry over another, a name or alias of the upper one stands for what it
/// says there, and any other for what it said below; everything below keeps its place.
pub proof fn lemma_merge_prefers_overlay(base: RegistryView, over: RegistryView, k: Seq<char>)
    ensures
        first_with(merged(base, over).models, model_alias(), k) == (match last_with(
            over.models,
            model_alias(),
            k,
        ) {
            Some(m) => Some(m),
            None => first_with(base.models, model_alias(), k),
        }),
        first_with(merged(base, over).backends, backend_name(), k) == (match last_with(
            over.backends,
            backend_name(),
            k,
        ) {
            Some(b) => Some(b),
            None => first_with(base.backends, backend_name(), k),
        }),
        forall|i: int|
            0 <= i < base.models.len() ==> (#[trigger] merged(base, over).models[i]).alias
                == base.models[i].alias,
        forall|i: int|
            0 <= i < base.backends.len() ==> (#[trigger] merged(base, over).backends[i]).name
                == base.backends[i].name,
{
    lemma_overlaid(base.models, model_alias(), over.models, k);
    lemma_overlaid(base.backends, backend_name(), over.backends, k);
    assert forall|i: int| 0 <= i < base.models.len() implies (#[trigger] merged(
        base,
        over,
    ).models[i]).alias == base.models[i].alias by {
        assert(model_alias()(overlaid(base.models, model_alias(), over.models)[i]) == model_alias()(
            base.models[i],
        ));
    }
    assert forall|i: int| 0 <= i < base.backends.len() implies (#[trigger] merged(
        base,
        over,
    ).backends[i]).name == base.backends[i].name by {
        assert(backend_name()(overlaid(base.backends, backend_name(), over.backends)[i])
            == backend_name()(base.backends[i]));
    }
}

/// What is configured: the user's registry, and over it that of the project, without its
/// backends where the project is not trusted.
pub open spec fn layered(
    user: RegistryView,
    project: Option<RegistryView>,
    trusted: bool,
) -> RegistryView {
    let below = merged(empty_registry(), user);
    match project {
        None => below,
        Some(p) => merged(
            below,
            RegistryView {
                backends: if trusted {
                    p.backends
                } else {
                    seq![]
                },
                models: p.models,
            },
        ),
    }
}

/// Puts the layers of a configuration together.
pub fn load_registry_layers(
    user: RegistryFile,
    project: Option<RegistryFile>,
    trusted: bool,
) -> (r: RegistryFile)
    ensures
        r@ == layered(
            user@,
            match project {
                Some(p) => Some(p@),
                None => None,
            },
            trusted,
        ),
{
    let below: RegistryFile = merge(RegistryFile::default(), user);
    match project {
        None => below,
        Some(p) => {
            let backends: Vec<BackendEntry> = if trusted {
                p.backends
            } else {
                Vec::new()
            };
            let over: RegistryFile = RegistryFile { backends, models: p.models };
            proof {
                if !trusted {
                    assert(over@.backends =~= Seq::<BackendEntryView>::empty());
                }
            }
            merge(below, over)
        },
    }
}

/// A project that is not trusted has no say in which backends there are; its aliases count all
/// the same.
pub proof fn lemma_untrusted_project(user: RegistryView, project: RegistryView)
    ensures
        layered(user, Some(project), false).backends == layered(user, None, false).backends,
        layered(user, Some(project), false).models == layered(user, Some(project), true).models,
{
}

/// Whether a key of a trust list is that of a path: the path itself, or the path with `#` and a
/// hash behind it.
pub open spec fn is_key_of(key: Seq<char>, path: Seq<char>) -> bool {
    key == path || starts_with(key, path + "#"@)
}

/// Whether a trust list is a list of texts, one of which is a key of the path.
pub open spec fn covers(list: JsonView, path: Seq<char>) -> bool {
    match list {
        JsonView::Array(s) => (forall|i: int| 0 <= i < s.len() ==> #[trigger] s[i] is Text) && (
        exists|i: int|
            0 <= i < s.len() && #[trigger] s[i] is Text && is_key_of(s[i]->Text_0, path)),
        _ => false,
    }
}

/// Whether a trust list covers the path.
pub fn trust_covers(list: &Json, path: &str) -> (r: bool)
    ensures
        r == covers(list@, path@),
{
    match list.items() {
        None => false,
        Some(items) => {
            let ghost s = crate::json::item_trees(items@);
            let mut hashed: String = owned(path);
            hashed.append("#");
            let mut found: bool = false;
            let mut i: usize = 0;
            while i < items.len()
                invariant
                    i <= items@.len(),
                    s == crate::json::item_trees(items@),
                    s.len() == items@.len(),
                    list@ == JsonView::Array(s),
                    forall|j: int| 0 <= j < items@.len() ==> #[trigger] s[j] == items@[j]@,
                    forall|j: int| 0 <= j < i ==> #[trigger] s[j] is Text,
                    found == (exists|j: int|
                        0 <= j < i && #[trigger] s[j] is Text && is_key_of(s[j]->Text_0, path@)),
                    hashed@ == path@ + "#"@,
                decreases items@.len() - i,
            {
                assert(s[i as int] == items@[i as int]@);
                match items[i].as_str() {
                    Some(t) => {
                        assert(s[i as int] is Text);
                        if same(t, path) || starts(t, hashed.as_str()) {
                            found = true;
                        }
                    },
                    None => {
                        assert(!(s[i as int] is Text));
                        return false;
                    },
                }
                i = i + 1;
            }
            found
        },
    }
}

/// Whether the text of the trust file covers the path of a project's extensions.
pub fn project_is_trusted(trust_file: &str, extensions: &str) -> (r: bool)
    ensures
        r == (match json_of_text(trust_file@) {
            Some(list) => covers(list, extensions@),
            None => false,
        }),
{
    match parse_json(trust_file) {
        Some(list) => trust_covers(&list, extensions),
        None => false,
    }
}

/// The key of another directory does not make a path trusted, whatever its hash.
pub proof fn lemma_own_key(path: Seq<char>, other: Seq<char>, hash: Seq<char>)
    requires
        !path.contains('#'),
        !other.contains('#'),
        path != other,
    ensures
        !is_key_of(other + "#"@ + hash, path),
        !is_key_of(other, path),
{
    reveal_strlit("#");
    let key = other + "#"@ + hash;
    let mark = path + "#"@;
    assert(key[other.len() as int] == '#');
    assert(mark[path.len() as int] == '#');
    if key == path {
        assert(path.contains(key[other.len() as int]));
    }
    if starts_with(key, mark) {
        assert(key.take(mark.len() as int)[path.len() as int] == '#');
        if path.len() < other.len() {
            assert(other[path.len() as int] == '#');
        } else if other.len() < path.len() {
            assert(mark[other.len() as int] == key[other.len() as int]);
            assert(path[other.len() as int] == '#');
        } else {
            assert forall|i: int| 0 <= i < path.len() implies path[i] == other[i] by {
                assert(mark[i] == key.take(mark.len() as int)[i]);
            }
            assert(path =~= other);
        }
    }
    if starts_with(other, mark) {
        assert(other[path.len() as int] == other.take(mark.len() as int)[path.len() as int]);
    }
}

/// A provider that is to be set up.
#[derive(Debug)]
pub struct ProviderSpec {
    pub kind: BackendKind,
    pub base_url: Option<String>,
    pub max_retries: u32,
    pub provider_name: Option<String>,
}

/// What a provider is to be.
pub struct ProviderView {
    pub kind: BackendKind,
    pub base_url: Option<Seq<char>>,
    pub max_retries: u32,
    pub provider_name: Option<Seq<char>>,
}

impl View for ProviderSpec {
    type V = ProviderView;

    open spec fn view(&self) -> ProviderView {
        ProviderView {
            kind: self.kind,
            base_url: self.base_url.deep_view(),
            max_retries: self.max_retries,
            provider_name: self.provider_name.deep_view(),
        }
    }
}

impl Clone for ProviderSpec {
    fn clone(&self) -> (r: ProviderSpec)
        ensures
            r@ == self@,
    {
        ProviderSpec {
            kind: self.kind,
            base_url: self.base_url.clone(),
            max_retries: self.max_retries,
            provider_name: self.provider_name.clone(),
        }
    }
}

/// Why a registry cannot be used.
#[derive(Debug)]
pub enum RegistryError {
    UnknownKind { backend: String, kind: String },
    EmptyServe { alias: String },
    UnknownBackend { alias: String, backend: String },
}

/// Why a registry cannot be used.
pub enum RegistryErrorView {
    UnknownKind { backend: Seq<char>, kind: Seq<char> },
    EmptyServe { alias: Seq<char> },
    UnknownBackend { alias: Seq<char>, backend: Seq<char> },
}

impl View for RegistryError {
    type V = RegistryErrorView;

    open spec fn view(&self) -> RegistryErrorView {
        match self {
            RegistryError::UnknownKind { backend, kind } => RegistryErrorView::UnknownKind {
                backend: backend@,
                kind: kind@,
            },
            RegistryError::EmptyServe { alias } => RegistryErrorView::EmptyServe { alias: alias@ },
            RegistryError::UnknownBackend { alias, backend } => RegistryErrorView::UnknownBackend {
                alias: alias@,
                backend: backend@,
            },
        }
    }
}

/// How an error reads.
pub open spec fn error_text(e: RegistryErrorView) -> Seq<char> {
    match e {
        RegistryErrorView::UnknownKind { backend, kind } => "backend "@ + quoted_text(backend)
            + ": unknown kind "@ + quoted_text(kind),
        RegistryErrorView::EmptyServe { alias } => "model alias "@ + quoted_text(alias)
            + " has empty serve list"@,
        RegistryErrorView::UnknownBackend { alias, backend } => "model alias "@ + quoted_text(alias)
            + " serves backend "@ + quoted_text(backend)
            + " which is not defined in [[backends]]"@,
    }
}

impl RegistryError {
    /// How this error reads.
    pub fn message(&self) -> (r: String)
        ensures
            r@ == error_text(self@),
    {
        match self {
            RegistryError::UnknownKind { backend, kind } => {
                let mut out: String = owned("backend ");
                out.append(&quoted(backend));
                out.append(": unknown kind ");
                out.append(&quoted(kind));
                out
            },
            RegistryError::EmptyServe { alias } => {
                let mut out: String = owned("model alias ");
                out.append(&quoted(alias));
                out.append(" has empty serve list");
                out
            },
            RegistryError::UnknownBackend { alias, backend } => {
                let mut out: String = owned("model alias ");
                out.append(&quoted(alias));
                out.append(" serves backend ");
                out.append(&quoted(backend));
                out.append(" which is not defined in [[backends]]");
                out
            },
        }
    }
}

/// The key that a backend finds in the environment.
pub open spec fn backend_key(b: BackendEntryView, env: Map<Seq<char>, Seq<char>>) -> Option<Seq<char>> {
    match b.api_key_env {
        Some(name) => env_value(env, name),
        None => None,
    }
}

/// The provider that a backend of a known kind stands for.
pub open spec fn backend_provider(b: BackendEntryView, max_retries: u32) -> ProviderView {
    let kind = kind_named(b.kind)->0;
    ProviderView {
        kind,
        base_url: Some(b.base_url),
        max_retries,
        provider_name: if kind == BackendKind::OpenaiCompatible {
            Some(b.name)
        } else {
            None
        },
    }
}

/// A backend of a known kind with its provider.
pub open spec fn backend_handle(
    b: BackendEntryView,
    max_retries: u32,
    env: Map<Seq<char>, Seq<char>>,
) -> HandleView<ProviderView> {
    HandleView {
        name: b.name,
        provider: backend_provider(b, max_retries),
        api_key: backend_key(b, env),
        headers: b.headers,
    }
}

/// The backends with their providers.
pub open spec fn backend_handles(
    s: Seq<BackendEntryView>,
    max_retries: u32,
    env: Map<Seq<char>, Seq<char>>,
) -> Seq<HandleView<ProviderView>> {
    Seq::new(s.len(), |i: int| backend_handle(s[i], max_retries, env))
}

/// The first backend of an unknown kind is an error.
pub open spec fn kind_error(s: Seq<BackendEntryView>) -> Option<RegistryErrorView>
    decreases s.len(),
{
    if s.len() == 0 {
        None
    } else if kind_named(s[0].kind) is None {
        Some(RegistryErrorView::UnknownKind { backend: s[0].name, kind: s[0].kind })
    } else {
        kind_error(s.skip(1))
    }
}

/// Whether a backend is configured, or is the default one.
pub open spec fn is_known(s: Seq<BackendEntryView>, name: Seq<char>) -> bool {
    first_at(s, backend_name(), name) is Some || name == "default"@
}

/// The first serve entry with an unknown backend is an error.
pub open spec fn serve_error(
    backends: Seq<BackendEntryView>,
    alias: Seq<char>,
    serve: Seq<TargetView>,
) -> Option<RegistryErrorView>
    decreases serve.len(),
{
    if serve.len() == 0 {
        None
    } else if !is_known(backends, serve[0].backend) {
        Some(RegistryErrorView::UnknownBackend { alias, backend: serve[0].backend })
    } else {
        serve_error(backends, alias, serve.skip(1))
    }
}

/// The first error of the model aliases: one that serves nothing, or an unknown backend.
pub open spec fn models_error(
    backends: Seq<BackendEntryView>,
    models: Seq<ModelEntryView>,
) -> Option<RegistryErrorView>
    decreases models.len(),
{
    if models.len() == 0 {
        None
    } else if models[0].serve.len() == 0 {
        Some(RegistryErrorView::EmptyServe { alias: models[0].alias })
    } else {
        match serve_error(backends, models[0].alias, models[0].serve) {
            Some(e) => Some(e),
            None => models_error(backends, models.skip(1)),
        }
    }
}

/// The route of a model alias.
pub open spec fn model_route(m: ModelEntryView) -> RouteView {
    RouteView { alias: m.alias, serve: m.serve, tier: m.tier, ctx: m.ctx }
}

/// The routes of the model aliases.
pub open spec fn model_routes(s: Seq<ModelEntryView>) -> Seq<RouteView> {
    Seq::new(s.len(), |i: int| model_route(s[i]))
}

/// Whether some alias is served by the default backend.
pub open spec fn serves_default(models: Seq<ModelEntryView>) -> bool {
    exists|i: int, j: int|
        0 <= i < models.len() && 0 <= j < models[i].serve.len()
            && #[trigger] models[i].serve[j].backend == "default"@
}

/// The default provider with its key.
pub open spec fn default_handle(
    default: ProviderView,
    key: Option<Seq<char>>,
) -> HandleView<ProviderView> {
    HandleView { name: "default"@, provider: default, api_key: key, headers: seq![] }
}

/// What a registry comes to: nothing without aliases, its first error, or a routing provider
/// with its backends, and the default one where an alias asks for it.
pub open spec fn built(
    reg: RegistryView,
    default: ProviderView,
    key: Option<Seq<char>>,
    max_retries: u32,
    env: Map<Seq<char>, Seq<char>>,
) -> Result<Option<RoutingView<ProviderView>>, RegistryErrorView> {
    if reg.models.len() == 0 {
        Ok(None)
    } else {
        match kind_error(reg.backends) {
            Some(e) => Err(e),
            None => match models_error(reg.backends, reg.models) {
                Some(e) => Err(e),
                None => {
                    let handles = backend_handles(reg.backends, max_retries, env);
                    let all = if serves_default(reg.models) {
                        handles.push(default_handle(default, key))
                    } else {
                        handles
                    };
                    Ok(
                        Some(
                            RoutingView {
                                routes: route_table(model_routes(reg.models)),
                                backends: backend_table(all),
                                default: default_handle(default, key),
                            },
                        ),
                    )
                },
            },
        }
    }
}

/// The backends with their providers, or the first one of an unknown kind.
fn make_handles(
    backends: &Vec<BackendEntry>,
    max_retries: u32,
    env: &Environ,
) -> (r: Result<Vec<BackendParts<ProviderSpec>>, RegistryError>)
    ensures
        match r {
            Ok(v) => kind_error(backends_view(backends@)) is None && parts_view(v@)
                == backend_handles(backends_view(backends@), max_retries, env@),
            Err(e) => kind_error(backends_view(backends@)) == Some(e@),
        },
{
    let ghost s = backends_view(backends@);
    let mut out: Vec<BackendParts<ProviderSpec>> = Vec::new();
    let mut i: usize = 0;
    proof {
        assert(s.skip(0) == s);
        assert(parts_view(out@) =~= backend_handles(s, max_retries, env@).take(0));
    }
    while i < backends.len()
        invariant
            i <= backends@.len(),
            s == backends_view(backends@),
            kind_error(s) == kind_error(s.skip(i as int)),
            parts_view(out@) == backend_handles(s, max_retries, env@).take(i as int),
        decreases backends@.len() - i,
    {
        let b: &BackendEntry = &backends[i];
        proof {
            assert(s.skip(i as int)[0] == b@);
            assert(s.skip(i as int).skip(1) == s.skip(i + 1));
        }
        match BackendKind::parse(&b.kind) {
            None => {
                return Err(
                    RegistryError::UnknownKind { backend: owned(&b.name), kind: owned(&b.kind) },
                );
            },
            Some(kind) => {
                let api_key: Option<String> = match &b.api_key_env {
                    Some(name) => match env.value(name) {
                        Some(v) => Some(owned(v)),
                        None => None,
                    },
                    None => None,
                };
                let provider_name: Option<String> = match kind {
                    BackendKind::OpenaiCompatible => Some(owned(&b.name)),
                    BackendKind::Anthropic => None,
                };
                let p: BackendParts<ProviderSpec> = BackendParts {
                    name: owned(&b.name),
                    provider: ProviderSpec {
                        kind,
                        base_url: Some(owned(&b.base_url)),
                        max_retries,
                        provider_name,
                    },
                    api_key,
                    headers: copy_pairs(&b.headers),
                };
                proof {
                    let all = backend_handles(s, max_retries, env@);
                    assert(p@ == backend_handle(b@, max_retries, env@));
                    assert(all[i as int] == p@);
                    assert(parts_view(out@.push(p)) =~= parts_view(out@).push(p@));
                    assert(all.take(i + 1) =~= all.take(i as int).push(p@));
                }
                out.push(p);
            },
        }
        i = i + 1;
    }
    assert(backend_handles(s, max_retries, env@).take(i as int) =~= backend_handles(
        s,
        max_retries,
        env@,
    ));
    Ok(out)
}

/// The serve targets of an alias, or the first one with an unknown backend.
fn make_serve(backends: &Vec<BackendEntry>, m: &ModelEntry) -> (r: Result<
    Vec<ServeTarget>,
    RegistryError,
>)
    ensures
        match r {
            Ok(v) => serve_error(backends_view(backends@), m.alias@, m@.serve) is None
                && targets_view(v@) == m@.serve,
            Err(e) => serve_error(backends_view(backends@), m.alias@, m@.serve) == Some(e@),
        },
{
    let ghost bs = backends_view(backends@);
    let ghost s = m@.serve;
    let mut out: Vec<ServeTarget> = Vec::new();
    let mut i: usize = 0;
    proof {
        assert(s.skip(0) == s);
        assert(targets_view(out@) =~= s.take(0));
    }
    while i < m.serve.len()
        invariant
            i <= m.serve@.len(),
            s == m@.serve,
            bs == backends_view(backends@),
            serve_error(bs, m.alias@, s) == serve_error(bs, m.alias@, s.skip(i as int)),
            targets_view(out@) == s.take(i as int),
        decreases m.serve@.len() - i,
    {
        let e: &ServeEntry = &m.serve[i];
        proof {
            assert(s.skip(i as int)[0] == e@);
            assert(s.skip(i as int).skip(1) == s.skip(i + 1));
        }
        if find_backend(backends, &e.backend).is_none() && !same(&e.backend, "default") {
            return Err(
                RegistryError::UnknownBackend { alias: owned(&m.alias), backend: owned(&e.backend) },
            );
        }
        let t: ServeTarget = ServeTarget {
            backend: owned(&e.backend),
            remote_model: owned(&e.model),
        };
        proof {
            assert(t@ == e@);
            assert(targets_view(out@.push(t)) =~= targets_view(out@).push(t@));
            assert(s.take(i + 1) =~= s.take(i as int).push(t@));
        }
        out.push(t);
        i = i + 1;
    }
    assert(s.take(i as int) =~= s);
    Ok(out)
}

/// The routes of the model aliases, or their first error.
fn make_routes(backends: &Vec<BackendEntry>, models: &Vec<ModelEntry>) -> (r: Result<
    Vec<ModelRoute>,
    RegistryError,
>)
    ensures
        match r {
            Ok(v) => models_error(backends_view(backends@), models_view(models@)) is None
                && routes_view(v@) == model_routes(models_view(models@)),
            Err(e) => models_error(backends_view(backends@), models_view(models@)) == Some(e@),
        },
{
    let ghost bs = backends_view(backends@);
    let ghost s = models_view(models@);
    let mut out: Vec<ModelRoute> = Vec::new();
    let mut i: usize = 0;
    proof {
        assert(s.skip(0) == s);
        assert(routes_view(out@) =~= model_routes(s).take(0));
    }
    while i < models.len()
        invariant
            i <= models@.len(),
            s == models_view(models@),
            bs == backends_view(backends@),
            models_error(bs, s) == models_error(bs, s.skip(i as int)),
            routes_view(out@) == model_routes(s).take(i as int),
        decreases models@.len() - i,
    {
        let m: &ModelEntry = &models[i];
        proof {
            assert(s.skip(i as int)[0] == m@);
            assert(s.skip(i as int).skip(1) == s.skip(i + 1));
        }
        if m.serve.len() == 0 {
            return Err(RegistryError::EmptyServe { alias: owned(&m.alias) });
        }
        match make_serve(backends, m) {
            Err(e) => {
                return Err(e);
            },
            Ok(serve) => {
                let r: ModelRoute = ModelRoute {
                    alias: owned(&m.alias),
                    serve,
                    tier: m.tier.clone(),
                    ctx: m.ctx,
                };
                proof {
                    assert(r@ == model_route(m@));
                    assert(model_routes(s)[i as int] == r@);
                    assert(routes_view(out@.push(r)) =~= routes_view(out@).push(r@));
                    assert(model_routes(s).take(i + 1) =~= model_routes(s).take(i as int).push(
                        r@,
                    ));
                }
                out.push(r);
            },
        }
        i = i + 1;
    }
    assert(model_routes(s).take(i as int) =~= model_routes(s));
    Ok(out)
}

/// Whether some alias is served by the default backend.
fn uses_default(models: &Vec<ModelEntry>) -> (r: bool)
    ensures
        r == serves_default(models_view(models@)),
{
    let ghost s = models_view(models@);
    let mut i: usize = 0;
    while i < models.len()
        invariant
            i <= models@.len(),
            s == models_view(models@),
            forall|a: int, b: int|
                0 <= a < i && 0 <= b < s[a].serve.len() ==> #[trigger] s[a].serve[b].backend
                    != "default"@,
        decreases models@.len() - i,
    {
        let m: &ModelEntry = &models[i];
        let mut j: usize = 0;
        while j < m.serve.len()
            invariant
                i < models@.len(),
                m@ == s[i as int],
                j <= m.serve@.len(),
                s == models_view(models@),
                forall|b: int|
                    0 <= b < j ==> #[trigger] s[i as int].serve[b].backend != "default"@,
            decreases m.serve@.len() - j,
        {
            assert(s[i as int].serve[j as int] == m.serve@[j as int]@);
            if same(&m.serve[j].backend, "default") {
                assert(s[i as int].serve[j as int].backend == "default"@);
                return true;
            }
            j = j + 1;
        }
        i = i + 1;
    }
    false
}

/// What came of a registry.
pub open spec fn build_view(
    r: Result<Option<RoutingProvider<ProviderSpec>>, RegistryError>,
) -> Result<Option<RoutingView<ProviderView>>, RegistryErrorView> {
    match r {
        Ok(Some(p)) => Ok(Some(p@)),
        Ok(None) => Ok(None),
        Err(e) => Err(e@),
    }
}

/// Turns a registry into a routing provider; without aliases there is nothing to route.
pub fn build_routing_provider(
    registry: &RegistryFile,
    default: ProviderSpec,
    default_api_key: Option<String>,
    max_retries: u32,
    env: &Environ,
) -> (r: Result<Option<RoutingProvider<ProviderSpec>>, RegistryError>)
    ensures
        build_view(r) == built(
            registry@,
            default@,
            default_api_key.deep_view(),
            max_retries,
            env@,
        ),
{
    if registry.models.len() == 0 {
        return Ok(None);
    }
    let mut handles: Vec<BackendParts<ProviderSpec>> = match make_handles(
        &registry.backends,
        max_retries,
        env,
    ) {
        Ok(h) => h,
        Err(e) => {
            return Err(e);
        },
    };
    let routes: Vec<ModelRoute> = match make_routes(&registry.backends, &registry.models) {
        Ok(r) => r,
        Err(e) => {
            return Err(e);
        },
    };
    let ghost e = Seq::<(Seq<char>, Seq<char>)>::empty();
    if uses_default(&registry.models) {
        let p: BackendParts<ProviderSpec> = BackendParts {
            name: owned("default"),
            provider: default.clone(),
            api_key: default_api_key.clone(),
            headers: Vec::new(),
        };
        proof {
            assert(text_pairs(p.headers@) =~= e);
            assert(parts_view(handles@.push(p)) =~= parts_view(handles@).push(p@));
        }
        handles.push(p);
    }
    let none: Vec<(String, String)> = Vec::new();
    assert(text_pairs(none@) =~= e);
    Ok(Some(RoutingProvider::new(default, default_api_key, none, handles, routes)))
}

/// Where a registry is accepted, every serve entry of every alias has its backend, so nothing
/// of a serve list is lost on the way.
pub proof fn lemma_full_serve_chain(
    reg: RegistryView,
    default: ProviderView,
    key: Option<Seq<char>>,
    max_retries: u32,
    env: Map<Seq<char>, Seq<char>>,
    i: int,
    j: int,
)
    requires
        built(reg, default, key, max_retries, env) matches Ok(Some(_)),
        0 <= i < reg.models.len(),
        0 <= j < reg.models[i].serve.len(),
    ensures
        built(reg, default, key, max_retries, env)->Ok_0->0.backends.contains_key(
            reg.models[i].serve[j].backend,
        ),
{
    let handles = backend_handles(reg.backends, max_retries, env);
    let name = reg.models[i].serve[j].backend;
    lemma_models_known(reg.backends, reg.models, i, j);
    if first_at(reg.backends, backend_name(), name) is Some {
        lemma_first_at(reg.backends, backend_name(), name);
        let n = first_at(reg.backends, backend_name(), name)->0 as int;
        lemma_table_has(handles, n);
        assert(handles[n].name == name);
        let all = handles.push(default_handle(default, key));
        assert(all.drop_last() =~= handles);
    } else {
        assert(reg.models[i].serve[j].backend == "default"@);
        assert(serves_default(reg.models));
    }
}

proof fn lemma_table_has(s: Seq<HandleView<ProviderView>>, n: int)
    requires
        0 <= n < s.len(),
    ensures
        backend_table(s).contains_key(s[n].name),
    decreases s.len(),
{
    if n < s.len() - 1 {
        lemma_table_has(s.drop_last(), n);
    }
}

proof fn lemma_models_known(
    backends: Seq<BackendEntryView>,
    models: Seq<ModelEntryView>,
    i: int,
    j: int,
)
    requires
        models_error(backends, models) is None,
        0 <= i < models.len(),
        0 <= j < models[i].serve.len(),
    ensures
        is_known(backends, models[i].serve[j].backend),
    decreases models.len(),
{
    if i == 0 {
        lemma_serve_known(backends, models[0].alias, models[0].serve, j);
    } else {
        lemma_models_known(backends, models.skip(1), i - 1, j);
    }
}

proof fn lemma_serve_known(
    backends: Seq<BackendEntryView>,
    alias: Seq<char>,
    serve: Seq<TargetView>,
    j: int,
)
    requires
        serve_error(backends, alias, serve) is None,
        0 <= j < serve.len(),
    ensures
        is_known(backends, serve[j].backend),
    decreases serve.len(),
{
    if j > 0 {
        lemma_serve_known(backends, alias, serve.skip(1), j - 1);
    }
}

/// What is said of a backend whose key is not in the environment.
pub open spec fn key_warning(name: Seq<char>, var: Seq<char>) -> Seq<char> {
    "[warning: backend "@ + quoted_text(name) + " api_key_env "@ + quoted_text(var)
        + " is unset]"@
}

/// What is said of the backends whose keys are not in the environment.
pub open spec fn key_warnings(
    s: Seq<BackendEntryView>,
    env: Map<Seq<char>, Seq<char>>,
) -> Seq<Seq<char>>
    decreases s.len(),
{
    if s.len() == 0 {
        seq![]
    } else {
        let before = key_warnings(s.drop_last(), env);
        match s.last().api_key_env {
            Some(var) => if env_value(env, var) is None {
                before.push(key_warning(s.last().name, var))
            } else {
                before
            },
            None => before,
        }
    }
}

/// What is to be said of the backends whose keys are not in the environment.
pub fn unset_key_warnings(registry: &RegistryFile, env: &Environ) -> (r: Vec<String>)
    ensures
        r.deep_view() == key_warnings(registry@.backends, env@),
{
    let ghost s = registry@.backends;
    let mut out: Vec<String> = Vec::new();
    let mut i: usize = 0;
    assert(out.deep_view() =~= Seq::<Seq<char>>::empty());
    while i < registry.backends.len()
        invariant
            i <= registry.backends@.len(),
            s == registry@.backends,
            out.deep_view() == key_warnings(s.take(i as int), env@),
        decreases registry.backends@.len() - i,
    {
        let b: &BackendEntry = &registry.backends[i];
        proof {
            assert(s.take(i + 1).drop_last() =~= s.take(i as int));
            assert(s.take(i + 1).last() == b@);
        }
        if let Some(name) = &b.api_key_env {
            if env.value(name).is_none() {
                let mut w: String = owned("[warning: backend ");
                w.append(&quoted(&b.name));
                w.append(" api_key_env ");
                w.append(&quoted(name));
                w.append(" is unset]");
                let ghost before = out.deep_view();
                out.push(w);
                assert(out.deep_view() =~= before.push(w@));
            }
        }
        i = i + 1;
    }
    assert(s.take(i as int) =~= s);
    out
}

proof fn lemma_kinds_known(s: Seq<BackendEntryView>)
    ensures
        match kind_error(s) {
            None => forall|n: int| 0 <= n < s.len() ==> kind_named((#[trigger] s[n]).kind) is Some,
            Some(e) => exists|n: int|
                0 <= n < s.len() && e == (RegistryErrorView::UnknownKind {
                    backend: (#[trigger] s[n]).name,
                    kind: s[n].kind,
                }) && kind_named(s[n].kind) is None && forall|m: int|
                    0 <= m < n ==> kind_named((#[trigger] s[m]).kind) is Some,
        },
    decreases s.len(),
{
    if s.len() > 0 {
        let rest = s.skip(1);
        if kind_named(s[0].kind) is Some {
            lemma_kinds_known(rest);
            if kind_error(rest) is None {
                assert forall|n: int| 0 <= n < s.len() implies kind_named(
                    (#[trigger] s[n]).kind,
                ) is Some by {
                    if n > 0 {
                        assert(rest[n - 1] == s[n]);
                    }
                }
            } else {
                let e = kind_error(rest)->0;
                let n = choose|n: int|
                    0 <= n < rest.len() && e == (RegistryErrorView::UnknownKind {
                        backend: (#[trigger] rest[n]).name,
                        kind: rest[n].kind,
                    }) && kind_named(rest[n].kind) is None && forall|m: int|
                        0 <= m < n ==> kind_named((#[trigger] rest[m]).kind) is Some;
                assert(s[n + 1] == rest[n]);
                assert forall|m: int| 0 <= m < n + 1 implies kind_named(
                    (#[trigger] s[m]).kind,
                ) is Some by {
                    if m > 0 {
                        assert(rest[m - 1] == s[m]);
                    }
                }
            }
        } else {
            assert(s[0].name == s[0].name);
        }
    }
}

proof fn lemma_known(s: Seq<BackendEntryView>, name: Seq<char>)
    ensures
        is_known(s, name) <==> name == "default"@ || exists|n: int|
            0 <= n < s.len() && (#[trigger] s[n]).name == name,
{
    lemma_first_at(s, backend_name(), name);
}

proof fn lemma_serve_error(
    backends: Seq<BackendEntryView>,
    alias: Seq<char>,
    serve: Seq<TargetView>,
)
    ensures
        match serve_error(backends, alias, serve) {
            None => forall|j: int|
                0 <= j < serve.len() ==> is_known(backends, (#[trigger] serve[j]).backend),
            Some(e) => exists|j: int|
                0 <= j < serve.len() && e == (RegistryErrorView::UnknownBackend {
                    alias,
                    backend: (#[trigger] serve[j]).backend,
                }) && !is_known(backends, serve[j].backend),
        },
    decreases serve.len(),
{
    if serve.len() > 0 {
        let rest = serve.skip(1);
        if is_known(backends, serve[0].backend) {
            lemma_serve_error(backends, alias, rest);
            if serve_error(backends, alias, rest) is None {
                assert forall|j: int| 0 <= j < serve.len() implies is_known(
                    backends,
                    (#[trigger] serve[j]).backend,
                ) by {
                    if j > 0 {
                        assert(rest[j - 1] == serve[j]);
                    }
                }
            } else {
                let j = choose|j: int|
                    0 <= j < rest.len() && serve_error(backends, alias, rest)->0 == (
                    RegistryErrorView::UnknownBackend {
                        alias,
                        backend: (#[trigger] rest[j]).backend,
                    }) && !is_known(backends, rest[j].backend);
                assert(serve[j + 1] == rest[j]);
            }
        } else {
            assert(serve[0].backend == serve[0].backend);
        }
    }
}

/// Whether an alias has backends to be served by, all of which there are.
pub open spec fn is_served(backends: Seq<BackendEntryView>, m: ModelEntryView) -> bool {
    m.serve.len() > 0 && forall|j: int|
        0 <= j < m.serve.len() ==> (#[trigger] m.serve[j]).backend == "default"@ || exists|n: int|
            0 <= n < backends.len() && (#[trigger] backends[n]).name == m.serve[j].backend
}

proof fn lemma_models_served(backends: Seq<BackendEntryView>, models: Seq<ModelEntryView>)
    ensures
        match models_error(backends, models) {
            None => forall|i: int|
                0 <= i < models.len() ==> is_served(backends, #[trigger] models[i]),
            Some(e) => exists|i: int|
                0 <= i < models.len() && !is_served(backends, #[trigger] models[i]) && match e {
                    RegistryErrorView::EmptyServe { alias } => alias == models[i].alias
                        && models[i].serve.len() == 0,
                    RegistryErrorView::UnknownBackend { alias, backend } => alias
                        == models[i].alias && backend != "default"@ && (exists|j: int|
                        0 <= j < models[i].serve.len() && (#[trigger] models[i].serve[j]).backend
                            == backend) && (forall|n: int|
                        0 <= n < backends.len() ==> (#[trigger] backends[n]).name != backend),
                    _ => false,
                },
        },
    decreases models.len(),
{
    if models.len() > 0 {
        let m = models[0];
        let rest = models.skip(1);
        lemma_serve_error(backends, m.alias, m.serve);
        assert forall|j: int| 0 <= j < m.serve.len() implies (is_known(
            backends,
            (#[trigger] m.serve[j]).backend,
        ) <==> m.serve[j].backend == "default"@ || exists|n: int|
            0 <= n < backends.len() && (#[trigger] backends[n]).name == m.serve[j].backend) by {
            lemma_known(backends, m.serve[j].backend);
        }
        if m.serve.len() == 0 {
            assert(!is_served(backends, models[0]));
        } else if serve_error(backends, m.alias, m.serve) is Some {
            let j = choose|j: int|
                0 <= j < m.serve.len() && serve_error(backends, m.alias, m.serve)->0 == (
                RegistryErrorView::UnknownBackend {
                    alias: m.alias,
                    backend: (#[trigger] m.serve[j]).backend,
                }) && !is_known(backends, m.serve[j].backend);
            lemma_known(backends, m.serve[j].backend);
            assert(models[0].serve[j].backend == m.serve[j].backend);
            assert(!is_served(backends, models[0]));
        } else {
            lemma_models_served(backends, rest);
            if models_error(backends, rest) is None {
                assert forall|i: int| 0 <= i < models.len() implies is_served(
                    backends,
                    #[trigger] models[i],
                ) by {
                    if i > 0 {
                        assert(rest[i - 1] == models[i]);
                        assert(is_served(backends, rest[i - 1]));
                    }
                }
            } else {
                let e = models_error(backends, rest)->0;
                let i = choose|i: int|
                    0 <= i < rest.len() && !is_served(backends, #[trigger] rest[i]) && match e {
                        RegistryErrorView::EmptyServe { alias } => alias == rest[i].alias
                            && rest[i].serve.len() == 0,
                        RegistryErrorView::UnknownBackend { alias, backend } => alias
                            == rest[i].alias && backend != "default"@ && (exists|j: int|
                            0 <= j < rest[i].serve.len() && (#[trigger] rest[i].serve[j]).backend
                                == backend) && (forall|n: int|
                            0 <= n < backends.len() ==> (#[trigger] backends[n]).name != backend),
                        _ => false,
                    };
                assert(models[i + 1] == rest[i]);
                if let RegistryErrorView::UnknownBackend { alias, backend } = e {
                    let j = choose|j: int|
                        0 <= j < rest[i].serve.len() && (#[trigger] rest[i].serve[j]).backend
                            == backend;
                    assert(models[i + 1].serve[j].backend == backend);
                }
            }
        }
    }
}

/// A registry without aliases routes nothing. Any other is accepted where every backend is of a known
/// kind, and every alias is served by backends that there are; and it is refused for what is wrong
/// with it otherwise.
pub proof fn lemma_accepted(
    reg: RegistryView,
    default: ProviderView,
    key: Option<Seq<char>>,
    max_retries: u32,
    env: Map<Seq<char>, Seq<char>>,
)
    ensures
        ({
            let r = built(reg, default, key, max_retries, env);
            let kinds = forall|n: int|
                0 <= n < reg.backends.len() ==> ((#[trigger] reg.backends[n]).kind
                    == "openai_compatible"@ || reg.backends[n].kind == "openai-compatible"@
                    || reg.backends[n].kind == "openai"@ || reg.backends[n].kind == "anthropic"@);
            let serves = forall|i: int|
                0 <= i < reg.models.len() ==> is_served(reg.backends, #[trigger] reg.models[i]);
            &&& reg.models.len() == 0 ==> r == Ok::<
                Option<RoutingView<ProviderView>>,
                RegistryErrorView,
            >(None)
            &&& reg.models.len() > 0 && kinds && serves ==> (r is Ok && r->Ok_0 is Some)
            &&& reg.models.len() > 0 && !(kinds && serves) ==> r is Err
            &&& r matches Err(RegistryErrorView::UnknownKind { backend, kind }) ==> exists|n: int|
                0 <= n < reg.backends.len() && (#[trigger] reg.backends[n]).name == backend
                    && reg.backends[n].kind == kind && kind != "openai_compatible"@ && kind
                    != "openai-compatible"@ && kind != "openai"@ && kind != "anthropic"@
            &&& r matches Err(RegistryErrorView::EmptyServe { alias }) ==> exists|i: int|
                0 <= i < reg.models.len() && (#[trigger] reg.models[i]).alias == alias
                    && reg.models[i].serve.len() == 0
            &&& r matches Err(RegistryErrorView::UnknownBackend { alias, backend }) ==> backend
                != "default"@ && (forall|n: int|
                0 <= n < reg.backends.len() ==> (#[trigger] reg.backends[n]).name != backend) && (
            exists|i: int|
                0 <= i < reg.models.len() && (#[trigger] reg.models[i]).alias == alias && exists|
                    j: int,
                |
                    0 <= j < reg.models[i].serve.len() && (
                    #[trigger] reg.models[i].serve[j]).backend == backend)
        }),
{
    lemma_kinds_known(reg.backends);
    lemma_models_served(reg.backends, reg.models);
    assert forall|n: int| 0 <= n < reg.backends.len() implies (kind_named(
        (#[trigger] reg.backends[n]).kind,
    ) is Some <==> reg.backends[n].kind == "openai_compatible"@ || reg.backends[n].kind
        == "openai-compatible"@ || reg.backends[n].kind == "openai"@ || reg.backends[n].kind
        == "anthropic"@) by {
        lemma_kind_names(reg.backends[n].kind);
    }
}

/// Where a registry is accepted, a configured backend is reached under its name: at exactly its URL,
/// by the protocol of its kind, with the key that its variable holds, unless that is empty, with its
/// headers, and with as many retries as were asked for. Of two with one name the later counts. Only
/// the name `default`, where an alias is served by it, stands for the default provider.
pub proof fn lemma_configured_backend(
    reg: RegistryView,
    default: ProviderView,
    key: Option<Seq<char>>,
    max_retries: u32,
    env: Map<Seq<char>, Seq<char>>,
    n: int,
)
    requires
        built(reg, default, key, max_retries, env) matches Ok(Some(_)),
        0 <= n < reg.backends.len(),
        forall|m: int|
            n < m < reg.backends.len() ==> (#[trigger] reg.backends[m]).name
                != reg.backends[n].name,
        reg.backends[n].name == "default"@ ==> forall|i: int, j: int|
            0 <= i < reg.models.len() && 0 <= j < reg.models[i].serve.len()
                ==> #[trigger] reg.models[i].serve[j].backend != "default"@,
    ensures
        ({
            let b = reg.backends[n];
            let v = built(reg, default, key, max_retries, env)->Ok_0->0;
            let h = v.backends[b.name];
            &&& v.backends.contains_key(b.name)
            &&& h.name == b.name
            &&& h.provider.base_url == Some(b.base_url)
            &&& h.provider.max_retries == max_retries
            &&& h.headers == b.headers
            &&& b.kind == "anthropic"@ ==> h.provider.kind == BackendKind::Anthropic
                && h.provider.provider_name is None
            &&& b.kind != "anthropic"@ ==> h.provider.kind == BackendKind::OpenaiCompatible
                && h.provider.provider_name == Some(b.name)
            &&& b.api_key_env is None ==> h.api_key is None
            &&& b.api_key_env matches Some(var) ==> h.api_key == if env.contains_key(var)
                && env[var].len() > 0 {
                Some(env[var])
            } else {
                None
            }
        }),
{
    let b = reg.backends[n];
    let handles = backend_handles(reg.backends, max_retries, env);
    let all = if serves_default(reg.models) {
        handles.push(default_handle(default, key))
    } else {
        handles
    };
    lemma_kinds_known(reg.backends);
    assert(kind_named(reg.backends[n].kind) is Some);
    lemma_kind_names(b.kind);
    assert(all[n] == backend_handle(b, max_retries, env));
    assert forall|m: int| n < m < all.len() implies (#[trigger] all[m]).name != all[n].name by {
        if m < handles.len() {
            assert(all[m] == backend_handle(reg.backends[m], max_retries, env));
        }
    }
    lemma_backend_table(all, n);
}

/// Where a registry is accepted, an alias leads to what the last model with that alias is served by,
/// in that order: each time to the model's name there, and to the URL and the headers of the last
/// backend with that name.
pub proof fn lemma_configured_alias(
    reg: RegistryView,
    default: ProviderView,
    key: Option<Seq<char>>,
    max_retries: u32,
    env: Map<Seq<char>, Seq<char>>,
    i: int,
    j: int,
)
    requires
        built(reg, default, key, max_retries, env) matches Ok(Some(_)),
        0 <= i < reg.models.len(),
        forall|m: int|
            i < m < reg.models.len() ==> (#[trigger] reg.models[m]).alias != reg.models[i].alias,
        0 <= j < reg.models[i].serve.len(),
    ensures
        ({
            let m = reg.models[i];
            let v = built(reg, default, key, max_retries, env)->Ok_0->0;
            let r = v.routes[m.alias];
            let ts = targets(v, m.alias);
            &&& v.routes.contains_key(m.alias)
            &&& r.alias == m.alias && r.tier == m.tier && r.ctx == m.ctx && r.serve == m.serve
            &&& ts.len() == m.serve.len()
            &&& ts[j].alias == Some(m.alias)
            &&& ts[j].remote_model == m.serve[j].remote_model
            &&& m.serve[j].backend == "default"@ ==> ts[j].provider == default && ts[j].api_key
                == key && ts[j].headers.len() == 0
            &&& forall|n: int|
                0 <= n < reg.backends.len() && (#[trigger] reg.backends[n]).name
                    == m.serve[j].backend && m.serve[j].backend != "default"@ && (forall|k: int|
                    n < k < reg.backends.len() ==> (#[trigger] reg.backends[k]).name
                        != m.serve[j].backend) ==> ts[j].backend_name == reg.backends[n].name
                    && ts[j].provider.base_url == Some(reg.backends[n].base_url) && ts[j].headers
                    == reg.backends[n].headers
        }),
{
    let m = reg.models[i];
    let v = built(reg, default, key, max_retries, env)->Ok_0->0;
    let routes = model_routes(reg.models);
    assert(routes[i] == model_route(m));
    assert forall|k: int| i < k < routes.len() implies (#[trigger] routes[k]).alias
        != routes[i].alias by {
        assert(routes[k] == model_route(reg.models[k]));
    }
    lemma_route_table(routes, i);
    assert forall|k: int| 0 <= k < v.routes[m.alias].serve.len() implies v.backends.contains_key(
        (#[trigger] v.routes[m.alias].serve[k]).backend,
    ) by {
        lemma_full_serve_chain(reg, default, key, max_retries, env, i, k);
    }
    lemma_alias_leads(v, m.alias, j);
    if m.serve[j].backend == "default"@ {
        assert(reg.models[i].serve[j].backend == "default"@);
        assert(serves_default(reg.models));
        let all = backend_handles(reg.backends, max_retries, env).push(
            default_handle(default, key),
        );
        lemma_backend_table(all, all.len() - 1);
    }
    assert forall|n: int|
        0 <= n < reg.backends.len() && (#[trigger] reg.backends[n]).name == m.serve[j].backend
            && m.serve[j].backend != "default"@ && (forall|k: int|
            n < k < reg.backends.len() ==> (#[trigger] reg.backends[k]).name
                != m.serve[j].backend) implies targets(v, m.alias)[j].backend_name
        == reg.backends[n].name && targets(v, m.alias)[j].provider.base_url == Some(
        reg.backends[n].base_url,
    ) && targets(v, m.alias)[j].headers == reg.backends[n].headers by {
        lemma_configured_backend(reg, default, key, max_retries, env, n);
    }
}

/// Where a registry is accepted, there are no routes but those of its aliases, and any other name
/// goes to the default provider with the default key.
pub proof fn lemma_other_models(
    reg: RegistryView,
    default: ProviderView,
    key: Option<Seq<char>>,
    max_retries: u32,
    env: Map<Seq<char>, Seq<char>>,
    name: Seq<char>,
)
    requires
        built(reg, default, key, max_retries, env) matches Ok(Some(_)),
        forall|i: int| 0 <= i < reg.models.len() ==> (#[trigger] reg.models[i]).alias != name,
    ensures
        ({
            let ts = targets(built(reg, default, key, max_retries, env)->Ok_0->0, name);
            &&& ts.len() == 1
            &&& ts[0].alias is None
            &&& ts[0].remote_model == name
            &&& ts[0].provider == default
            &&& ts[0].api_key == key
            &&& ts[0].headers.len() == 0
        }),
{
    let v = built(reg, default, key, max_retries, env)->Ok_0->0;
    let routes = model_routes(reg.models);
    if v.routes.contains_key(name) {
        lemma_route_table_only(routes, name);
        let n = choose|n: int| 0 <= n < routes.len() && (#[trigger] routes[n]).alias == name;
        assert(routes[n] == model_route(reg.models[n]));
    }
    lemma_other_names(v, name);
}

proof fn lemma_overlaid_keeps<V>(
    base: Seq<V>,
    key: spec_fn(V) -> Seq<char>,
    over: Seq<V>,
    i: int,
)
    requires
        0 <= i < base.len(),
        forall|j: int| 0 <= j < over.len() ==> key(#[trigger] over[j]) != key(base[i]),
    ensures
        overlaid(base, key, over).len() >= base.len(),
        overlaid(base, key, over)[i] == base[i],
    decreases over.len(),
{
    if over.len() > 0 {
        let before = over.drop_last();
        assert forall|j: int| 0 <= j < before.len() implies key(#[trigger] before[j]) != key(
            base[i],
        ) by {
            assert(before[j] == over[j]);
        }
        lemma_overlaid_keeps(base, key, before, i);
        let o = overlaid(base, key, before);
        lemma_first_at(o, key, key(over.last()));
        assert(over[over.len() - 1] == over.last());
    }
}

proof fn lemma_overlaid_from<V>(base: Seq<V>, key: spec_fn(V) -> Seq<char>, over: Seq<V>, i: int)
    requires
        0 <= i < overlaid(base, key, over).len(),
    ensures
        base.contains(overlaid(base, key, over)[i]) || over.contains(overlaid(base, key, over)[i]),
    decreases over.len(),
{
    if over.len() > 0 {
        let before = over.drop_last();
        let o = overlaid(base, key, before);
        let all = overlaid(base, key, over);
        lemma_first_at(o, key, key(over.last()));
        assert(over[over.len() - 1] == over.last());
        if all[i] != over.last() {
            assert(all[i] == o[i]);
            lemma_overlaid_from(base, key, before, i);
            if before.contains(o[i]) {
                let j = choose|j: int| 0 <= j < before.len() && before[j] == o[i];
                assert(over[j] == o[i]);
            }
        }
    }
}

proof fn lemma_overlaid_counts<V>(
    base: Seq<V>,
    key: spec_fn(V) -> Seq<char>,
    over: Seq<V>,
    n: int,
) -> (i: int)
    requires
        0 <= n < over.len(),
        forall|j: int| n < j < over.len() ==> key(#[trigger] over[j]) != key(over[n]),
    ensures
        0 <= i < overlaid(base, key, over).len(),
        overlaid(base, key, over)[i] == over[n],
        forall|j: int| 0 <= j < i ==> key(#[trigger] overlaid(base, key, over)[j]) != key(over[n]),
    decreases over.len(),
{
    let before = over.drop_last();
    let o = overlaid(base, key, before);
    lemma_first_at(o, key, key(over.last()));
    assert(over[over.len() - 1] == over.last());
    if n == over.len() - 1 {
        match first_at(o, key, key(over.last())) {
            Some(m) => {
                assert forall|j: int| 0 <= j < m implies key(
                    #[trigger] overlaid(base, key, over)[j],
                ) != key(over[n]) by {
                    assert(key(o[j]) != key(over[n]));
                }
                m as int
            },
            None => {
                assert forall|j: int| 0 <= j < o.len() implies key(
                    #[trigger] overlaid(base, key, over)[j],
                ) != key(over[n]) by {
                    assert(key(o[j]) != key(over[n]));
                }
                o.len() as int
            },
        }
    } else {
        assert forall|j: int| n < j < before.len() implies key(#[trigger] before[j]) != key(
            before[n],
        ) by {
            assert(before[j] == over[j]);
        }
        let i = lemma_overlaid_counts(base, key, before, n);
        assert(key(o[i]) == key(over[n]));
        assert(key(over.last()) != key(over[n]));
        assert forall|j: int| 0 <= j < i implies key(#[trigger] overlaid(base, key, over)[j]) != key(
            over[n],
        ) by {
            assert(key(o[j]) != key(over[n]));
        }
        i
    }
}

/// Laying one registry over another, entry by entry: what the upper one says last of a name or an
/// alias is what is found first under it; what only the lower one names stays where it was; and
/// nothing is there that neither of them holds.
pub proof fn lemma_merge_entries(base: RegistryView, over: RegistryView, n: int, i: int, j: int)
    ensures
        0 <= n < over.models.len() && (forall|m: int|
            n < m < over.models.len() ==> (#[trigger] over.models[m]).alias != over.models[n].alias)
            ==> exists|k: int|
            0 <= k < merged(base, over).models.len() && #[trigger] merged(base, over).models[k]
                == over.models[n] && forall|m: int|
                0 <= m < k ==> (#[trigger] merged(base, over).models[m]).alias
                    != over.models[n].alias,
        0 <= n < over.backends.len() && (forall|m: int|
            n < m < over.backends.len() ==> (#[trigger] over.backends[m]).name
                != over.backends[n].name) ==> exists|k: int|
            0 <= k < merged(base, over).backends.len() && #[trigger] merged(base, over).backends[k]
                == over.backends[n] && forall|m: int|
                0 <= m < k ==> (#[trigger] merged(base, over).backends[m]).name
                    != over.backends[n].name,
        0 <= i < base.models.len() && (forall|m: int|
            0 <= m < over.models.len() ==> (#[trigger] over.models[m]).alias != base.models[i].alias)
            ==> i < merged(base, over).models.len() && merged(base, over).models[i] == base.models[i],
        0 <= i < base.backends.len() && (forall|m: int|
            0 <= m < over.backends.len() ==> (#[trigger] over.backends[m]).name
                != base.backends[i].name) ==> i < merged(base, over).backends.len() && merged(
            base,
            over,
        ).backends[i] == base.backends[i],
        0 <= j < merged(base, over).models.len() ==> base.models.contains(
            merged(base, over).models[j],
        ) || over.models.contains(merged(base, over).models[j]),
        0 <= j < merged(base, over).backends.len() ==> base.backends.contains(
            merged(base, over).backends[j],
        ) || over.backends.contains(merged(base, over).backends[j]),
{
    let all = merged(base, over);
    if 0 <= n < over.models.len() && (forall|m: int|
        n < m < over.models.len() ==> (#[trigger] over.models[m]).alias != over.models[n].alias) {
        assert forall|m: int| n < m < over.models.len() implies model_alias()(
            #[trigger] over.models[m],
        ) != model_alias()(over.models[n]) by {}
        let k = lemma_overlaid_counts(base.models, model_alias(), over.models, n);
        assert forall|m: int| 0 <= m < k implies (#[trigger] all.models[m]).alias
            != over.models[n].alias by {
            assert(model_alias()(all.models[m]) != model_alias()(over.models[n]));
        }
        assert(all.models[k] == over.models[n]);
    }
    if 0 <= n < over.backends.len() && (forall|m: int|
        n < m < over.backends.len() ==> (#[trigger] over.backends[m]).name != over.backends[n].name) {
        assert forall|m: int| n < m < over.backends.len() implies backend_name()(
            #[trigger] over.backends[m],
        ) != backend_name()(over.backends[n]) by {}
        let k = lemma_overlaid_counts(base.backends, backend_name(), over.backends, n);
        assert forall|m: int| 0 <= m < k implies (#[trigger] all.backends[m]).name
            != over.backends[n].name by {
            assert(backend_name()(all.backends[m]) != backend_name()(over.backends[n]));
        }
        assert(all.backends[k] == over.backends[n]);
    }
    if 0 <= i < base.models.len() && (forall|m: int|
        0 <= m < over.models.len() ==> (#[trigger] over.models[m]).alias != base.models[i].alias) {
        lemma_overlaid_keeps(base.models, model_alias(), over.models, i);
    }
    if 0 <= i < base.backends.len() && (forall|m: int|
        0 <= m < over.backends.len() ==> (#[trigger] over.backends[m]).name
            != base.backends[i].name) {
        lemma_overlaid_keeps(base.backends, backend_name(), over.backends, i);
    }
    if 0 <= j < all.models.len() {
        lemma_overlaid_from(base.models, model_alias(), over.models, j);
    }
    if 0 <= j < all.backends.len() {
        lemma_overlaid_from(base.backends, backend_name(), over.backends, j);
    }
}

/// The layers of a configuration: the user's alone without a project; with one, its models count
/// whether it is trusted or not, and its backends only where it is.
pub proof fn lemma_layers(user: RegistryView, project: RegistryView, n: int)
    ensures
        0 <= n < project.models.len() && (forall|m: int|
            n < m < project.models.len() ==> (#[trigger] project.models[m]).alias
                != project.models[n].alias) ==> layered(user, Some(project), true).models.contains(
            project.models[n],
        ) && layered(user, Some(project), false).models.contains(project.models[n]),
        0 <= n < project.backends.len() && (forall|m: int|
            n < m < project.backends.len() ==> (#[trigger] project.backends[m]).name
                != project.backends[n].name) ==> layered(user, Some(project), true).backends.contains(
            project.backends[n],
        ),
        0 <= n < user.models.len() && (forall|m: int|
            n < m < user.models.len() ==> (#[trigger] user.models[m]).alias != user.models[n].alias)
            ==> layered(user, None, true).models.contains(user.models[n]),
        0 <= n < user.backends.len() && (forall|m: int|
            n < m < user.backends.len() ==> (#[trigger] user.backends[m]).name
                != user.backends[n].name) ==> layered(user, None, true).backends.contains(
            user.backends[n],
        ) && layered(user, Some(project), false).backends.contains(user.backends[n]),
{
    let below = merged(empty_registry(), user);
    let over = RegistryView { backends: project.backends, models: project.models };
    let bare = RegistryView { backends: seq![], models: project.models };
    lemma_merge_entries(empty_registry(), user, n, 0, 0);
    lemma_merge_entries(below, over, n, 0, 0);
    lemma_merge_entries(below, bare, n, 0, 0);
}

/// Which projects are trusted: those of which a list of texts holds the path, alone or with `#` and
/// anything behind it. A list that holds anything but texts trusts none.
pub proof fn lemma_trusted(s: Seq<JsonView>, i: int, path: Seq<char>, hash: Seq<char>)
    requires
        0 <= i < s.len(),
    ensures
        (forall|j: int| 0 <= j < s.len() ==> (#[trigger] s[j]) is Text) && s[i] == JsonView::Text(path)
            ==> covers(JsonView::Array(s), path),
        (forall|j: int| 0 <= j < s.len() ==> (#[trigger] s[j]) is Text) && s[i] == JsonView::Text(
            path + seq!['#'] + hash,
        ) ==> covers(JsonView::Array(s), path),
        !(s[i] is Text) ==> !covers(JsonView::Array(s), path),
        !covers(JsonView::Array(Seq::empty()), path),
{
    reveal_strlit("#");
    assert("#"@ =~= seq!['#']);
    let key = path + seq!['#'] + hash;
    assert(key.take(path.len() as int + 1) =~= path + "#"@);
    if s[i] == JsonView::Text(path) || s[i] == JsonView::Text(key) {
        assert(is_key_of(s[i]->Text_0, path));
    }
}

/// What is found first under a key: the item that has it, where none before has.
pub(crate) proof fn lemma_first_with<V>(s: Seq<V>, key: spec_fn(V) -> Seq<char>, n: int)
    requires
        0 <= n < s.len(),
        forall|i: int| 0 <= i < n ==> key(#[trigger] s[i]) != key(s[n]),
    ensures
        first_with(s, key, key(s[n])) == Some(s[n]),
{
    lemma_first_at_is(s, key, key(s[n]), n);
}

/// Every route of an accepted registry is that of one of its aliases.
pub proof fn lemma_routes_are_aliases(
    reg: RegistryView,
    default: ProviderView,
    key: Option<Seq<char>>,
    max_retries: u32,
    env: Map<Seq<char>, Seq<char>>,
    name: Seq<char>,
)
    requires
        built(reg, default, key, max_retries, env) matches Ok(Some(_)),
        forall|i: int| 0 <= i < reg.models.len() ==> (#[trigger] reg.models[i]).alias != name,
    ensures
        !built(reg, default, key, max_retries, env)->Ok_0->0.routes.contains_key(name),
{
    let v = built(reg, default, key, max_retries, env)->Ok_0->0;
    let routes = model_routes(reg.models);
    if v.routes.contains_key(name) {
        lemma_route_table_only(routes, name);
        let n = choose|n: int| 0 <= n < routes.len() && (#[trigger] routes[n]).alias == name;
        assert(routes[n] == model_route(reg.models[n]));
    }
}

/// Every alias of an accepted registry has a route.
pub proof fn lemma_alias_has_route(
    reg: RegistryView,
    default: ProviderView,
    key: Option<Seq<char>>,
    max_retries: u32,
    env: Map<Seq<char>, Seq<char>>,
    i: int,
)
    requires
        built(reg, default, key, max_retries, env) matches Ok(Some(_)),
        0 <= i < reg.models.len(),
    ensures
        built(reg, default, key, max_retries, env)->Ok_0->0.routes.contains_key(reg.models[i].alias),
{
    lemma_alias_in_table(model_routes(reg.models), i);
    assert(model_routes(reg.models)[i] == model_route(reg.models[i]));
}

proof fn lemma_alias_in_table(s: Seq<RouteView>, i: int)
    requires
        0 <= i < s.len(),
    ensures
        route_table(s).contains_key(s[i].alias),
    decreases s.len(),
{
    if i < s.len() - 1 {
        lemma_alias_in_table(s.drop_last(), i);
        assert(s.drop_last()[i] == s[i]);
    }
}

/// What is said of backends whose keys are missing: of each that names a variable which holds
/// nothing, in their order, and of no other.
pub proof fn lemma_key_warnings(
    s: Seq<BackendEntryView>,
    b: BackendEntryView,
    env: Map<Seq<char>, Seq<char>>,
    variable: Seq<char>,
)
    ensures
        key_warnings(Seq::empty(), env).len() == 0,
        b.api_key_env is None ==> key_warnings(s.push(b), env) == key_warnings(s, env),
        b.api_key_env == Some(variable) && env.contains_key(variable) && env[variable].len() > 0
            ==> key_warnings(s.push(b), env) == key_warnings(s, env),
        b.api_key_env == Some(variable) && (!env.contains_key(variable) || env[variable].len() == 0)
            ==> key_warnings(s.push(b), env) == key_warnings(s, env).push(
            "[warning: backend "@ + quoted_text(b.name) + " api_key_env "@ + quoted_text(variable)
                + " is unset]"@,
        ),
{
    assert(s.push(b).drop_last() =~= s);
}

/// How the errors of a registry read.
pub proof fn lemma_error_texts(a: Seq<char>, b: Seq<char>)
    ensures
        error_text(RegistryErrorView::UnknownKind { backend: a, kind: b }) == "backend "@ + quoted_text(
            a,
        ) + ": unknown kind "@ + quoted_text(b),
        error_text(RegistryErrorView::EmptyServe { alias: a }) == "model alias "@ + quoted_text(a)
            + " has empty serve list"@,
        error_text(RegistryErrorView::UnknownBackend { alias: a, backend: b }) == "model alias "@
            + quoted_text(a) + " serves backend "@ + quoted_text(b)
            + " which is not defined in [[backends]]"@,
{
}

} // verus!
