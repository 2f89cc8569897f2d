//! Routing of model names to backends, with failover along an ordered serve list.
//!
//! A [`RoutingProvider`] maps aliases to an ordered list of serve targets. A target that fails
//! before it has produced content gives way to the next one. A name that is no alias goes to a
//! default provider unchanged.

use vstd::prelude::*;

use crate::ai::message::{
    blocks, AssistantMessage, AssistantView, BlockView, ContentBlock, StopReason,
};
use crate::text::chars::{owned, same};
use crate::text::pairs::{add_pairs, copy_pairs, text_pairs};
use crate::text::order::strictly_sorted;
use crate::text::table::Table;

verus! {

/// One authenticated endpoint.
#[derive(Debug, Clone)]
pub struct BackendSpec {
    pub name: String,
    pub kind: BackendKind,
    pub base_url: String,
    pub api_key_env: Option<String>,
    pub api_key: Option<String>,
    pub headers: Vec<(String, String)>,
}

/// The protocol that a backend speaks.
#[derive(Debug, Clone, Copy, PartialEq, Eq, Structural)]
pub enum BackendKind {
    OpenaiCompatible,
    Anthropic,
}

/// The kind that a name stands for.
pub open spec fn kind_named(s: Seq<char>) -> Option<BackendKind> {
    if s == "openai_compatible"@ || s == "openai-compatible"@ || s == "openai"@ {
        Some(BackendKind::OpenaiCompatible)
    } else if s == "anthropic"@ {
        Some(BackendKind::Anthropic)
    } else {
        None
    }
}

impl BackendKind {
    /// The kind that a name stands for.
    pub fn parse(s: &str) -> (r: Option<BackendKind>)
        ensures
            r == kind_named(s@),
    {
        if same(s, "openai_compatible") || same(s, "openai-compatible") || same(s, "openai") {
            Some(BackendKind::OpenaiCompatible)
        } else if same(s, "anthropic") {
            Some(BackendKind::Anthropic)
        } else {
            None
        }
    }
}

/// A backend, and the name of a model there.
#[derive(Debug, Clone, PartialEq, Eq)]
pub struct ServeTarget {
    pub backend: String,
    pub remote_model: String,
}

/// An alias and its serve targets: the first is the primary one, the rest are for failover.
#[derive(Debug, Clone)]
pub struct ModelRoute {
    pub alias: String,
    pub serve: Vec<ServeTarget>,
    pub tier: Option<String>,
    pub ctx: Option<u64>,
}

/// What a serve target is.
pub struct TargetView {
    pub backend: Seq<char>,
    pub remote_model: Seq<char>,
}

/// What a route is.
pub struct RouteView {
    pub alias: Seq<char>,
    pub serve: Seq<TargetView>,
    pub tier: Option<Seq<char>>,
    pub ctx: Option<u64>,
}

impl View for ServeTarget {
    type V = TargetView;

    open spec fn view(&self) -> TargetView {
        TargetView { backend: self.backend@, remote_model: self.remote_model@ }
    }
}

/// What the serve targets are.
pub open spec fn targets_view(s: Seq<ServeTarget>) -> Seq<TargetView> {
    Seq::new(s.len(), |i: int| s[i]@)
}

impl View for ModelRoute {
    type V = RouteView;

    open spec fn view(&self) -> RouteView {
        RouteView {
            alias: self.alias@,
            serve: targets_view(self.serve@),
            tier: self.tier.deep_view(),
            ctx: self.ctx,
        }
    }
}

/// What the routes are.
pub open spec fn routes_view(s: Seq<ModelRoute>) -> Seq<RouteView> {
    Seq::new(s.len(), |i: int| s[i]@)
}

struct BackendHandle<P> {
    provider: P,
    api_key: Option<String>,
    headers: Vec<(String, String)>,
    name: String,
}

/// A provider with its name, its key and its fixed headers.
pub struct HandleView<P> {
    pub name: Seq<char>,
    pub provider: P,
    pub api_key: Option<Seq<char>>,
    pub headers: Seq<(Seq<char>, Seq<char>)>,
}

impl<P: View> BackendHandle<P> {
    spec fn handle(self) -> HandleView<P::V> {
        HandleView {
            name: self.name@,
            provider: self.provider@,
            api_key: self.api_key.deep_view(),
            headers: text_pairs(self.headers@),
        }
    }
}

/// A provider, its key and its fixed headers, for one named backend.
pub struct BackendParts<P> {
    pub name: String,
    pub provider: P,
    pub api_key: Option<String>,
    pub headers: Vec<(String, String)>,
}

impl<P: View> View for BackendParts<P> {
    type V = HandleView<P::V>;

    open spec fn view(&self) -> HandleView<P::V> {
        HandleView {
            name: self.name@,
            provider: self.provider@,
            api_key: self.api_key.deep_view(),
            headers: text_pairs(self.headers@),
        }
    }
}

/// What the backends are.
pub open spec fn parts_view<P: View>(s: Seq<BackendParts<P>>) -> Seq<HandleView<P::V>> {
    Seq::new(s.len(), |i: int| s[i]@)
}

/// Backends by their names; of two with one name the later counts.
pub open spec fn backend_table<P>(s: Seq<HandleView<P>>) -> Map<Seq<char>, HandleView<P>>
    decreases s.len(),
{
    if s.len() == 0 {
        Map::empty()
    } else {
        backend_table(s.drop_last()).insert(s.last().name, s.last())
    }
}

/// Routes by their aliases; of two with one alias the later counts.
pub open spec fn route_table(s: Seq<RouteView>) -> Map<Seq<char>, RouteView>
    decreases s.len(),
{
    if s.len() == 0 {
        Map::empty()
    } else {
        route_table(s.drop_last()).insert(s.last().alias, s.last())
    }
}

/// The routes, the backends, and the backend of everything else.
pub struct RoutingProvider<P> {
    routes: Table<ModelRoute>,
    backends: Table<BackendHandle<P>>,
    default: BackendHandle<P>,
}

/// What a routing provider knows.
pub struct RoutingView<P> {
    pub routes: Map<Seq<char>, RouteView>,
    pub backends: Map<Seq<char>, HandleView<P>>,
    pub default: HandleView<P>,
}

impl<P: View> View for RoutingProvider<P> {
    type V = RoutingView<P::V>;

    closed spec fn view(&self) -> RoutingView<P::V> {
        RoutingView {
            routes: self.routes@.map_values(|r: ModelRoute| r@),
            backends: self.backends@.map_values(|h: BackendHandle<P>| h.handle()),
            default: self.default.handle(),
        }
    }
}

/// A serve target with everything that a request to it needs.
pub struct ResolvedRef<'a, P> {
    pub alias: Option<String>,
    pub backend_name: String,
    pub remote_model: String,
    pub provider: &'a P,
    pub api_key: Option<String>,
    pub headers: Vec<(String, String)>,
}

/// What a resolved serve target is.
pub struct ResolvedView<P> {
    pub alias: Option<Seq<char>>,
    pub backend_name: Seq<char>,
    pub remote_model: Seq<char>,
    pub provider: P,
    pub api_key: Option<Seq<char>>,
    pub headers: Seq<(Seq<char>, Seq<char>)>,
}

impl<'a, P: View> View for ResolvedRef<'a, P> {
    type V = ResolvedView<P::V>;

    open spec fn view(&self) -> ResolvedView<P::V> {
        ResolvedView {
            alias: self.alias.deep_view(),
            backend_name: self.backend_name@,
            remote_model: self.remote_model@,
            provider: self.provider@,
            api_key: self.api_key.deep_view(),
            headers: text_pairs(self.headers@),
        }
    }
}

/// What the resolved serve targets are.
pub open spec fn resolved_view<'a, P: View>(s: Seq<ResolvedRef<'a, P>>) -> Seq<ResolvedView<P::V>> {
    Seq::new(s.len(), |i: int| s[i]@)
}

/// A model at a backend.
pub open spec fn resolved<P>(
    alias: Option<Seq<char>>,
    h: HandleView<P>,
    model: Seq<char>,
) -> ResolvedView<P> {
    ResolvedView {
        alias,
        backend_name: h.name,
        remote_model: model,
        provider: h.provider,
        api_key: h.api_key,
        headers: h.headers,
    }
}

/// The serve targets whose backend is known, in their order.
pub open spec fn served<P>(
    alias: Seq<char>,
    serve: Seq<TargetView>,
    backends: Map<Seq<char>, HandleView<P>>,
) -> Seq<ResolvedView<P>>
    decreases serve.len(),
{
    if serve.len() == 0 {
        seq![]
    } else {
        let before = served(alias, serve.drop_last(), backends);
        let t = serve.last();
        if backends.contains_key(t.backend) {
            before.push(resolved(Some(alias), backends[t.backend], t.remote_model))
        } else {
            before
        }
    }
}

/// Where a model name leads: along the serve list of the alias that it is, or else, and where no
/// backend of that list is known, to the default backend under the same name.
pub open spec fn targets<P>(v: RoutingView<P>, name: Seq<char>) -> Seq<ResolvedView<P>> {
    let along = if v.routes.contains_key(name) {
        served(v.routes[name].alias, v.routes[name].serve, v.backends)
    } else {
        seq![]
    };
    if along.len() > 0 {
        along
    } else {
        seq![resolved(None, v.default, name)]
    }
}

impl<P: View> RoutingProvider<P> {
    /// A routing provider with the given backends and routes.
    pub fn new(
        default: P,
        default_api_key: Option<String>,
        default_headers: Vec<(String, String)>,
        backends: Vec<BackendParts<P>>,
        routes: Vec<ModelRoute>,
    ) -> (r: RoutingProvider<P>)
        ensures
            r@ == (RoutingView {
                routes: route_table(routes_view(routes@)),
                backends: backend_table(parts_view(backends@)),
                default: HandleView {
                    name: "default"@,
                    provider: default@,
                    api_key: default_api_key.deep_view(),
                    headers: text_pairs(default_headers@),
                },
            }),
    {
        let ghost bs = backends@;
        let ghost rs = routes@;
        let ghost hv = |h: BackendHandle<P>| h.handle();
        let ghost rv = |r: ModelRoute| r@;
        let mut backend_map: Table<BackendHandle<P>> = Table::new();
        let mut route_map: Table<ModelRoute> = Table::new();
        assert(backend_map@.map_values(hv) =~= Map::empty());
        assert(route_map@.map_values(rv) =~= Map::empty());
        for b in it: backends
            invariant
                it.seq() == bs,
                hv == (|h: BackendHandle<P>| h.handle()),
                backend_map@.map_values(hv) == backend_table(parts_view(bs).take(it.index())),
        {
            let key: String = owned(&b.name);
            let ghost view = b@;
            let h: BackendHandle<P> = BackendHandle {
                provider: b.provider,
                api_key: b.api_key,
                headers: b.headers,
                name: b.name,
            };
            proof {
                let s = parts_view(bs).take(it.index() + 1);
                assert(s.drop_last() == parts_view(bs).take(it.index()));
                assert(s.last() == view);
                assert(h.handle() == view);
                assert(backend_map@.insert(key@, h).map_values(hv) =~= backend_map@.map_values(
                    hv,
                ).insert(key@, view));
            }
            backend_map.insert(&key, h);
        }
        assert(parts_view(bs).take(bs.len() as int) == parts_view(bs));
        for r in it: routes
            invariant
                it.seq() == rs,
                rv == (|r: ModelRoute| r@),
                route_map@.map_values(rv) == route_table(routes_view(rs).take(it.index())),
        {
            let key: String = owned(&r.alias);
            proof {
                let s = routes_view(rs).take(it.index() + 1);
                assert(s.drop_last() == routes_view(rs).take(it.index()));
                assert(s.last() == r@);
                assert(route_map@.insert(key@, r).map_values(rv) =~= route_map@.map_values(
                    rv,
                ).insert(key@, r@));
            }
            route_map.insert(&key, r);
        }
        assert(routes_view(rs).take(rs.len() as int) == routes_view(rs));
        RoutingProvider {
            routes: route_map,
            backends: backend_map,
            default: BackendHandle {
                provider: default,
                api_key: default_api_key,
                headers: default_headers,
                name: owned("default"),
            },
        }
    }

    /// The serve targets of an alias in their order, or the one target of any other name.
    pub fn targets_for(&self, model_or_alias: &str) -> (r: Vec<ResolvedRef<'_, P>>)
        ensures
            resolved_view(r@) == targets(self@, model_or_alias@),
            r@.len() > 0,
    {
        if let Some(route) = self.routes.get(model_or_alias) {
            let mut out: Vec<ResolvedRef<'_, P>> = Vec::new();
            let ghost all = targets_view(route.serve@);
            assert(resolved_view(out@) =~= Seq::<ResolvedView<P::V>>::empty());
            let mut i: usize = 0;
            while i < route.serve.len()
                invariant
                    i <= route.serve@.len(),
                    all == targets_view(route.serve@),
                    resolved_view(out@) == served(
                        route.alias@,
                        all.take(i as int),
                        self@.backends,
                    ),
                decreases route.serve@.len() - i,
            {
                let t: &ServeTarget = &route.serve[i];
                proof {
                    assert(all.take(i + 1).drop_last() == all.take(i as int));
                    assert(all.take(i + 1).last() == t@);
                }
                if let Some(b) = self.backends.get(&t.backend) {
                    let r: ResolvedRef<'_, P> = ResolvedRef {
                        alias: Some(owned(&route.alias)),
                        backend_name: owned(&b.name),
                        remote_model: owned(&t.remote_model),
                        provider: &b.provider,
                        api_key: b.api_key.clone(),
                        headers: copy_pairs(&b.headers),
                    };
                    proof {
                        assert(resolved_view(out@.push(r)) =~= resolved_view(out@).push(r@));
                        assert(self@.backends[t.backend@] == b.handle());
                    }
                    out.push(r);
                }
                i = i + 1;
            }
            proof {
                assert(all.take(i as int) == all);
                assert(self@.routes[model_or_alias@] == route@);
            }
            if out.len() > 0 {
                return out;
            }
        }
        let mut one: Vec<ResolvedRef<'_, P>> = Vec::new();
        let r: ResolvedRef<'_, P> = ResolvedRef {
            alias: None,
            backend_name: owned(&self.default.name),
            remote_model: owned(model_or_alias),
            provider: &self.default.provider,
            api_key: self.default.api_key.clone(),
            headers: copy_pairs(&self.default.headers),
        };
        one.push(r);
        assert(resolved_view(one@) =~= seq![resolved(None, self@.default, model_or_alias@)]);
        one
    }

    /// The primary target of a name.
    pub fn resolve(&self, model_or_alias: &str) -> (r: ResolvedRef<'_, P>)
        ensures
            r@ == targets(self@, model_or_alias@)[0],
    {
        let mut all: Vec<ResolvedRef<'_, P>> = self.targets_for(model_or_alias);
        assert(resolved_view(all@)[0] == all@[0]@);
        all.remove(0)
    }

    /// Whether a name is an alias.
    pub fn has_alias(&self, name: &str) -> (r: bool)
        ensures
            r == self@.routes.contains_key(name@),
    {
        self.routes.contains(name)
    }

    /// The aliases, in their order.
    pub fn aliases(&self) -> (r: Vec<String>)
        ensures
            strictly_sorted(r.deep_view()),
            forall|k: Seq<char>| #[trigger]
                r.deep_view().contains(k) == self@.routes.contains_key(k),
    {
        self.routes.keys()
    }
}

/// The options of a request that routing reads or sets.
#[derive(Debug, Clone, Default)]
pub struct CompletionOptions {
    pub api_key: Option<String>,
    pub extra_headers: Vec<(String, String)>,
}

/// What the options of a request are.
pub struct OptionsView {
    pub api_key: Option<Seq<char>>,
    pub extra_headers: Seq<(Seq<char>, Seq<char>)>,
}

impl View for CompletionOptions {
    type V = OptionsView;

    open spec fn view(&self) -> OptionsView {
        OptionsView {
            api_key: self.api_key.deep_view(),
            extra_headers: text_pairs(self.extra_headers@),
        }
    }
}

/// The options for a target: its own key before that of the request, and its headers before
/// those of the request.
pub open spec fn options_at<P>(t: ResolvedView<P>, o: OptionsView) -> OptionsView {
    OptionsView {
        api_key: if t.api_key is Some {
            t.api_key
        } else {
            o.api_key
        },
        extra_headers: t.headers + o.extra_headers,
    }
}

/// The options for a target.
pub fn options_for<P: View>(resolved: &ResolvedRef<'_, P>, options: &CompletionOptions) -> (r:
    CompletionOptions)
    ensures
        r@ == options_at(resolved@, options@),
{
    let api_key: Option<String> = match &resolved.api_key {
        Some(k) => Some(owned(k)),
        None => options.api_key.clone(),
    };
    let mut extra_headers: Vec<(String, String)> = copy_pairs(&resolved.headers);
    add_pairs(&mut extra_headers, &options.extra_headers);
    CompletionOptions { api_key, extra_headers }
}

/// One event of a model's answer.
#[derive(Debug)]
pub enum StreamEvent {
    Start,
    TextDelta(String),
    ThinkingDelta(String),
    ToolCallDelta,
    Done(Box<AssistantMessage>),
    Error(String),
}

/// What an event is.
pub enum EventView {
    Start,
    TextDelta(Seq<char>),
    ThinkingDelta(Seq<char>),
    ToolCallDelta,
    Done(AssistantView),
    Error(Seq<char>),
}

impl View for StreamEvent {
    type V = EventView;

    open spec fn view(&self) -> EventView {
        match self {
            StreamEvent::Start => EventView::Start,
            StreamEvent::TextDelta(t) => EventView::TextDelta(t@),
            StreamEvent::ThinkingDelta(t) => EventView::ThinkingDelta(t@),
            StreamEvent::ToolCallDelta => EventView::ToolCallDelta,
            StreamEvent::Done(m) => EventView::Done(m@),
            StreamEvent::Error(e) => EventView::Error(e@),
        }
    }
}

/// What the events are.
pub open spec fn events_view(s: Seq<StreamEvent>) -> Seq<EventView> {
    Seq::new(s.len(), |i: int| s[i]@)
}

/// What the first events of an answer say: that the target failed, or that it is to be kept,
/// with the events that were read.
#[derive(Debug)]
pub enum Probe {
    Fail(String),
    Commit(Vec<StreamEvent>),
}

/// What a probe is.
pub enum ProbeView {
    Fail(Seq<char>),
    Commit(Seq<EventView>),
}

impl View for Probe {
    type V = ProbeView;

    open spec fn view(&self) -> ProbeView {
        match self {
            Probe::Fail(e) => ProbeView::Fail(e@),
            Probe::Commit(b) => ProbeView::Commit(events_view(b@)),
        }
    }
}

/// Whether a final message reports a failure.
pub open spec fn done_failed(m: AssistantView) -> bool {
    m.stop_reason == StopReason::Error || (m.error_message matches Some(e) && e.len() > 0)
}

/// The failure that an event reports.
pub open spec fn failure(e: EventView) -> Option<Seq<char>> {
    match e {
        EventView::Error(t) => Some(t),
        EventView::Done(m) => if done_failed(m) {
            match m.error_message {
                Some(t) => Some(t),
                None => Some("provider error"@),
            }
        } else {
            None
        },
        _ => None,
    }
}

/// What follows from the events read so far and the next one, or the end of the answer;
/// nothing yet where the answer has only started.
pub open spec fn probed(buffered: Seq<EventView>, next: Option<EventView>) -> Option<ProbeView> {
    match next {
        None => if buffered.len() == 0 {
            Some(ProbeView::Fail("empty stream"@))
        } else {
            Some(ProbeView::Commit(buffered))
        },
        Some(e) => match failure(e) {
            Some(t) => Some(ProbeView::Fail(t)),
            None => if e is Start {
                None
            } else {
                Some(ProbeView::Commit(buffered.push(e)))
            },
        },
    }
}

/// Reads one more event of an answer, or its end. An event that decides nothing is added to
/// the buffer; otherwise the buffer is handed over with the decision to keep the answer, or left as
/// it is.
pub fn probe_stream(buffered: &mut Vec<StreamEvent>, next: Option<StreamEvent>) -> (r: Option<Probe>)
    ensures
        match r {
            Some(p) => probed(
                events_view(old(buffered)@),
                match next {
                    Some(e) => Some(e@),
                    None => None,
                },
            ) == Some(p@) && (match p {
                Probe::Commit(_) => final(buffered)@.len() == 0,
                Probe::Fail(_) => final(buffered)@ == old(buffered)@,
            }),
            None => next is Some && next->0@ is Start && events_view(final(buffered)@)
                == events_view(old(buffered)@).push(next->0@),
        },
        r is None <==> probed(
            events_view(old(buffered)@),
            match next {
                Some(e) => Some(e@),
                None => None,
            },
        ) is None,
{
    let ghost before = buffered@;
    match next {
        None => {
            if buffered.len() == 0 {
                return Some(Probe::Fail(owned("empty stream")));
            }
            let mut out: Vec<StreamEvent> = Vec::new();
            std::mem::swap(&mut out, buffered);
            Some(Probe::Commit(out))
        },
        Some(e) => {
            proof {
                assert(events_view(before.push(e)) =~= events_view(before).push(e@));
            }
            match e {
                StreamEvent::Error(t) => Some(Probe::Fail(t)),
                StreamEvent::Start => {
                    buffered.push(StreamEvent::Start);
                    None
                },
                StreamEvent::Done(m) => {
                    let failed: bool = m.stop_reason == StopReason::Error || match &m.error_message {
                        Some(t) => t.as_str().unicode_len() > 0,
                        None => false,
                    };
                    if failed {
                        match &m.error_message {
                            Some(t) => Some(Probe::Fail(owned(t))),
                            None => Some(Probe::Fail(owned("provider error"))),
                        }
                    } else {
                        let mut out: Vec<StreamEvent> = Vec::new();
                        std::mem::swap(&mut out, buffered);
                        out.push(StreamEvent::Done(m));
                        Some(Probe::Commit(out))
                    }
                },
                other => {
                    let mut out: Vec<StreamEvent> = Vec::new();
                    std::mem::swap(&mut out, buffered);
                    out.push(other);
                    Some(Probe::Commit(out))
                },
            }
        },
    }
}

/// What a whole answer comes to, event by event.
pub open spec fn probe_of(buffered: Seq<EventView>, answer: Seq<EventView>) -> ProbeView
    decreases answer.len(),
{
    if answer.len() == 0 {
        probed(buffered, None)->0
    } else {
        match probed(buffered, Some(answer[0])) {
            Some(p) => p,
            None => probe_of(buffered.push(answer[0]), answer.skip(1)),
        }
    }
}

/// How many events an answer starts with that only say that it has started.
pub open spec fn start_len(answer: Seq<EventView>) -> nat
    decreases answer.len(),
{
    if answer.len() > 0 && answer[0] is Start {
        1 + start_len(answer.skip(1))
    } else {
        0
    }
}

/// An answer counts by its first event that is more than a start: it failed where that event
/// reports a failure, or where there are no events at all; otherwise everything up to that
/// event is kept.
pub proof fn lemma_probe(answer: Seq<EventView>)
    ensures
        ({
            let n = start_len(answer) as int;
            let p = probe_of(seq![], answer);
            &&& n <= answer.len()
            &&& answer.len() == 0 ==> p == ProbeView::Fail("empty stream"@)
            &&& 0 < answer.len() == n ==> p == ProbeView::Commit(answer)
            &&& n < answer.len() ==> (match failure(answer[n]) {
                Some(t) => p == ProbeView::Fail(t),
                None => p == ProbeView::Commit(answer.take(n + 1)),
            })
        }),
{
    lemma_probe_from(seq![], answer);
    let e = Seq::<EventView>::empty();
    assert(e + answer == answer);
    let n = start_len(answer) as int;
    if n < answer.len() {
        assert(e + answer.take(n + 1) == answer.take(n + 1));
    }
}

proof fn lemma_probe_from(buffered: Seq<EventView>, answer: Seq<EventView>)
    ensures
        ({
            let n = start_len(answer) as int;
            let p = probe_of(buffered, answer);
            &&& n <= answer.len()
            &&& buffered.len() + answer.len() == 0 ==> p == ProbeView::Fail("empty stream"@)
            &&& 0 < buffered.len() + answer.len() && n == answer.len() ==> p == ProbeView::Commit(
                buffered + answer,
            )
            &&& n < answer.len() ==> (match failure(answer[n]) {
                Some(t) => p == ProbeView::Fail(t),
                None => p == ProbeView::Commit(buffered + answer.take(n + 1)),
            })
        }),
    decreases answer.len(),
{
    let n = start_len(answer) as int;
    if answer.len() == 0 {
        assert(buffered + answer == buffered);
    } else if answer[0] is Start {
        let rest = answer.skip(1);
        let more = buffered.push(answer[0]);
        lemma_probe_from(more, rest);
        assert(more + rest == buffered + answer);
        if n < answer.len() {
            assert(answer[n] == rest[n - 1]);
            assert(more + rest.take(n) == buffered + answer.take(n + 1));
        }
    } else {
        assert(buffered + answer.take(1) == buffered.push(answer[0]));
    }
}

/// The way along the targets of one request.
pub struct Failover<'a, P> {
    pub targets: Vec<ResolvedRef<'a, P>>,
    pub tried: usize,
    pub last_err: String,
}

/// How far a request has come: its targets, how many of them failed, and how the last failed.
pub struct FailoverView<P> {
    pub targets: Seq<ResolvedView<P>>,
    pub tried: nat,
    pub last_err: Seq<char>,
}

impl<'a, P: View> View for Failover<'a, P> {
    type V = FailoverView<P::V>;

    open spec fn view(&self) -> FailoverView<P::V> {
        FailoverView {
            targets: resolved_view(self.targets@),
            tried: self.tried as nat,
            last_err: self.last_err@,
        }
    }
}

/// What is done next for a request: one of its targets is tried, or it ends with events.
#[derive(Debug)]
pub enum RouteStep {
    Try(usize),
    Finish(Vec<StreamEvent>),
}

/// What is done next for a request.
pub enum RouteStepView {
    Try(nat),
    Finish(Seq<EventView>),
}

impl View for RouteStep {
    type V = RouteStepView;

    open spec fn view(&self) -> RouteStepView {
        match self {
            RouteStep::Try(i) => RouteStepView::Try(*i as nat),
            RouteStep::Finish(e) => RouteStepView::Finish(events_view(e@)),
        }
    }
}

/// How the failure of a target is reported.
pub open spec fn failure_text<P>(t: ResolvedView<P>, e: Seq<char>) -> Seq<char> {
    "backend "@ + t.backend_name + " model "@ + t.remote_model + ": "@ + e
}

/// The end of a request that was cancelled.
pub open spec fn aborted() -> Seq<EventView> {
    seq![
        EventView::Done(
            AssistantView {
                content: seq![],
                stop_reason: StopReason::Aborted,
                error_message: None,
            },
        ),
    ]
}

/// The end of a request whose targets all failed.
pub open spec fn exhausted(last_err: Seq<char>) -> Seq<EventView> {
    seq![
        EventView::Error(last_err),
        EventView::Done(
            AssistantView {
                content: seq![BlockView::Text("all serve targets failed: "@ + last_err)],
                stop_reason: StopReason::Error,
                error_message: Some(last_err),
            },
        ),
    ]
}

/// What is done next for a request.
pub open spec fn next_step<P>(v: FailoverView<P>, cancelled: bool) -> RouteStepView {
    if v.tried >= v.targets.len() {
        RouteStepView::Finish(exhausted(v.last_err))
    } else if cancelled {
        RouteStepView::Finish(aborted())
    } else {
        RouteStepView::Try(v.tried)
    }
}

/// A request after one more of its targets failed.
pub open spec fn after_failure<P>(v: FailoverView<P>, e: Seq<char>) -> FailoverView<P> {
    FailoverView {
        targets: v.targets,
        tried: v.tried + 1,
        last_err: failure_text(v.targets[v.tried as int], e),
    }
}

/// A request that has not tried a target yet.
pub open spec fn fresh<P>(targets: Seq<ResolvedView<P>>) -> FailoverView<P> {
    FailoverView { targets, tried: 0, last_err: "no serve targets"@ }
}

/// What is said where one target failed and another is to be tried.
pub open spec fn failover_notice<P>(t: ResolvedView<P>, e: Seq<char>) -> Seq<char> {
    "[model registry: "@ + t.remote_model + " via "@ + t.backend_name + " failed ("@ + e
        + "); trying next serve target]"@
}

impl<P: View> RoutingProvider<P> {
    /// Starts a request for a model.
    pub fn start(&self, model: &str) -> (r: Failover<'_, P>)
        ensures
            r@ == fresh(targets(self@, model@)),
    {
        Failover { targets: self.targets_for(model), tried: 0, last_err: owned("no serve targets") }
    }
}

impl<'a, P: View> Failover<'a, P> {
    /// What is done next.
    pub fn next(&self, cancelled: bool) -> (r: RouteStep)
        ensures
            r@ == next_step(self@, cancelled),
    {
        let mut events: Vec<StreamEvent> = Vec::new();
        if self.tried < self.targets.len() {
            if !cancelled {
                return RouteStep::Try(self.tried);
            }
            let m: AssistantMessage = AssistantMessage {
                content: Vec::new(),
                stop_reason: StopReason::Aborted,
                error_message: None,
            };
            assert(blocks(m.content@) =~= Seq::<BlockView>::empty());
            events.push(StreamEvent::Done(Box::new(m)));
            assert(events_view(events@) =~= aborted());
            return RouteStep::Finish(events);
        }
        let mut text: String = owned("all serve targets failed: ");
        text.append(&self.last_err);
        let mut content: Vec<ContentBlock> = Vec::new();
        content.push(ContentBlock::text(&text));
        assert(blocks(content@) =~= seq![BlockView::Text(text@)]);
        events.push(StreamEvent::Error(owned(&self.last_err)));
        events.push(
            StreamEvent::Done(
                Box::new(
                    AssistantMessage {
                        content,
                        stop_reason: StopReason::Error,
                        error_message: Some(owned(&self.last_err)),
                    },
                ),
            ),
        );
        assert(events_view(events@) =~= exhausted(self.last_err@));
        RouteStep::Finish(events)
    }

    /// Notes that the target that was being tried failed. What is to be said of it is handed
    /// back, where another target is left.
    pub fn failed(&mut self, e: &str) -> (r: Option<String>)
        requires
            old(self)@.tried < old(self)@.targets.len(),
        ensures
            final(self)@ == after_failure(old(self)@, e@),
            r.deep_view() == (if old(self)@.tried + 1 < old(self)@.targets.len() {
                Some(failover_notice(old(self)@.targets[old(self)@.tried as int], e@))
            } else {
                None
            }),
    {
        let n: usize = self.targets.len();
        let t: &ResolvedRef<'a, P> = &self.targets[self.tried];
        let mut text: String = owned("backend ");
        text.append(&t.backend_name);
        text.append(" model ");
        text.append(&t.remote_model);
        text.append(": ");
        text.append(e);
        let mut notice: String = owned("[model registry: ");
        notice.append(&t.remote_model);
        notice.append(" via ");
        notice.append(&t.backend_name);
        notice.append(" failed (");
        notice.append(e);
        notice.append("); trying next serve target]");
        self.last_err = text;
        self.tried = self.tried + 1;
        if self.tried < n {
            Some(notice)
        } else {
            None
        }
    }
}

/// A request after its first targets failed, one by one.
pub open spec fn after_failures<P>(v: FailoverView<P>, errors: Seq<Seq<char>>) -> FailoverView<P>
    decreases errors.len(),
{
    if errors.len() == 0 {
        v
    } else {
        after_failure(after_failures(v, errors.drop_last()), errors.last())
    }
}

/// The targets are tried in their order, each once; and where all of them have failed, the
/// request ends with the failure of the last.
pub proof fn lemma_failover_order<P>(targets: Seq<ResolvedView<P>>, errors: Seq<Seq<char>>)
    requires
        errors.len() <= targets.len(),
    ensures
        errors.len() < targets.len() ==> next_step(after_failures(fresh(targets), errors), false)
            == RouteStepView::Try(errors.len()),
        0 < errors.len() == targets.len() ==> next_step(
            after_failures(fresh(targets), errors),
            false,
        ) == RouteStepView::Finish(exhausted(failure_text(targets.last(), errors.last()))),
{
    lemma_after_failures(targets, errors);
}

proof fn lemma_after_failures<P>(targets: Seq<ResolvedView<P>>, errors: Seq<Seq<char>>)
    ensures
        after_failures(fresh(targets), errors).tried == errors.len(),
        after_failures(fresh(targets), errors).targets == targets,
        errors.len() > 0 ==> after_failures(fresh(targets), errors).last_err == failure_text(
            targets[errors.len() - 1],
            errors.last(),
        ),
    decreases errors.len(),
{
    if errors.len() > 0 {
        lemma_after_failures(targets, errors.drop_last());
    }
}

/// Every name leads somewhere; a name that is no alias leads to the default backend as it is.
pub proof fn lemma_targets<P>(v: RoutingView<P>, name: Seq<char>)
    ensures
        targets(v, name).len() > 0,
        !v.routes.contains_key(name) ==> targets(v, name) == seq![resolved(None, v.default, name)],
{
}

/// What comes of one more event: content is kept with everything read before it, a start decides
/// nothing, and an answer fails by an error, by an end that reports one, or by being empty, and by
/// nothing else.
pub proof fn lemma_probed_by_event(buffered: Seq<EventView>, next: Option<EventView>)
    ensures
        ({
            let p = probed(buffered, next);
            let reports = next matches Some(EventView::Done(m)) && (m.stop_reason
                == StopReason::Error || (m.error_message is Some && m.error_message->0.len() > 0));
            &&& (next is Some && (next->0 is TextDelta || next->0 is ThinkingDelta
                || next->0 is ToolCallDelta)) ==> p == Some(
                ProbeView::Commit(buffered.push(next->0)),
            )
            &&& (p is None) == (next == Some(EventView::Start))
            &&& (p is Some && p->0 is Fail) == ((next is Some && next->0 is Error) || reports || (
            next is None && buffered.len() == 0))
            &&& (next is Some && next->0 is Error) ==> p == Some(
                ProbeView::Fail(next->0->Error_0),
            )
            &&& (reports && next->0->Done_0.error_message is Some) ==> p == Some(
                ProbeView::Fail(next->0->Done_0.error_message->0),
            )
            &&& (p is Some && p->0 is Commit) ==> p->0->Commit_0 == (match next {
                Some(e) => buffered.push(e),
                None => buffered,
            })
        }),
{
}

/// What comes of a whole answer. Behind the starts, the first event decides: one with content is
/// kept with all before it; and where nothing comes behind the starts, they are kept.
pub proof fn lemma_answer_is_kept(answer: Seq<EventView>, n: int)
    requires
        0 <= n <= answer.len(),
        forall|i: int| 0 <= i < n ==> #[trigger] answer[i] is Start,
        n < answer.len() ==> !(answer[n] is Start),
    ensures
        n < answer.len() && (answer[n] is TextDelta || answer[n] is ThinkingDelta
            || answer[n] is ToolCallDelta) ==> probe_of(seq![], answer) == ProbeView::Commit(
            answer.take(n + 1),
        ),
        n < answer.len() && answer[n] is Error ==> probe_of(seq![], answer) == ProbeView::Fail(
            answer[n]->Error_0,
        ),
        n == answer.len() && n > 0 ==> probe_of(seq![], answer) == ProbeView::Commit(answer),
        probe_of(seq![], answer) matches ProbeView::Fail(_) ==> answer.len() == 0 || (n
            < answer.len() && (answer[n] is Error || (answer[n] matches EventView::Done(m) && (
        m.stop_reason == StopReason::Error || (m.error_message is Some
            && m.error_message->0.len() > 0))))),
{
    lemma_start_len(answer, n);
    lemma_probe(answer);
}

proof fn lemma_start_len(answer: Seq<EventView>, n: int)
    requires
        0 <= n <= answer.len(),
        forall|i: int| 0 <= i < n ==> #[trigger] answer[i] is Start,
        n < answer.len() ==> !(answer[n] is Start),
    ensures
        start_len(answer) == n,
    decreases answer.len(),
{
    if n > 0 {
        assert(answer[0] is Start);
        let rest = answer.skip(1);
        assert forall|i: int| 0 <= i < n - 1 implies #[trigger] rest[i] is Start by {
            assert(rest[i] == answer[i + 1]);
        }
        lemma_start_len(rest, n - 1);
    }
}

/// An alias leads along its whole serve list in its order, each entry to its backend under the
/// model's name there, with the provider, the key and the headers of that backend.
pub proof fn lemma_alias_leads<P>(v: RoutingView<P>, name: Seq<char>, j: int)
    requires
        v.routes.contains_key(name),
        forall|k: int|
            0 <= k < v.routes[name].serve.len() ==> v.backends.contains_key(
                (#[trigger] v.routes[name].serve[k]).backend,
            ),
        0 <= j < v.routes[name].serve.len(),
    ensures
        targets(v, name).len() == v.routes[name].serve.len(),
        ({
            let t = targets(v, name)[j];
            let s = v.routes[name].serve[j];
            let b = v.backends[s.backend];
            &&& t.alias == Some(v.routes[name].alias)
            &&& t.remote_model == s.remote_model
            &&& t.backend_name == b.name
            &&& t.provider == b.provider
            &&& t.api_key == b.api_key
            &&& t.headers == b.headers
        }),
{
    lemma_served(v.routes[name].alias, v.routes[name].serve, v.backends, j);
}

proof fn lemma_served<P>(
    alias: Seq<char>,
    serve: Seq<TargetView>,
    backends: Map<Seq<char>, HandleView<P>>,
    j: int,
)
    requires
        forall|k: int|
            0 <= k < serve.len() ==> backends.contains_key((#[trigger] serve[k]).backend),
        0 <= j < serve.len(),
    ensures
        served(alias, serve, backends).len() == serve.len(),
        served(alias, serve, backends)[j] == resolved(
            Some(alias),
            backends[serve[j].backend],
            serve[j].remote_model,
        ),
    decreases serve.len(),
{
    reveal_with_fuel(served, 2);
    let d = serve.drop_last();
    assert(backends.contains_key(serve[serve.len() - 1].backend));
    assert forall|k: int| 0 <= k < d.len() implies backends.contains_key(
        (#[trigger] d[k]).backend,
    ) by {
        assert(d[k] == serve[k]);
    }
    if d.len() > 0 {
        lemma_served(
            alias,
            d,
            backends,
            if j < d.len() {
                j
            } else {
                0
            },
        );
    }
}

/// A name that is no alias goes to the default backend under that name, with the default key.
pub proof fn lemma_other_names<P>(v: RoutingView<P>, name: Seq<char>)
    requires
        !v.routes.contains_key(name),
    ensures
        targets(v, name).len() == 1,
        targets(v, name)[0].alias is None,
        targets(v, name)[0].remote_model == name,
        targets(v, name)[0].backend_name == v.default.name,
        targets(v, name)[0].provider == v.default.provider,
        targets(v, name)[0].api_key == v.default.api_key,
        targets(v, name)[0].headers == v.default.headers,
{
}

/// A target is asked with its own key where it has one and with that of the request otherwise, with
/// its own headers and behind them those of the request.
pub proof fn lemma_options<P>(t: ResolvedView<P>, o: OptionsView)
    ensures
        t.api_key is Some ==> options_at(t, o).api_key == t.api_key,
        t.api_key is None ==> options_at(t, o).api_key == o.api_key,
        options_at(t, o).extra_headers == t.headers + o.extra_headers,
{
}

/// A table holds each backend under its name: of those with one name the last.
pub proof fn lemma_backend_table<P>(s: Seq<HandleView<P>>, n: int)
    requires
        0 <= n < s.len(),
        forall|m: int| n < m < s.len() ==> (#[trigger] s[m]).name != s[n].name,
    ensures
        backend_table(s).contains_key(s[n].name),
        backend_table(s)[s[n].name] == s[n],
    decreases s.len(),
{
    if n < s.len() - 1 {
        let d = s.drop_last();
        assert(s[s.len() - 1].name != s[n].name);
        assert forall|m: int| n < m < d.len() implies (#[trigger] d[m]).name != d[n].name by {
            assert(d[m] == s[m]);
        }
        lemma_backend_table(d, n);
    }
}

/// A table holds nothing but the backends.
pub proof fn lemma_backend_table_only<P>(s: Seq<HandleView<P>>, name: Seq<char>)
    requires
        backend_table(s).contains_key(name),
    ensures
        exists|n: int| 0 <= n < s.len() && (#[trigger] s[n]).name == name,
    decreases s.len(),
{
    if s.last().name == name {
        assert(s[s.len() - 1].name == name);
    } else {
        lemma_backend_table_only(s.drop_last(), name);
        let n = choose|n: int| 0 <= n < s.drop_last().len() && (#[trigger] s.drop_last()[n]).name
            == name;
        assert(s[n].name == name);
    }
}

/// A table holds each route under its alias: of those with one alias the last.
pub proof fn lemma_route_table(s: Seq<RouteView>, n: int)
    requires
        0 <= n < s.len(),
        forall|m: int| n < m < s.len() ==> (#[trigger] s[m]).alias != s[n].alias,
    ensures
        route_table(s).contains_key(s[n].alias),
        route_table(s)[s[n].alias] == s[n],
    decreases s.len(),
{
    if n < s.len() - 1 {
        let d = s.drop_last();
        assert(s[s.len() - 1].alias != s[n].alias);
        assert forall|m: int| n < m < d.len() implies (#[trigger] d[m]).alias != d[n].alias by {
            assert(d[m] == s[m]);
        }
        lemma_route_table(d, n);
    }
}

/// A table holds nothing but the routes.
pub proof fn lemma_route_table_only(s: Seq<RouteView>, alias: Seq<char>)
    requires
        route_table(s).contains_key(alias),
    ensures
        exists|n: int| 0 <= n < s.len() && (#[trigger] s[n]).alias == alias,
    decreases s.len(),
{
    if s.last().alias == alias {
        assert(s[s.len() - 1].alias == alias);
    } else {
        lemma_route_table_only(s.drop_last(), alias);
        let n = choose|n: int| 0 <= n < s.drop_last().len() && (#[trigger] s.drop_last()[n]).alias
            == alias;
        assert(s[n].alias == alias);
    }
}

/// Before every target has failed, the next one in their order is tried, unless the request was
/// cancelled: then it ends as aborted, without an error. Once all have failed, it ends with the error
/// of the last of them, which names its backend and its model and says what went wrong there.
pub proof fn lemma_request_ends<P>(
    targets: Seq<ResolvedView<P>>,
    errors: Seq<Seq<char>>,
    cancelled: bool,
)
    requires
        errors.len() <= targets.len(),
        targets.len() > 0,
    ensures
        ({
            let step = next_step(after_failures(fresh(targets), errors), cancelled);
            let t = targets.last();
            let e = "backend "@ + t.backend_name + " model "@ + t.remote_model + ": "@
                + errors.last();
            &&& errors.len() < targets.len() && !cancelled ==> step == RouteStepView::Try(
                errors.len(),
            )
            &&& errors.len() < targets.len() && cancelled ==> step == RouteStepView::Finish(
                seq![
                    EventView::Done(
                        AssistantView {
                            content: seq![],
                            stop_reason: StopReason::Aborted,
                            error_message: None,
                        },
                    ),
                ],
            )
            &&& errors.len() == targets.len() ==> step == RouteStepView::Finish(
                seq![
                    EventView::Error(e),
                    EventView::Done(
                        AssistantView {
                            content: seq![BlockView::Text("all serve targets failed: "@ + e)],
                            stop_reason: StopReason::Error,
                            error_message: Some(e),
                        },
                    ),
                ],
            )
        }),
{
    lemma_after_failures(targets, errors);
}

/// The names of the kinds of backends.
pub proof fn lemma_kind_names(s: Seq<char>)
    ensures
        kind_named(s) == Some(BackendKind::Anthropic) <==> s == "anthropic"@,
        kind_named(s) == Some(BackendKind::OpenaiCompatible) <==> s == "openai_compatible"@ || s
            == "openai-compatible"@ || s == "openai"@,
        kind_named(s) is None <==> s != "anthropic"@ && s != "openai_compatible"@ && s
            != "openai-compatible"@ && s != "openai"@,
{
    reveal_strlit("anthropic");
    reveal_strlit("openai_compatible");
    reveal_strlit("openai-compatible");
    reveal_strlit("openai");
    assert("anthropic"@[0] == 'a' && "openai_compatible"@[0] == 'o' && "openai-compatible"@[0]
        == 'o' && "openai"@[0] == 'o');
}

/// A serve list leads to those of its targets whose backend is known, in their order, and past the
/// others.
pub proof fn lemma_served_known<P>(
    alias: Seq<char>,
    serve: Seq<TargetView>,
    t: TargetView,
    backends: Map<Seq<char>, HandleView<P>>,
)
    ensures
        served(alias, Seq::empty(), backends).len() == 0,
        !backends.contains_key(t.backend) ==> served(alias, serve.push(t), backends) == served(
            alias,
            serve,
            backends,
        ),
        backends.contains_key(t.backend) ==> served(alias, serve.push(t), backends) == served(
            alias,
            serve,
            backends,
        ).push(
            ResolvedView {
                alias: Some(alias),
                backend_name: backends[t.backend].name,
                remote_model: t.remote_model,
                provider: backends[t.backend].provider,
                api_key: backends[t.backend].api_key,
                headers: backends[t.backend].headers,
            },
        ),
{
    assert(serve.push(t).drop_last() =~= serve);
}

/// What is said between two targets: which one failed, where, and why.
pub proof fn lemma_failover_notice<P>(t: ResolvedView<P>, e: Seq<char>)
    ensures
        failover_notice(t, e) == "[model registry: "@ + t.remote_model + " via "@ + t.backend_name
            + " failed ("@ + e + "); trying next serve target]"@,
{
}

/// The failure that an end reports is its message, whatever its stop reason; without one it is a
/// provider error.
pub proof fn lemma_reported_failure(m: AssistantView, t: Seq<char>)
    ensures
        m.stop_reason == StopReason::Error && m.error_message == Some(t) ==> failure(
            EventView::Done(m),
        ) == Some(t),
        m.error_message == Some(t) && t.len() > 0 ==> failure(EventView::Done(m)) == Some(t),
        m.stop_reason == StopReason::Error && m.error_message is None ==> failure(EventView::Done(m))
            == Some("provider error"@),
        m.stop_reason != StopReason::Error && (m.error_message is None || m.error_message->0.len()
            == 0) ==> failure(EventView::Done(m)) is None,
{
}

} // verus!
