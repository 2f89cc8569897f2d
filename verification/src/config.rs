//! The registry of backends and models in a configuration file.

use vstd::prelude::*;

use crate::ai::routing::TargetView;
use crate::json::{
    field, field_trees, item, item_trees, json_of_value, lemma_field_keys, text, uint64,
    value_tree, Json, JsonView,
};
use crate::registry::{
    backends_view, default_kind, empty_registry, models_view, serve_view, BackendEntry,
    BackendEntryView, ModelEntry, ModelEntryView, RegistryFile, RegistryView, ServeEntry,
};
use crate::text::chars::{owned, same};
use crate::text::number::{decimal, usize_text};
use crate::text::pairs::text_pairs;
use crate::text::search::starts_with;

verus! {

/// What `toml::from_str` reads out of a text; nothing where it reports an error.
pub uninterp spec fn toml_tree(t: Seq<char>) -> Option<JsonView>;

/// What `toml::from_str` says of a text that it cannot read.
pub uninterp spec fn toml_error(t: Seq<char>) -> Seq<char>;

/// Calls `toml::from_str`: what it reads is a function of the text, named `toml_tree`, and so is
/// the text of its error, named `toml_error`. The value is a `serde_json::Value`, in which dates
/// stand as objects.
#[verifier::external_body]
fn value_of_toml(t: &str) -> (r: Result<serde_json::Value, String>)
    ensures
        match r {
            Ok(v) => toml_tree(t@) == Some(value_tree(v)),
            Err(e) => toml_tree(t@) is None && e@ == toml_error(t@),
        },
{
    toml::from_str(t).map_err(|e| e.to_string())
}

/// What `toml::Value::try_into` hands over of what `toml::from_str` reads out of a text as a
/// `toml::Value`; nothing where either reports an error.
pub uninterp spec fn config_tree(t: Seq<char>) -> Option<JsonView>;

/// Calls `toml::from_str` for a `toml::Value`, and `toml::Value::try_into` on it: what comes out is
/// a function of the text, named `config_tree`. `toml::Value` hands a date over as its text.
#[verifier::external_body]
fn value_of_config(t: &str) -> (r: Option<serde_json::Value>)
    ensures
        match r {
            Some(v) => config_tree(t@) == Some(value_tree(v)),
            None => config_tree(t@) is None,
        },
{
    toml::from_str::<toml::Value>(t).and_then(|v| v.try_into()).ok()
}

/// Reads the TOML text of a configuration; a date in it is a text.
pub fn parse_toml(t: &str) -> (r: Option<Json>)
    ensures
        match r {
            Some(j) => config_tree(t@) == Some(j@),
            None => config_tree(t@) is None,
        },
{
    match value_of_config(t) {
        Some(v) => Some(json_of_value(v)),
        None => None,
    }
}

/// Whether a value can be a record of `n` members: a table, or an array of their values in order.
/// Straight out of a text, values behind the last member are overlooked.
pub open spec fn is_record(form: ModelForm, v: JsonView, n: nat) -> bool {
    match v {
        JsonView::Object(_) => true,
        JsonView::Array(s) => form == ModelForm::Direct || s.len() <= n,
        _ => false,
    }
}

/// The member of a record: the one with its name in a table, the one at its place in an array.
pub open spec fn slot(v: JsonView, key: Seq<char>, i: nat) -> Option<JsonView> {
    match v {
        JsonView::Array(_) => item(v, i),
        _ => field(v, key),
    }
}

/// The text in a member.
pub open spec fn slot_text(v: JsonView, key: Seq<char>, i: nat) -> Option<Seq<char>> {
    match slot(v, key, i) {
        Some(w) => text(w),
        None => None,
    }
}

/// Whether a member that may be missing is in order: it holds a text, or it is missing from a
/// table.
pub open spec fn may_hold_text(v: JsonView, key: Seq<char>, i: nat) -> bool {
    match slot(v, key, i) {
        Some(w) => w is Text,
        None => v is Object,
    }
}

/// Whether a member that may be missing is in order: it holds a number that is not negative, or it
/// is missing from a table.
pub open spec fn may_hold_number(v: JsonView, key: Seq<char>, i: nat) -> bool {
    match slot(v, key, i) {
        Some(w) => uint64(w) is Some,
        None => v is Object,
    }
}

/// The number in a member.
pub open spec fn slot_number(v: JsonView, key: Seq<char>, i: nat) -> Option<u64> {
    match slot(v, key, i) {
        Some(w) => match uint64(w) {
            Some(n) => Some(n as u64),
            None => None,
        },
        None => None,
    }
}

/// What a member that may be missing holds.
pub open spec fn seen(v: Option<&Json>) -> Option<JsonView> {
    match v {
        Some(j) => Some(j@),
        None => None,
    }
}

impl Json {
    /// Whether this can be a record of `n` members.
    fn record(&self, form: ModelForm, n: usize) -> (r: bool)
        ensures
            r == is_record(form, self@, n as nat),
    {
        match self.items() {
            Some(v) => form == ModelForm::Direct || v.len() <= n,
            None => self.fields().is_some(),
        }
    }

    /// The member of a record.
    fn slot_at(&self, key: &str, i: usize) -> (r: Option<&Json>)
        ensures
            seen(r) == slot(self@, key@, i as nat),
    {
        match self.items() {
            Some(_) => self.at(i),
            None => self.get(key),
        }
    }

    /// The text in a member.
    fn slot_str(&self, key: &str, i: usize) -> (r: Option<String>)
        ensures
            r.deep_view() == slot_text(self@, key@, i as nat),
    {
        match self.slot_at(key, i) {
            Some(j) => match j.as_str() {
                Some(t) => Some(owned(t)),
                None => None,
            },
            None => None,
        }
    }

    /// The text in a member that may be missing; nothing where the member is not in order.
    fn slot_option(&self, key: &str, i: usize) -> (r: Option<Option<String>>)
        ensures
            match r {
                Some(t) => may_hold_text(self@, key@, i as nat) && t.deep_view() == slot_text(
                    self@,
                    key@,
                    i as nat,
                ),
                None => !may_hold_text(self@, key@, i as nat),
            },
    {
        match self.slot_at(key, i) {
            Some(j) => match j.as_str() {
                Some(t) => Some(Some(owned(t))),
                None => None,
            },
            None => if self.fields().is_some() {
                Some(None)
            } else {
                None
            },
        }
    }
}

/// The texts that values are.
pub open spec fn all_text(s: Seq<JsonView>) -> bool {
    forall|i: int| 0 <= i < s.len() ==> #[trigger] s[i] is Text
}

/// Whether a member that may be missing is in order: it holds an array of texts.
pub open spec fn texts_ok(v: Option<JsonView>) -> bool {
    match v {
        Some(JsonView::Array(s)) => all_text(s),
        Some(_) => false,
        None => true,
    }
}

/// The texts in a member.
pub open spec fn texts_in(v: Option<JsonView>) -> Seq<Seq<char>> {
    match v {
        Some(JsonView::Array(s)) => s.map_values(|x: JsonView| x->Text_0),
        _ => Seq::empty(),
    }
}

fn read_texts(v: Option<&Json>) -> (r: Option<Vec<String>>)
    ensures
        match r {
            Some(ts) => texts_ok(seen(v)) && ts.deep_view() == texts_in(seen(v)),
            None => !texts_ok(seen(v)),
        },
{
    let ghost g = seen(v);
    let mut out: Vec<String> = Vec::new();
    let j: &Json = match v {
        Some(j) => j,
        None => {
            assert(out.deep_view() =~= texts_in(g));
            return Some(out);
        },
    };
    let items: &Vec<Json> = match j.items() {
        Some(items) => items,
        None => return None,
    };
    let ghost s = item_trees(items@);
    let n: usize = items.len();
    let mut i: usize = 0;
    assert(out.deep_view() =~= texts_in(g).take(0));
    while i < n
        invariant
            i <= n,
            n == items@.len(),
            s == item_trees(items@),
            s.len() == n,
            g == seen(v),
            g == Some(JsonView::Array(s)),
            forall|k: int| 0 <= k < n ==> #[trigger] s[k] == items@[k]@,
            forall|k: int| 0 <= k < i ==> #[trigger] s[k] is Text,
            out.deep_view() == texts_in(g).take(i as int),
        decreases n - i,
    {
        assert(s[i as int] == items@[i as int]@);
        let t: String = match items[i].as_str() {
            Some(t) => owned(t),
            None => return None,
        };
        let ghost before = out.deep_view();
        out.push(t);
        proof {
            assert(out.deep_view() =~= before.push(t@));
            assert(texts_in(g)[i as int] == t@);
            assert(texts_in(g).take(i + 1) =~= before.push(t@));
        }
        i = i + 1;
    }
    assert(texts_in(g).take(n as int) =~= texts_in(g));
    Some(out)
}

/// Whether headers are in order: a table of texts, or missing.
pub open spec fn headers_ok(v: Option<JsonView>) -> bool {
    match v {
        Some(JsonView::Object(m)) => forall|k: Seq<char>| #[trigger] m.contains_key(k) ==> m[k] is Text,
        Some(_) => false,
        None => true,
    }
}

/// Whether `h` are the headers in a table, each once.
pub open spec fn headers_are(v: Option<JsonView>, h: Seq<(Seq<char>, Seq<char>)>) -> bool {
    match v {
        Some(JsonView::Object(m)) => {
            &&& forall|i: int|
                0 <= i < h.len() ==> m.contains_key((#[trigger] h[i]).0) && m[h[i].0]
                    == JsonView::Text(h[i].1)
            &&& forall|k: Seq<char>| #[trigger] m.contains_key(k) ==> is_header(h, k)
            &&& forall|i: int, j: int|
                0 <= i < j < h.len() ==> (#[trigger] h[i]).0 != (#[trigger] h[j]).0
        },
        _ => h.len() == 0,
    }
}

/// Whether there is a header with a name.
pub open spec fn is_header(h: Seq<(Seq<char>, Seq<char>)>, k: Seq<char>) -> bool {
    exists|i: int| 0 <= i < h.len() && (#[trigger] h[i]).0 == k
}


fn read_headers(v: Option<&Json>) -> (r: Option<Vec<(String, String)>>)
    ensures
        match r {
            Some(h) => headers_ok(seen(v)) && headers_are(seen(v), text_pairs(h@)),
            None => !headers_ok(seen(v)),
        },
{
    let mut out: Vec<(String, String)> = Vec::new();
    let j: &Json = match v {
        Some(j) => j,
        None => {
            return Some(out);
        },
    };
    let fields: &Vec<(String, Json)> = match j.fields() {
        Some(fields) => fields,
        None => return None,
    };
    let ghost m = field_trees(fields@);
    let n: usize = fields.len();
    let mut i: usize = 0;
    while i < n
        invariant
            i <= n,
            n == fields@.len(),
            m == field_trees(fields@),
            j@ == JsonView::Object(m),
            seen(v) == Some(j@),
            forall|k: int|
                0 <= k < out@.len() ==> m.contains_key((#[trigger] text_pairs(out@)[k]).0) && m[
                text_pairs(out@)[k].0] == JsonView::Text(text_pairs(out@)[k].1),
            forall|a: int, b: int|
                0 <= a < b < out@.len() ==> (#[trigger] text_pairs(out@)[a]).0 != (
                #[trigger] text_pairs(out@)[b]).0,
            forall|k: int|
                0 <= k < i ==> is_header(text_pairs(out@), (#[trigger] fields@[k]).0@),
        decreases n - i,
    {
        let key: &str = fields[i].0.as_str();
        proof {
            lemma_field_keys(fields@, key@);
            assert(fields@[i as int].0@ == key@);
            assert(m.contains_key(key@));
        }
        let value: &str = match j.get(key) {
            Some(w) => match w.as_str() {
                Some(t) => t,
                None => return None,
            },
            None => return None,
        };
        let mut known: bool = false;
        let mut k: usize = 0;
        while k < out.len()
            invariant
                k <= out@.len(),
                known == exists|a: int| 0 <= a < k && (#[trigger] text_pairs(out@)[a]).0 == key@,
            decreases out@.len() - k,
        {
            assert(text_pairs(out@)[k as int].0 == out@[k as int].0@);
            if same(out[k].0.as_str(), key) {
                known = true;
            }
            k = k + 1;
        }
        let ghost before = text_pairs(out@);
        if !known {
            out.push((owned(key), owned(value)));
            proof {
                let now = text_pairs(out@);
                assert(now =~= before.push((key@, value@)));
                assert(now[before.len() as int].0 == key@);
                assert forall|q: int| 0 <= q < i implies is_header(
                    now,
                    (#[trigger] fields@[q]).0@,
                ) by {
                    let a = choose|a: int|
                        0 <= a < before.len() && (#[trigger] before[a]).0 == fields@[q].0@;
                    assert(now[a] == before[a]);
                }
                assert forall|a: int, b: int| 0 <= a < b < out@.len() implies (
                #[trigger] now[a]).0 != (#[trigger] now[b]).0 by {
                    assert(now[a] == before[a]);
                    if b < before.len() {
                        assert(now[b] == before[b]);
                    }
                }
                assert forall|a: int| 0 <= a < out@.len() implies m.contains_key(
                    (#[trigger] now[a]).0,
                ) && m[now[a].0] == JsonView::Text(now[a].1) by {
                    if a < before.len() {
                        assert(now[a] == before[a]);
                    }
                }
            }
        }
        assert(is_header(text_pairs(out@), key@));
        i = i + 1;
    }
    proof {
        assert forall|k: Seq<char>| #[trigger] m.contains_key(k) implies is_header(
            text_pairs(out@),
            k,
        ) && m[k] is Text by {
            lemma_field_keys(fields@, k);
            let a = choose|a: int| 0 <= a < fields@.len() && (#[trigger] fields@[a]).0@ == k;
            assert(is_header(text_pairs(out@), fields@[a].0@));
        }
    }
    Some(out)
}

/// Whether a value is a backend.
pub open spec fn backend_ok(form: ModelForm, v: JsonView) -> bool {
    &&& is_record(form, v, 5)
    &&& slot_text(v, "name"@, 0) is Some
    &&& slot(v, "kind"@, 1) is Some ==> slot_text(v, "kind"@, 1) is Some
    &&& slot_text(v, "base_url"@, 2) is Some
    &&& may_hold_text(v, "api_key_env"@, 3)
    &&& headers_ok(slot(v, "headers"@, 4))
}

/// Whether `b` is the backend that a value is. One that names no kind has the default kind.
pub open spec fn backend_is(v: JsonView, b: BackendEntryView) -> bool {
    &&& slot_text(v, "name"@, 0) == Some(b.name)
    &&& b.kind == (match slot_text(v, "kind"@, 1) {
        Some(k) => k,
        None => "openai_compatible"@,
    })
    &&& slot_text(v, "base_url"@, 2) == Some(b.base_url)
    &&& slot_text(v, "api_key_env"@, 3) == b.api_key_env
    &&& headers_are(slot(v, "headers"@, 4), b.headers)
}

fn read_backend(form: ModelForm, v: &Json) -> (r: Option<BackendEntry>)
    ensures
        match r {
            Some(b) => backend_ok(form, v@) && backend_is(v@, b@),
            None => !backend_ok(form, v@),
        },
{
    if !v.record(form, 5) {
        return None;
    }
    let name: Option<String> = v.slot_str("name", 0);
    let kind: Option<String> = match v.slot_at("kind", 1) {
        Some(_) => v.slot_str("kind", 1),
        None => Some(default_kind()),
    };
    let base_url: Option<String> = v.slot_str("base_url", 2);
    let api_key_env: Option<Option<String>> = v.slot_option("api_key_env", 3);
    let headers: Option<Vec<(String, String)>> = read_headers(v.slot_at("headers", 4));
    match (name, kind, base_url, api_key_env, headers) {
        (Some(name), Some(kind), Some(base_url), Some(api_key_env), Some(headers)) => Some(
            BackendEntry { name, kind, base_url, api_key_env, headers },
        ),
        _ => None,
    }
}

/// Whether a value is a serve target.
pub open spec fn serve_ok(form: ModelForm, v: JsonView) -> bool {
    is_record(form, v, 2) && slot_text(v, "backend"@, 0) is Some && slot_text(v, "model"@, 1) is Some
}

/// The serve target that a value is.
pub open spec fn serve_of(v: JsonView) -> TargetView {
    TargetView {
        backend: slot_text(v, "backend"@, 0)->0,
        remote_model: slot_text(v, "model"@, 1)->0,
    }
}

/// Whether a value is an array of serve targets.
pub open spec fn serves_ok(form: ModelForm, v: JsonView) -> bool {
    v matches JsonView::Array(s) && forall|i: int| 0 <= i < s.len() ==> serve_ok(form, #[trigger] s[i])
}

/// The serve targets that a value is.
pub open spec fn serves_of(v: JsonView) -> Seq<TargetView> {
    match v {
        JsonView::Array(s) => s.map_values(|x: JsonView| serve_of(x)),
        _ => Seq::empty(),
    }
}

fn read_serves(form: ModelForm, v: &Json) -> (r: Option<Vec<ServeEntry>>)
    ensures
        match r {
            Some(out) => serves_ok(form, v@) && serve_view(out@) == serves_of(v@),
            None => !serves_ok(form, v@),
        },
{
    let items: &Vec<Json> = match v.items() {
        Some(items) => items,
        None => return None,
    };
    let ghost s = item_trees(items@);
    let mut out: Vec<ServeEntry> = Vec::new();
    let n: usize = items.len();
    let mut i: usize = 0;
    assert(serve_view(out@) =~= serves_of(v@).take(0));
    while i < n
        invariant
            i <= n,
            n == items@.len(),
            s == item_trees(items@),
            s.len() == n,
            v@ == JsonView::Array(s),
            forall|k: int| 0 <= k < n ==> #[trigger] s[k] == items@[k]@,
            forall|k: int| 0 <= k < i ==> serve_ok(form, #[trigger] s[k]),
            serve_view(out@) == serves_of(v@).take(i as int),
        decreases n - i,
    {
        let x: &Json = &items[i];
        assert(s[i as int] == x@);
        if !x.record(form, 2) {
            assert(!serve_ok(form, s[i as int]));
            return None;
        }
        let e: ServeEntry = match (x.slot_str("backend", 0), x.slot_str("model", 1)) {
            (Some(backend), Some(model)) => ServeEntry { backend, model },
            _ => {
                assert(!serve_ok(form, s[i as int]));
                return None;
            },
        };
        let ghost before = serve_view(out@);
        proof {
            assert(serve_view(out@.push(e)) =~= before.push(e@));
            assert(serves_of(v@)[i as int] == e@);
            assert(serves_of(v@).take(i + 1) =~= before.push(e@));
        }
        out.push(e);
        i = i + 1;
    }
    assert(serves_of(v@).take(n as int) =~= serves_of(v@));
    Some(out)
}

/// Whether a value is a model.
pub open spec fn model_ok(form: ModelForm, v: JsonView) -> bool {
    &&& is_record(form, v, 6)
    &&& slot_text(v, "alias"@, 0) is Some
    &&& may_hold_text(v, "persona"@, 1)
    &&& may_hold_text(v, "tier"@, 2)
    &&& may_hold_number(v, "ctx"@, 3)
    &&& texts_ok(slot(v, "caps"@, 4))
    &&& slot(v, "serve"@, 5) matches Some(w) && serves_ok(form, w)
}

/// The model that a value is.
pub open spec fn model_of(v: JsonView) -> ModelEntryView {
    ModelEntryView {
        alias: slot_text(v, "alias"@, 0)->0,
        persona: slot_text(v, "persona"@, 1),
        tier: slot_text(v, "tier"@, 2),
        ctx: slot_number(v, "ctx"@, 3),
        caps: texts_in(slot(v, "caps"@, 4)),
        serve: serves_of(slot(v, "serve"@, 5)->0),
    }
}

/// Whether a value is a model as the gateway reads it: nothing but the alias need be there.
pub open spec fn gateway_model_ok(v: JsonView) -> bool {
    &&& is_record(ModelForm::Gateway, v, 4)
    &&& slot_text(v, "alias"@, 0) is Some
    &&& may_hold_text(v, "tier"@, 1)
    &&& may_hold_number(v, "ctx"@, 2)
    &&& slot(v, "serve"@, 3) matches Some(w) ==> serves_ok(ModelForm::Gateway, w)
}

/// The model that a value is, as the gateway reads it.
pub open spec fn gateway_model_of(v: JsonView) -> ModelEntryView {
    ModelEntryView {
        alias: slot_text(v, "alias"@, 0)->0,
        persona: None,
        tier: slot_text(v, "tier"@, 1),
        ctx: slot_number(v, "ctx"@, 2),
        caps: Seq::empty(),
        serve: match slot(v, "serve"@, 3) {
            Some(w) => serves_of(w),
            None => Seq::empty(),
        },
    }
}

fn read_number(v: &Json, key: &str, i: usize) -> (r: Option<Option<u64>>)
    ensures
        match r {
            Some(n) => may_hold_number(v@, key@, i as nat) && n == slot_number(v@, key@, i as nat),
            None => !may_hold_number(v@, key@, i as nat),
        },
{
    match v.slot_at(key, i) {
        Some(j) => match j.as_u64() {
            Some(n) => Some(Some(n)),
            None => None,
        },
        None => if v.fields().is_some() {
            Some(None)
        } else {
            None
        },
    }
}

fn read_model(form: ModelForm, v: &Json) -> (r: Option<ModelEntry>)
    ensures
        match r {
            Some(m) => model_ok(form, v@) && m@ == model_of(v@),
            None => !model_ok(form, v@),
        },
{
    if !v.record(form, 6) {
        return None;
    }
    let alias: Option<String> = v.slot_str("alias", 0);
    let persona: Option<Option<String>> = v.slot_option("persona", 1);
    let tier: Option<Option<String>> = v.slot_option("tier", 2);
    let ctx: Option<Option<u64>> = read_number(v, "ctx", 3);
    let caps: Option<Vec<String>> = read_texts(v.slot_at("caps", 4));
    let serve: Option<Vec<ServeEntry>> = match v.slot_at("serve", 5) {
        Some(w) => read_serves(form, w),
        None => None,
    };
    match (alias, persona, tier, ctx, caps, serve) {
        (Some(alias), Some(persona), Some(tier), Some(ctx), Some(caps), Some(serve)) => Some(
            ModelEntry { alias, persona, tier, ctx, caps, serve },
        ),
        _ => None,
    }
}

fn read_gateway_model(v: &Json) -> (r: Option<ModelEntry>)
    ensures
        match r {
            Some(m) => gateway_model_ok(v@) && m@ == gateway_model_of(v@),
            None => !gateway_model_ok(v@),
        },
{
    if !v.record(ModelForm::Gateway, 4) {
        return None;
    }
    let alias: Option<String> = v.slot_str("alias", 0);
    let tier: Option<Option<String>> = v.slot_option("tier", 1);
    let ctx: Option<Option<u64>> = read_number(v, "ctx", 2);
    let serve: Option<Vec<ServeEntry>> = match v.slot_at("serve", 3) {
        Some(w) => read_serves(ModelForm::Gateway, w),
        None => Some(Vec::new()),
    };
    match (alias, tier, ctx, serve) {
        (Some(alias), Some(tier), Some(ctx), Some(serve)) => {
            let m: ModelEntry = ModelEntry {
                alias,
                persona: None,
                tier,
                ctx,
                caps: Vec::new(),
                serve,
            };
            assert(m@.caps =~= gateway_model_of(v@).caps);
            assert(m@.serve =~= gateway_model_of(v@).serve);
            Some(m)
        },
        _ => None,
    }
}

/// Whether a member that may be missing is an array of backends.
pub open spec fn backends_ok(form: ModelForm, v: Option<JsonView>) -> bool {
    match v {
        Some(JsonView::Array(s)) => all_backends(form, s),
        Some(_) => false,
        None => true,
    }
}

/// Whether values are backends.
pub open spec fn all_backends(form: ModelForm, s: Seq<JsonView>) -> bool {
    forall|i: int| 0 <= i < s.len() ==> backend_ok(form, #[trigger] s[i])
}

/// Whether `bs` are the backends in a member.
pub open spec fn backends_are(v: Option<JsonView>, bs: Seq<BackendEntryView>) -> bool {
    match v {
        Some(JsonView::Array(s)) => bs.len() == s.len() && forall|i: int|
            0 <= i < s.len() ==> backend_is(#[trigger] s[i], bs[i]),
        _ => bs.len() == 0,
    }
}

fn read_backends(form: ModelForm, v: Option<&Json>) -> (r: Option<Vec<BackendEntry>>)
    ensures
        match r {
            Some(out) => backends_ok(form, seen(v)) && backends_are(seen(v), backends_view(out@)),
            None => !backends_ok(form, seen(v)),
        },
{
    let mut out: Vec<BackendEntry> = Vec::new();
    let j: &Json = match v {
        Some(j) => j,
        None => {
            return Some(out);
        },
    };
    let items: &Vec<Json> = match j.items() {
        Some(items) => items,
        None => return None,
    };
    let ghost s = item_trees(items@);
    let n: usize = items.len();
    let mut i: usize = 0;
    while i < n
        invariant
            i <= n,
            n == items@.len(),
            s == item_trees(items@),
            s.len() == n,
            seen(v) == Some(JsonView::Array(s)),
            forall|k: int| 0 <= k < n ==> #[trigger] s[k] == items@[k]@,
            out@.len() == i,
            forall|k: int|
                0 <= k < i ==> backend_ok(form, #[trigger] s[k]) && backend_is(
                    s[k],
                    backends_view(out@)[k],
                ),
        decreases n - i,
    {
        assert(s[i as int] == items@[i as int]@);
        match read_backend(form, &items[i]) {
            Some(b) => {
                let ghost before = backends_view(out@);
                out.push(b);
                assert(backends_view(out@) =~= before.push(b@));
            },
            None => {
                assert(!backend_ok(form, s[i as int]));
                assert(!all_backends(form, s));
                return None;
            },
        }
        i = i + 1;
    }
    Some(out)
}

/// How a registry is read: in full, as the gateway reads it, or in full and straight out of a text.
#[derive(Clone, Copy, PartialEq, Eq, Structural)]
pub enum ModelForm {
    Full,
    Gateway,
    Direct,
}

/// Whether a value is a model.
pub open spec fn model_fits(form: ModelForm, v: JsonView) -> bool {
    match form {
        ModelForm::Gateway => gateway_model_ok(v),
        _ => model_ok(form, v),
    }
}

/// The model that a value is.
pub open spec fn model_as(form: ModelForm, v: JsonView) -> ModelEntryView {
    match form {
        ModelForm::Gateway => gateway_model_of(v),
        _ => model_of(v),
    }
}

/// Whether a member that may be missing is an array of models.
pub open spec fn models_ok(form: ModelForm, v: Option<JsonView>) -> bool {
    match v {
        Some(JsonView::Array(s)) => forall|i: int|
            0 <= i < s.len() ==> model_fits(form, #[trigger] s[i]),
        Some(_) => false,
        None => true,
    }
}

/// The models in a member.
pub open spec fn models_in(form: ModelForm, v: Option<JsonView>) -> Seq<ModelEntryView> {
    match v {
        Some(JsonView::Array(s)) => s.map_values(|x: JsonView| model_as(form, x)),
        _ => Seq::empty(),
    }
}

fn read_models(form: ModelForm, v: Option<&Json>) -> (r: Option<Vec<ModelEntry>>)
    ensures
        match r {
            Some(out) => models_ok(form, seen(v)) && models_view(out@) == models_in(form, seen(v)),
            None => !models_ok(form, seen(v)),
        },
{
    let mut out: Vec<ModelEntry> = Vec::new();
    let ghost want = models_in(form, seen(v));
    let j: &Json = match v {
        Some(j) => j,
        None => {
            assert(models_view(out@) =~= want);
            return Some(out);
        },
    };
    let items: &Vec<Json> = match j.items() {
        Some(items) => items,
        None => return None,
    };
    let ghost s = item_trees(items@);
    let n: usize = items.len();
    let mut i: usize = 0;
    assert(models_view(out@) =~= want.take(0));
    while i < n
        invariant
            i <= n,
            n == items@.len(),
            s == item_trees(items@),
            s.len() == n,
            seen(v) == Some(JsonView::Array(s)),
            want == models_in(form, seen(v)),
            forall|k: int| 0 <= k < n ==> #[trigger] s[k] == items@[k]@,
            forall|k: int| 0 <= k < i ==> model_fits(form, #[trigger] s[k]),
            models_view(out@) == want.take(i as int),
        decreases n - i,
    {
        assert(s[i as int] == items@[i as int]@);
        let found: Option<ModelEntry> = match form {
            ModelForm::Gateway => read_gateway_model(&items[i]),
            _ => read_model(form, &items[i]),
        };
        match found {
            Some(m) => {
                let ghost before = models_view(out@);
                proof {
                    assert(models_view(out@.push(m)) =~= before.push(m@));
                    assert(want[i as int] == m@);
                    assert(want.take(i + 1) =~= before.push(m@));
                }
                out.push(m);
            },
            None => {
                assert(!model_fits(form, s[i as int]));
                return None;
            },
        }
        i = i + 1;
    }
    assert(want.take(n as int) =~= want);
    Some(out)
}

/// Whether a configuration holds a registry that can be read: a table whose `backends` and
/// `models`, where they are there, are in order. Nothing else in it counts.
pub open spec fn registry_ok(form: ModelForm, v: JsonView) -> bool {
    v is Object && backends_ok(form, field(v, "backends"@)) && models_ok(form, field(v, "models"@))
}

/// Whether `r` is the registry in a configuration.
pub open spec fn registry_is(form: ModelForm, v: JsonView, r: RegistryView) -> bool {
    backends_are(field(v, "backends"@), r.backends) && r.models == models_in(
        form,
        field(v, "models"@),
    )
}

/// The registry in a configuration; nothing where it cannot be read.
pub fn read_registry(form: ModelForm, value: &Json) -> (r: Option<RegistryFile>)
    ensures
        match r {
            Some(reg) => registry_ok(form, value@) && registry_is(form, value@, reg@),
            None => !registry_ok(form, value@),
        },
{
    if value.fields().is_none() {
        return None;
    }
    match (read_backends(form, value.get("backends")), read_models(form, value.get("models"))) {
        (Some(backends), Some(models)) => Some(RegistryFile { backends, models }),
        _ => None,
    }
}

/// Whether `r` is what is configured: the registry in a configuration, or nothing where it cannot
/// be read.
pub open spec fn configured(form: ModelForm, v: JsonView, r: RegistryView) -> bool {
    if registry_ok(form, v) {
        registry_is(form, v, r)
    } else {
        r == empty_registry()
    }
}

/// The registry in a configuration, or nothing configured where it cannot be read.
pub fn parse_from_config_value(form: ModelForm, value: &Json) -> (r: RegistryFile)
    ensures
        configured(form, value@, r@),
{
    match read_registry(form, value) {
        Some(reg) => reg,
        None => RegistryFile::default(),
    }
}

/// Why a configuration text holds no registry.
#[derive(Debug)]
pub enum ConfigError {
    /// The text is not TOML, and what `toml` says of it.
    Toml(String),
    /// The text is TOML, and what is in it is no registry.
    Registry,
}

/// The registry in a configuration text, or why there is none. A date in the text is a table.
pub fn parse_registry_toml(text: &str) -> (r: Result<RegistryFile, ConfigError>)
    ensures
        match toml_tree(text@) {
            Some(v) => match r {
                Ok(reg) => registry_ok(ModelForm::Direct, v) && registry_is(
                    ModelForm::Direct,
                    v,
                    reg@,
                ),
                Err(e) => e is Registry && !registry_ok(ModelForm::Direct, v),
            },
            None => r matches Err(ConfigError::Toml(e)) && e@ == toml_error(text@),
        },
{
    match value_of_toml(text) {
        Ok(v) => match read_registry(ModelForm::Direct, &json_of_value(v)) {
            Some(reg) => Ok(reg),
            None => Err(ConfigError::Registry),
        },
        Err(e) => Err(ConfigError::Toml(e)),
    }
}

impl ConfigError {
    /// What is said of this error.
    pub fn message(&self) -> (r: String)
        ensures
            r@ == match self {
                ConfigError::Toml(e) => e@,
                ConfigError::Registry => "not a registry of backends and models"@,
            },
    {
        match self {
            ConfigError::Toml(e) => owned(e),
            ConfigError::Registry => owned("not a registry of backends and models"),
        }
    }
}

/// Whether a configuration is ignored: it holds backends or models, and they cannot be read.
pub open spec fn is_ignored(form: ModelForm, v: JsonView) -> bool {
    (field(v, "backends"@) is Some || field(v, "models"@) is Some) && !registry_ok(form, v)
}

/// What is said of a configuration that is ignored, where `error` says why.
pub open spec fn ignored_note_text(form: ModelForm, error: Seq<char>) -> Seq<char> {
    match form {
        ModelForm::Gateway => "[pirs-claw registry: parse warning: "@ + error + "]"@,
        _ => "[warning: backends/models in config.toml ignored: "@ + error + "]"@,
    }
}

/// What is said of a configuration, where it is ignored; `error` says why it cannot be read.
pub fn ignored_note(form: ModelForm, value: &Json, error: &str) -> (r: Option<String>)
    ensures
        r.deep_view() == (if is_ignored(form, value@) {
            Some(ignored_note_text(form, error@))
        } else {
            None
        }),
{
    let some: bool = value.get("backends").is_some() || value.get("models").is_some();
    if !some || read_registry(form, value).is_some() {
        return None;
    }
    let mut t: String = match form {
        ModelForm::Gateway => owned("[pirs-claw registry: parse warning: "),
        _ => owned("[warning: backends/models in config.toml ignored: "),
    };
    t.append(error);
    t.append("]");
    Some(t)
}

/// The registry in the text of a configuration file; nothing configured where the file is missing
/// or cannot be read.
pub fn load_registry_text(form: ModelForm, text: Option<&str>) -> (r: RegistryFile)
    ensures
        match text {
            Some(t) => match config_tree(t@) {
                Some(v) => configured(form, v, r@),
                None => r@ == empty_registry(),
            },
            None => r@ == empty_registry(),
        },
{
    match text {
        Some(t) => match parse_toml(t) {
            Some(v) => parse_from_config_value(form, &v),
            None => RegistryFile::default(),
        },
        None => RegistryFile::default(),
    }
}

/// What is said of the backends in a project's configuration.
pub open spec fn project_note_text(backends: nat, path: Seq<char>, trusted: bool) -> Option<
    Seq<char>,
> {
    if backends == 0 {
        None
    } else if trusted {
        Some(
            "[model registry: loading "@ + decimal(backends)
                + " backend(s) from trusted project config "@ + path + "]"@,
        )
    } else {
        Some(
            "[note: project "@ + path
                + " defines backends but is not trusted — backends ignored (run `pirs trust` in the project, or move backends to ~/.pirs/config.toml). Model aliases still load.]"@,
        )
    }
}

/// What is said of the backends in a project's configuration.
pub fn project_note(project: &RegistryFile, path: &str, trusted: bool) -> (r: Option<String>)
    ensures
        r.deep_view() == project_note_text(project@.backends.len(), path@, trusted),
{
    if project.backends.len() == 0 {
        return None;
    }
    let mut t: String = String::new();
    if trusted {
        t.append("[model registry: loading ");
        t.append(usize_text(project.backends.len()).as_str());
        t.append(" backend(s) from trusted project config ");
        t.append(path);
        t.append("]");
    } else {
        t.append("[note: project ");
        t.append(path);
        t.append(
            " defines backends but is not trusted — backends ignored (run `pirs trust` in the project, or move backends to ~/.pirs/config.toml). Model aliases still load.]",
        );
    }
    assert(t@ =~= project_note_text(project@.backends.len(), path@, trusted)->0);
    Some(t)
}

/// Keys of a configuration other than `backends` and `models` have no part in the registry.
pub proof fn lemma_other_keys(
    form: ModelForm,
    m: Map<Seq<char>, JsonView>,
    key: Seq<char>,
    w: JsonView,
    r: RegistryView,
)
    requires
        key != "backends"@,
        key != "models"@,
    ensures
        configured(form, JsonView::Object(m.insert(key, w)), r) == configured(
            form,
            JsonView::Object(m),
            r,
        ),
{
}

/// Whether a table holds the text `t` under the key `key`.
pub open spec fn holds_text(m: Map<Seq<char>, JsonView>, key: Seq<char>, t: Seq<char>) -> bool {
    m.contains_key(key) && m[key] == JsonView::Text(t)
}

/// How a backend is read: a table with a `name` and a `base_url` is one, with the kind that it names
/// or else `openai_compatible`, with the variable for its key and the headers where it has them; a
/// table without either, or with anything but a text for them, is none.
pub proof fn lemma_backend_read(
    form: ModelForm,
    m: Map<Seq<char>, JsonView>,
    b: BackendEntryView,
    h: Map<Seq<char>, JsonView>,
)
    ensures
        !m.contains_key("name"@) || !(m["name"@] is Text) || !m.contains_key("base_url"@) || !(
        m["base_url"@] is Text) ==> !backend_ok(form, JsonView::Object(m)),
        m.contains_key("name"@) && m["name"@] is Text && m.contains_key("base_url"@)
            && m["base_url"@] is Text && (!m.contains_key("kind"@) || m["kind"@] is Text) && (
        !m.contains_key("api_key_env"@) || m["api_key_env"@] is Text) && !m.contains_key("headers"@)
            ==> backend_ok(form, JsonView::Object(m)),
        backend_ok(form, JsonView::Object(m)) && backend_is(JsonView::Object(m), b) ==> {
            &&& holds_text(m, "name"@, b.name)
            &&& holds_text(m, "base_url"@, b.base_url)
            &&& m.contains_key("kind"@) ==> holds_text(m, "kind"@, b.kind)
            &&& !m.contains_key("kind"@) ==> b.kind == "openai_compatible"@
            &&& m.contains_key("api_key_env"@) ==> b.api_key_env is Some && holds_text(
                m,
                "api_key_env"@,
                b.api_key_env->0,
            )
            &&& !m.contains_key("api_key_env"@) ==> b.api_key_env is None
            &&& !m.contains_key("headers"@) ==> b.headers.len() == 0
            &&& m.contains_key("headers"@) && m["headers"@] == JsonView::Object(h) ==> {
                &&& forall|i: int|
                    0 <= i < b.headers.len() ==> holds_text(
                        h,
                        (#[trigger] b.headers[i]).0,
                        b.headers[i].1,
                    )
                &&& forall|k: Seq<char>| #[trigger]
                    h.contains_key(k) ==> exists|i: int|
                        0 <= i < b.headers.len() && (#[trigger] b.headers[i]).0 == k
            }
        },
{
    let v = JsonView::Object(m);
    if backend_ok(form, v) && backend_is(v, b) && m.contains_key("headers"@) && m["headers"@]
        == JsonView::Object(h) {
        assert(slot(v, "headers"@, 4) == Some(JsonView::Object(h)));
        assert forall|k: Seq<char>| #[trigger] h.contains_key(k) implies exists|i: int|
            0 <= i < b.headers.len() && (#[trigger] b.headers[i]).0 == k by {
            assert(is_header(b.headers, k));
        }
    }
}

/// How a model is read: its alias, and what it may name besides, as they stand in the table; and
/// where it is served, in the order of the table.
pub proof fn lemma_model_read(
    form: ModelForm,
    m: Map<Seq<char>, JsonView>,
    targets: Seq<JsonView>,
    i: int,
    t: Map<Seq<char>, JsonView>,
)
    requires
        model_fits(form, JsonView::Object(m)),
        m.contains_key("serve"@),
        m["serve"@] == JsonView::Array(targets),
        0 <= i < targets.len(),
        targets[i] == JsonView::Object(t),
    ensures
        ({
            let e = model_as(form, JsonView::Object(m));
            &&& holds_text(m, "alias"@, e.alias)
            &&& m.contains_key("tier"@) ==> e.tier is Some && holds_text(m, "tier"@, e.tier->0)
            &&& !m.contains_key("tier"@) ==> e.tier is None
            &&& m.contains_key("ctx"@) ==> e.ctx is Some && m["ctx"@] == JsonView::Int(
                e.ctx->0 as int,
            )
            &&& !m.contains_key("ctx"@) ==> e.ctx is None
            &&& !(form is Gateway) && m.contains_key("persona"@) ==> e.persona is Some && holds_text(
                m,
                "persona"@,
                e.persona->0,
            )
            &&& e.serve.len() == targets.len()
            &&& holds_text(t, "backend"@, e.serve[i].backend)
            &&& holds_text(t, "model"@, e.serve[i].remote_model)
        }),
{
    let v = JsonView::Object(m);
    let w = JsonView::Array(targets);
    assert(slot(v, "serve"@, 5) == Some(w));
    assert(slot(v, "serve"@, 3) == Some(w));
    assert(serve_ok(form, targets[i]));
    assert(model_as(form, v).serve == targets.map_values(|x: JsonView| serve_of(x)));
}

/// Which models are read: a table needs a text as its alias, and, but for the gateway, a list of
/// where it is served; each entry of that list needs a backend and a model.
pub proof fn lemma_model_needs(form: ModelForm, m: Map<Seq<char>, JsonView>, targets: Seq<JsonView>)
    ensures
        !m.contains_key("alias"@) || !(m["alias"@] is Text) ==> !model_fits(form, JsonView::Object(m)),
        !(form is Gateway) && !m.contains_key("serve"@) ==> !model_fits(form, JsonView::Object(m)),
        form is Gateway && m.contains_key("alias"@) && m["alias"@] is Text && !m.contains_key("serve"@)
            && !m.contains_key("tier"@) && !m.contains_key("ctx"@) ==> model_fits(
            form,
            JsonView::Object(m),
        ) && model_as(form, JsonView::Object(m)).serve.len() == 0,
        m.contains_key("alias"@) && m["alias"@] is Text && !m.contains_key("persona"@)
            && !m.contains_key("tier"@) && !m.contains_key("ctx"@) && !m.contains_key("caps"@)
            && m.contains_key("serve"@) && m["serve"@] == JsonView::Array(targets) && (forall|i: int|
            0 <= i < targets.len() ==> (#[trigger] targets[i]) is Object && field(
                targets[i],
                "backend"@,
            ) is Some && field(targets[i], "backend"@)->0 is Text && field(targets[i], "model"@)
                is Some && field(targets[i], "model"@)->0 is Text) ==> model_fits(
            form,
            JsonView::Object(m),
        ),
{
    let v = JsonView::Object(m);
    assert(slot(v, "serve"@, 5) == field(v, "serve"@));
    assert(slot(v, "serve"@, 3) == field(v, "serve"@));
}

/// A configuration that can be read is read whole: as many backends and models as it lists, in the
/// order in which it lists them. One that holds neither configures nothing.
pub proof fn lemma_configuration_read(
    form: ModelForm,
    m: Map<Seq<char>, JsonView>,
    bs: Seq<JsonView>,
    ms: Seq<JsonView>,
    r: RegistryView,
)
    requires
        configured(form, JsonView::Object(m), r),
        registry_ok(form, JsonView::Object(m)),
    ensures
        m.contains_key("backends"@) && m["backends"@] == JsonView::Array(bs) ==> r.backends.len()
            == bs.len() && forall|i: int|
            0 <= i < bs.len() ==> backend_is(#[trigger] bs[i], r.backends[i]),
        !m.contains_key("backends"@) ==> r.backends.len() == 0,
        m.contains_key("models"@) && m["models"@] == JsonView::Array(ms) ==> r.models.len() == ms.len()
            && forall|i: int|
            0 <= i < ms.len() ==> (#[trigger] r.models[i]) == model_as(form, ms[i]),
        !m.contains_key("models"@) ==> r.models.len() == 0,
{
}

/// What is said of the backends in a project's configuration: nothing where there are none, how many
/// are loaded where the project is trusted, and that they are not where it is not.
pub proof fn lemma_project_note(n: nat, path: Seq<char>)
    ensures
        project_note_text(0, path, true) is None && project_note_text(0, path, false) is None,
        n > 0 ==> project_note_text(n, path, true) == Some(
            "[model registry: loading "@ + decimal(n) + " backend(s) from trusted project config "@
                + path + "]"@,
        ),
        n > 0 ==> project_note_text(n, path, false) is Some && starts_with(
            project_note_text(n, path, false)->0,
            "[note: project "@ + path + " defines backends but is not trusted"@,
        ),
{
    if n > 0 {
        let note = project_note_text(n, path, false)->0;
        let end = " defines backends but is not trusted — backends ignored (run `pirs trust` in the project, or move backends to ~/.pirs/config.toml). Model aliases still load.]"@;
        let start = " defines backends but is not trusted"@;
        reveal_strlit(" defines backends but is not trusted");
        reveal_strlit(" defines backends but is not trusted — backends ignored (run `pirs trust` in the project, or move backends to ~/.pirs/config.toml). Model aliases still load.]");
        assert(end.take(start.len() as int) =~= start);
        let head = "[note: project "@ + path;
        assert(note.take((head + start).len() as int) =~= head + start);
    }
}

/// A record may be written as an array of its members in order: the member at its place is the one
/// that counts, and too many members are overlooked only straight out of a text.
pub proof fn lemma_array_record(form: ModelForm, s: Seq<JsonView>, key: Seq<char>, i: nat, n: nat)
    ensures
        i < s.len() ==> slot(JsonView::Array(s), key, i) == Some(s[i as int]),
        i >= s.len() ==> slot(JsonView::Array(s), key, i) is None,
        s.len() <= n ==> is_record(form, JsonView::Array(s), n),
        s.len() > n ==> (is_record(form, JsonView::Array(s), n) <==> form is Direct),
        !is_record(form, JsonView::Text(key), n) && !is_record(form, JsonView::Null, n),
{
}

/// A configuration is ignored, and that is said, only where it lists backends or models and they
/// cannot be read.
pub proof fn lemma_ignored(form: ModelForm, m: Map<Seq<char>, JsonView>, error: Seq<char>)
    ensures
        !m.contains_key("backends"@) && !m.contains_key("models"@) ==> !is_ignored(
            form,
            JsonView::Object(m),
        ) && registry_ok(form, JsonView::Object(m)),
        m.contains_key("backends"@) && !(m["backends"@] is Array) ==> is_ignored(
            form,
            JsonView::Object(m),
        ),
        m.contains_key("models"@) && !(m["models"@] is Array) ==> is_ignored(form, JsonView::Object(m)),
        registry_ok(form, JsonView::Object(m)) ==> !is_ignored(form, JsonView::Object(m)),
        form is Gateway ==> ignored_note_text(form, error) == "[pirs-claw registry: parse warning: "@
            + error + "]"@,
        !(form is Gateway) ==> ignored_note_text(form, error)
            == "[warning: backends/models in config.toml ignored: "@ + error + "]"@,
{
}

/// The capabilities of a model are the texts that its table lists, in their order.
pub proof fn lemma_caps(m: Map<Seq<char>, JsonView>, caps: Seq<JsonView>, i: int)
    requires
        m.contains_key("caps"@),
        m["caps"@] == JsonView::Array(caps),
        0 <= i < caps.len(),
        model_ok(ModelForm::Direct, JsonView::Object(m)),
    ensures
        model_of(JsonView::Object(m)).caps.len() == caps.len(),
        caps[i] == JsonView::Text(model_of(JsonView::Object(m)).caps[i]),
{
    assert(slot(JsonView::Object(m), "caps"@, 4) == Some(JsonView::Array(caps)));
    assert(caps[i] is Text);
}

} // verus!
