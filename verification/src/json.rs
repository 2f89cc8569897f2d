//! JSON values, and their text form as `serde_json` reads and writes it.

use vstd::prelude::*;

use crate::text::chars::{is_space, owned, same};
use crate::text::number::{
    decimal, lemma_decimal_digits, lemma_decimal_writes, lemma_number_round_trip, lemma_parse_refuses,
    parse_u64, u64_of,
};
use crate::text::search::{
    lemma_replace, lemma_split_apart, occurs_at, replace, replace_all, split, split_at_char,
};

verus! {

/// A JSON value. Where an object holds a key more than once, the last one counts.
#[derive(Debug)]
pub enum Json {
    Null,
    Bool(bool),
    Int(i64),
    UInt(u64),
    /// A number that is no integer, as it is written out.
    Float(String),
    Text(String),
    Array(Vec<Json>),
    Object(Vec<(String, Json)>),
}

/// What a JSON value is, apart from how it is stored.
pub enum JsonView {
    Null,
    Bool(bool),
    Int(int),
    Float(Seq<char>),
    Text(Seq<char>),
    Array(Seq<JsonView>),
    Object(Map<Seq<char>, JsonView>),
}

impl Json {
    pub open spec fn tree(self) -> JsonView
        decreases self,
    {
        match self {
            Json::Null => JsonView::Null,
            Json::Bool(b) => JsonView::Bool(b),
            Json::Int(n) => JsonView::Int(n as int),
            Json::UInt(n) => JsonView::Int(n as int),
            Json::Float(t) => JsonView::Float(t@),
            Json::Text(t) => JsonView::Text(t@),
            Json::Array(items) => JsonView::Array(item_trees(items@)),
            Json::Object(fields) => JsonView::Object(field_trees(fields@)),
        }
    }
}

pub open spec fn item_trees(s: Seq<Json>) -> Seq<JsonView>
    decreases s,
{
    if s.len() == 0 {
        seq![]
    } else {
        item_trees(s.drop_last()).push(s.last().tree())
    }
}

pub open spec fn field_trees(s: Seq<(String, Json)>) -> Map<Seq<char>, JsonView>
    decreases s,
{
    if s.len() == 0 {
        Map::empty()
    } else {
        field_trees(s.drop_last()).insert(s.last().0@, s.last().1.tree())
    }
}

impl View for Json {
    type V = JsonView;

    open spec fn view(&self) -> JsonView {
        self.tree()
    }
}

/// The value of the field `key`, where `v` is an object that holds it.
pub open spec fn field(v: JsonView, key: Seq<char>) -> Option<JsonView> {
    match v {
        JsonView::Object(m) => if m.contains_key(key) {
            Some(m[key])
        } else {
            None
        },
        _ => None,
    }
}

/// The item at position `i`, where `v` is an array that long.
pub open spec fn item(v: JsonView, i: nat) -> Option<JsonView> {
    match v {
        JsonView::Array(s) => if i < s.len() {
            Some(s[i as int])
        } else {
            None
        },
        _ => None,
    }
}

/// The text that `v` is.
pub open spec fn text(v: JsonView) -> Option<Seq<char>> {
    match v {
        JsonView::Text(t) => Some(t),
        _ => None,
    }
}

/// The signed 64-bit integer that `v` is.
pub open spec fn int64(v: JsonView) -> Option<int> {
    match v {
        JsonView::Int(n) => if i64::MIN <= n <= i64::MAX {
            Some(n)
        } else {
            None
        },
        _ => None,
    }
}

/// The unsigned 64-bit integer that `v` is.
pub open spec fn uint64(v: JsonView) -> Option<int> {
    match v {
        JsonView::Int(n) => if 0 <= n <= u64::MAX {
            Some(n)
        } else {
            None
        },
        _ => None,
    }
}

/// The truth value that `v` is.
pub open spec fn truth(v: JsonView) -> Option<bool> {
    match v {
        JsonView::Bool(b) => Some(b),
        _ => None,
    }
}

/// The field of `v` that holds a text.
pub open spec fn text_field(v: JsonView, key: Seq<char>) -> Option<Seq<char>> {
    match field(v, key) {
        Some(w) => text(w),
        None => None,
    }
}

/// The position that a pointer token stands for in an array: digits without a sign and
/// without leading zeros.
pub open spec fn token_index(t: Seq<char>) -> Option<u64> {
    if t.len() > 0 && (t[0] == '+' || (t[0] == '0' && t.len() != 1)) {
        None
    } else {
        parse_u64(t)
    }
}

/// One step of a JSON pointer.
pub open spec fn step(v: JsonView, t: Seq<char>) -> Option<JsonView> {
    match v {
        JsonView::Object(_) => field(v, t),
        JsonView::Array(_) => match token_index(t) {
            Some(i) => item(v, i as nat),
            None => None,
        },
        _ => None,
    }
}

/// The value that the pointer tokens lead to.
pub open spec fn walk(v: JsonView, tokens: Seq<Seq<char>>) -> Option<JsonView>
    decreases tokens.len(),
{
    if tokens.len() == 0 {
        Some(v)
    } else {
        match step(v, tokens[0]) {
            Some(w) => walk(w, tokens.skip(1)),
            None => None,
        }
    }
}

/// A pointer token with `~1` and `~0` written out as `/` and `~`.
pub open spec fn unescape(t: Seq<char>) -> Seq<char> {
    replace(replace(t, "~1"@, "/"@), "~0"@, "~"@)
}

/// Pointer tokens with their escapes written out.
pub open spec fn unescaped(tokens: Seq<Seq<char>>) -> Seq<Seq<char>> {
    Seq::new(tokens.len(), |i: int| unescape(tokens[i]))
}

/// The value that a JSON pointer leads to.
pub open spec fn pointer(v: JsonView, p: Seq<char>) -> Option<JsonView> {
    if p.len() == 0 {
        Some(v)
    } else if p[0] != '/' {
        None
    } else {
        walk(v, unescaped(split(p, '/').skip(1)))
    }
}

/// No more than `depth` arrays and objects of `v` inside one another.
pub open spec fn shallow(v: JsonView, depth: nat) -> bool
    decreases v,
{
    match v {
        JsonView::Array(s) => depth > 0 && forall|i: int|
            0 <= i < s.len() ==> shallow(#[trigger] s[i], (depth - 1) as nat),
        JsonView::Object(m) => depth > 0 && forall|k: Seq<char>| #[trigger]
            m.contains_key(k) ==> shallow(m[k], (depth - 1) as nat),
        _ => true,
    }
}

/// Every number of `v` that is no integer is written as `serde_json` writes it.
pub open spec fn canonical(v: JsonView) -> bool
    decreases v,
{
    match v {
        JsonView::Float(t) => json_of_text(t) == Some(v),
        JsonView::Array(s) => forall|i: int| 0 <= i < s.len() ==> canonical(#[trigger] s[i]),
        JsonView::Object(m) => forall|k: Seq<char>| #[trigger]
            m.contains_key(k) ==> canonical(m[k]),
        _ => true,
    }
}

#[verifier::external_type_specification]
#[verifier::external_body]
pub struct ExValue(serde_json::Value);

/// The JSON value that a `serde_json::Value` holds.
pub uninterp spec fn value_tree(v: serde_json::Value) -> JsonView;

/// What `serde_json::from_str` reads out of a text; nothing where it reports an error.
pub uninterp spec fn json_of_text(t: Seq<char>) -> Option<JsonView>;

/// What `serde_json::to_string` writes for a value.
pub uninterp spec fn json_text(v: JsonView) -> Seq<char>;

/// Calls `serde_json::from_str`: what it reads is a function of the text, named
/// `json_of_text`.
#[verifier::external_body]
fn value_of_text(t: &str) -> (r: Option<serde_json::Value>)
    ensures
        match r {
            Some(v) => json_of_text(t@) == Some(value_tree(v)),
            None => json_of_text(t@) is None,
        },
{
    serde_json::from_str(t).ok()
}

/// Takes a `serde_json::Value` apart: an integer that fits 64 bits stays one, any other number
/// becomes its text by `serde_json::Number::to_string`. That text is the shortest one of the
/// number, and with the feature `float_roundtrip` `serde_json::from_str` reads the same number out
/// of it.
#[verifier::external_body]
pub(crate) fn json_of_value(v: serde_json::Value) -> (r: Json)
    ensures
        r@ == value_tree(v),
        canonical(r@),
{
    match v {
        serde_json::Value::Null => Json::Null,
        serde_json::Value::Bool(b) => Json::Bool(b),
        serde_json::Value::Number(n) => match (n.as_u64(), n.as_i64()) {
            (Some(u), _) => Json::UInt(u),
            (None, Some(i)) => Json::Int(i),
            (None, None) => Json::Float(n.to_string()),
        },
        serde_json::Value::String(s) => Json::Text(s),
        serde_json::Value::Array(a) => Json::Array(a.into_iter().map(json_of_value).collect()),
        serde_json::Value::Object(m) => Json::Object(m.into_iter().map(|(k, x)| (k, json_of_value(x))).collect()),
    }
}

/// Builds a `serde_json::Value`; of two fields with one key the map keeps the later. A float
/// is read back by `serde_json::from_str`; nothing is said of one whose text that function
/// would not give back.
#[verifier::external_body]
fn value_of_json(j: &Json) -> (r: serde_json::Value)
    ensures
        canonical(j@) ==> value_tree(r) == j@,
{
    match j {
        Json::Null => serde_json::Value::Null,
        Json::Bool(b) => serde_json::Value::Bool(*b),
        Json::Int(n) => serde_json::Value::from(*n),
        Json::UInt(n) => serde_json::Value::from(*n),
        Json::Float(t) => serde_json::from_str(t).unwrap_or_default(),
        Json::Text(t) => serde_json::Value::String(t.clone()),
        Json::Array(a) => serde_json::Value::Array(a.iter().map(value_of_json).collect()),
        Json::Object(m) => serde_json::Value::Object(m.iter().map(|(k, x)| (k.clone(), value_of_json(x))).collect()),
    }
}

/// Calls `serde_json::to_string`: its text is a function of the value, named `json_text`. It
/// holds no control character, since those are escaped inside strings, and neither starts nor
/// ends with white space; and where the floats of the value are written as `serde_json` writes
/// them, and it is nested no deeper than the parser's limit, `serde_json::from_str` reads the same
/// value back.
#[verifier::external_body]
fn text_of_value(v: &serde_json::Value) -> (r: String)
    ensures
        r@ == json_text(value_tree(*v)),
        forall|i: int| 0 <= i < r@.len() ==> #[trigger] r@[i] as u32 >= 0x20,
        r@.len() > 0 && !is_space(r@[0]) && !is_space(r@.last()),
        canonical(value_tree(*v)) && shallow(value_tree(*v), 127) ==> json_of_text(r@) == Some(
            value_tree(*v),
        ),
{
    serde_json::to_string(v).unwrap_or_default()
}

/// Reads a JSON text.
pub fn parse_json(t: &str) -> (r: Option<Json>)
    ensures
        match r {
            Some(j) => json_of_text(t@) == Some(j@) && canonical(j@),
            None => json_of_text(t@) is None,
        },
{
    match value_of_text(t) {
        Some(v) => Some(json_of_value(v)),
        None => None,
    }
}

proof fn lemma_item_trees(s: Seq<Json>)
    ensures
        item_trees(s).len() == s.len(),
        forall|i: int| 0 <= i < s.len() ==> #[trigger] item_trees(s)[i] == s[i]@,
    decreases s.len(),
{
    if s.len() > 0 {
        lemma_item_trees(s.drop_last());
    }
}

/// Of the fields with one key, the last one counts.
proof fn lemma_field_trees(s: Seq<(String, Json)>, key: Seq<char>, k: int)
    requires
        -1 <= k < s.len(),
        k >= 0 ==> s[k].0@ == key,
        forall|j: int| k < j < s.len() ==> (#[trigger] s[j]).0@ != key,
    ensures
        field_trees(s).contains_key(key) == (k >= 0),
        k >= 0 ==> field_trees(s)[key] == s[k].1@,
    decreases s.len(),
{
    if s.len() > 0 && k < s.len() - 1 {
        let d = s.drop_last();
        assert forall|j: int| k < j < d.len() implies (#[trigger] d[j]).0@ != key by {
            assert(d[j] == s[j]);
        }
        lemma_field_trees(d, key, k);
        assert(s[s.len() - 1].0@ != key);
    }
}

/// An object holds exactly the keys of its fields.
pub proof fn lemma_field_keys(s: Seq<(String, Json)>, key: Seq<char>)
    ensures
        field_trees(s).contains_key(key) <==> exists|i: int|
            0 <= i < s.len() && (#[trigger] s[i]).0@ == key,
    decreases s.len(),
{
    if s.len() > 0 {
        let d = s.drop_last();
        lemma_field_keys(d, key);
        if exists|i: int| 0 <= i < d.len() && (#[trigger] d[i]).0@ == key {
            let i = choose|i: int| 0 <= i < d.len() && (#[trigger] d[i]).0@ == key;
            assert(s[i].0@ == key);
        }
        if exists|i: int| 0 <= i < s.len() && (#[trigger] s[i]).0@ == key {
            let i = choose|i: int| 0 <= i < s.len() && (#[trigger] s[i]).0@ == key;
            if i < d.len() {
                assert(d[i].0@ == key);
            }
        }
        if s.last().0@ == key {
            assert(s[s.len() - 1].0@ == key);
        }
    }
}

impl Json {
    /// This value as a text in one line.
    pub fn to_text(&self) -> (r: String)
        ensures
            canonical(self@) ==> r@ == json_text(self@),
            forall|i: int| 0 <= i < r@.len() ==> #[trigger] r@[i] as u32 >= 0x20,
            r@.len() > 0 && !is_space(r@[0]) && !is_space(r@.last()),
            canonical(self@) && shallow(self@, 127) ==> json_of_text(r@) == Some(self@),
    {
        text_of_value(&value_of_json(self))
    }

    /// The value of the field `key`.
    pub fn get(&self, key: &str) -> (r: Option<&Json>)
        ensures
            match r {
                Some(j) => field(self@, key@) == Some(j@),
                None => field(self@, key@) is None,
            },
    {
        match self {
            Json::Object(fields) => {
                let mut i: usize = fields.len();
                while i > 0
                    invariant
                        i <= fields@.len(),
                        self@ == JsonView::Object(field_trees(fields@)),
                        forall|j: int| i <= j < fields@.len() ==> (#[trigger] fields@[j]).0@ != key@,
                    decreases i,
                {
                    i = i - 1;
                    if same(&fields[i].0, key) {
                        proof {
                            lemma_field_trees(fields@, key@, i as int);
                        }
                        return Some(&fields[i].1);
                    }
                }
                proof {
                    lemma_field_trees(fields@, key@, -1);
                }
                None
            },
            _ => None,
        }
    }

    /// The item at position `i`.
    pub fn at(&self, i: usize) -> (r: Option<&Json>)
        ensures
            match r {
                Some(j) => item(self@, i as nat) == Some(j@),
                None => item(self@, i as nat) is None,
            },
    {
        match self {
            Json::Array(items) => {
                proof {
                    lemma_item_trees(items@);
                }
                if i < items.len() {
                    Some(&items[i])
                } else {
                    None
                }
            },
            _ => None,
        }
    }

    /// The items of an array.
    pub fn items(&self) -> (r: Option<&Vec<Json>>)
        ensures
            match r {
                Some(v) => self@ == JsonView::Array(item_trees(v@)) && item_trees(v@).len()
                    == v@.len() && forall|i: int|
                    0 <= i < v@.len() ==> #[trigger] item_trees(v@)[i] == v@[i]@,
                None => !(self@ is Array),
            },
    {
        match self {
            Json::Array(items) => {
                proof {
                    lemma_item_trees(items@);
                }
                Some(items)
            },
            _ => None,
        }
    }

    /// The fields of an object.
    pub fn fields(&self) -> (r: Option<&Vec<(String, Json)>>)
        ensures
            match r {
                Some(v) => self@ == JsonView::Object(field_trees(v@)),
                None => !(self@ is Object),
            },
    {
        match self {
            Json::Object(fields) => Some(fields),
            _ => None,
        }
    }

    /// The text that this value is.
    pub fn as_str(&self) -> (r: Option<&str>)
        ensures
            match r {
                Some(t) => text(self@) == Some(t@),
                None => text(self@) is None,
            },
    {
        match self {
            Json::Text(t) => Some(t.as_str()),
            _ => None,
        }
    }

    /// The signed 64-bit integer that this value is.
    pub fn as_i64(&self) -> (r: Option<i64>)
        ensures
            match r {
                Some(n) => int64(self@) == Some(n as int),
                None => int64(self@) is None,
            },
    {
        match self {
            Json::Int(n) => Some(*n),
            Json::UInt(n) => if *n <= i64::MAX as u64 {
                Some(*n as i64)
            } else {
                None
            },
            _ => None,
        }
    }

    /// The unsigned 64-bit integer that this value is.
    pub fn as_u64(&self) -> (r: Option<u64>)
        ensures
            match r {
                Some(n) => uint64(self@) == Some(n as int),
                None => uint64(self@) is None,
            },
    {
        match self {
            Json::Int(n) => if *n >= 0 {
                Some(*n as u64)
            } else {
                None
            },
            Json::UInt(n) => Some(*n),
            _ => None,
        }
    }

    /// The truth value that this value is.
    pub fn as_bool(&self) -> (r: Option<bool>)
        ensures
            r == truth(self@),
    {
        match self {
            Json::Bool(b) => Some(*b),
            _ => None,
        }
    }

    /// The text in the field `key`.
    pub fn text_at(&self, key: &str) -> (r: Option<&str>)
        ensures
            match r {
                Some(t) => text_field(self@, key@) == Some(t@),
                None => text_field(self@, key@) is None,
            },
    {
        match self.get(key) {
            Some(j) => j.as_str(),
            None => None,
        }
    }

    /// The value that one pointer token leads to.
    fn step_to(&self, token: &str) -> (r: Option<&Json>)
        ensures
            match r {
                Some(j) => step(self@, token@) == Some(j@),
                None => step(self@, token@) is None,
            },
    {
        match self {
            Json::Object(_) => self.get(token),
            Json::Array(items) => {
                let n: usize = items.len();
                if token.unicode_len() > 0 && (token.get_char(0) == '+' || (token.get_char(0)
                    == '0' && token.unicode_len() != 1)) {
                    return None;
                }
                match u64_of(token) {
                    Some(i) => {
                        proof {
                            lemma_item_trees(items@);
                        }
                        if i < n as u64 {
                            self.at(i as usize)
                        } else {
                            None
                        }
                    },
                    None => None,
                }
            },
            _ => None,
        }
    }

    /// The value that a JSON pointer leads to.
    pub fn pointer(&self, p: &str) -> (r: Option<&Json>)
        ensures
            match r {
                Some(j) => pointer(self@, p@) == Some(j@),
                None => pointer(self@, p@) is None,
            },
    {
        if p.unicode_len() == 0 {
            return Some(self);
        }
        if p.get_char(0) != '/' {
            return None;
        }
        let parts: Vec<String> = split_at_char(p, '/');
        let n: usize = parts.len();
        let ghost tokens = unescaped(split(p@, '/').skip(1));
        proof {
            reveal_strlit("~1");
            reveal_strlit("~0");
            if n == 0 {
                assert(parts.deep_view().len() == 0);
            }
            assert(split(p@, '/').len() > 0);
            assert(tokens.skip(0) == tokens);
        }
        let mut here: &Json = self;
        let mut i: usize = 1;
        while i < n
            invariant
                1 <= i <= n,
                n == parts@.len(),
                parts.deep_view() == split(p@, '/'),
                tokens == unescaped(split(p@, '/').skip(1)),
                walk(here@, tokens.skip(i - 1)) == walk(self@, tokens),
                "~1"@.len() > 0,
                "~0"@.len() > 0,
            decreases n - i,
        {
            let a: String = replace_all(&parts[i], "~1", "/");
            let token: String = replace_all(&a, "~0", "~");
            let ghost rest = tokens.skip(i - 1);
            proof {
                assert(parts.deep_view()[i as int] == parts@[i as int]@);
                assert(rest[0] == unescape(split(p@, '/').skip(1)[i - 1]));
                assert(rest[0] == token@);
                assert(rest.skip(1) == tokens.skip(i as int));
            }
            match here.step_to(&token) {
                Some(j) => {
                    here = j;
                },
                None => {
                    return None;
                },
            }
            i = i + 1;
        }
        Some(here)
    }
}

/// A JSON text.
pub fn json_str(t: &str) -> (r: Json)
    ensures
        r@ == JsonView::Text(t@),
{
    Json::Text(owned(t))
}

/// One more field of an object.
proof fn lemma_push_field(s: Seq<(String, Json)>, k: String, v: Json)
    ensures
        field_trees(s.push((k, v))) == field_trees(s).insert(k@, v@),
{
    assert(s.push((k, v)).drop_last() =~= s);
}

/// Adds a field to the fields of an object.
pub fn push_field(fields: &mut Vec<(String, Json)>, key: &str, value: Json)
    ensures
        field_trees(final(fields)@) == field_trees(old(fields)@).insert(key@, value@),
{
    let k: String = owned(key);
    proof {
        lemma_push_field(fields@, k, value);
    }
    fields.push((k, value));
}

/// Adds a value to the values of an array.
pub fn push_item(items: &mut Vec<Json>, value: Json)
    ensures
        item_trees(final(items)@) == item_trees(old(items)@).push(value@),
{
    assert(items@.push(value).drop_last() =~= items@);
    items.push(value);
}

/// An object with one field.
pub fn object1(k1: &str, v1: Json) -> (r: Json)
    ensures
        r@ == JsonView::Object(map![k1@ => v1@]),
{
    let mut fields: Vec<(String, Json)> = Vec::new();
    push_field(&mut fields, k1, v1);
    assert(field_trees(fields@) =~= map![k1@ => v1@]);
    Json::Object(fields)
}

/// An object with two fields.
pub fn object2(k1: &str, v1: Json, k2: &str, v2: Json) -> (r: Json)
    ensures
        r@ == JsonView::Object(map![k1@ => v1@, k2@ => v2@]),
{
    let mut fields: Vec<(String, Json)> = Vec::new();
    push_field(&mut fields, k1, v1);
    push_field(&mut fields, k2, v2);
    assert(field_trees(fields@) =~= map![k1@ => v1@, k2@ => v2@]);
    Json::Object(fields)
}

/// Copies a row of values.
fn copy_items(items: &Vec<Json>) -> (r: Vec<Json>)
    ensures
        item_trees(r@) == item_trees(items@),
    decreases items,
{
    let mut out: Vec<Json> = Vec::new();
    let mut i: usize = 0;
    while i < items.len()
        invariant
            i <= items@.len(),
            item_trees(out@) == item_trees(items@.take(i as int)),
        decreases items@.len() - i,
    {
        let c: Json = items[i].clone();
        proof {
            assert(items@.take(i + 1).drop_last() == items@.take(i as int));
            assert(out@.push(c).drop_last() == out@);
        }
        out.push(c);
        i = i + 1;
    }
    assert(items@.take(i as int) == items@);
    out
}

/// Copies a row of fields.
fn copy_fields(fields: &Vec<(String, Json)>) -> (r: Vec<(String, Json)>)
    ensures
        field_trees(r@) == field_trees(fields@),
    decreases fields,
{
    let mut out: Vec<(String, Json)> = Vec::new();
    let mut i: usize = 0;
    while i < fields.len()
        invariant
            i <= fields@.len(),
            field_trees(out@) == field_trees(fields@.take(i as int)),
        decreases fields@.len() - i,
    {
        let c: (String, Json) = (owned(&fields[i].0), fields[i].1.clone());
        proof {
            assert(fields@.take(i + 1).drop_last() == fields@.take(i as int));
            assert(out@.push(c).drop_last() == out@);
        }
        out.push(c);
        i = i + 1;
    }
    assert(fields@.take(i as int) == fields@);
    out
}

impl Clone for Json {
    fn clone(&self) -> (r: Json)
        ensures
            r@ == self@,
        decreases self,
    {
        match self {
            Json::Null => Json::Null,
            Json::Bool(b) => Json::Bool(*b),
            Json::Int(n) => Json::Int(*n),
            Json::UInt(n) => Json::UInt(*n),
            Json::Float(t) => Json::Float(owned(t)),
            Json::Text(t) => Json::Text(owned(t)),
            Json::Array(items) => Json::Array(copy_items(items)),
            Json::Object(fields) => Json::Object(copy_fields(fields)),
        }
    }
}

/// Reading values: a field of an object, an item of an array, and the text, the number or the truth
/// value that a value is; anything else is none of these.
pub proof fn lemma_reads(m: Map<Seq<char>, JsonView>, key: Seq<char>, s: Seq<JsonView>, i: nat, n: int)
    ensures
        m.contains_key(key) ==> field(JsonView::Object(m), key) == Some(m[key]),
        !m.contains_key(key) ==> field(JsonView::Object(m), key) is None,
        i < s.len() ==> item(JsonView::Array(s), i) == Some(s[i as int]),
        i >= s.len() ==> item(JsonView::Array(s), i) is None,
        text(JsonView::Text(key)) == Some(key),
        m.contains_key(key) && m[key] is Text ==> text_field(JsonView::Object(m), key) == Some(
            m[key]->Text_0,
        ),
        m.contains_key(key) && !(m[key] is Text) ==> text_field(JsonView::Object(m), key) is None,
        i64::MIN <= n <= i64::MAX ==> int64(JsonView::Int(n)) == Some(n),
        0 <= n <= u64::MAX ==> uint64(JsonView::Int(n)) == Some(n),
        n < 0 ==> uint64(JsonView::Int(n)) is None,
        truth(JsonView::Bool(true)) == Some(true) && truth(JsonView::Bool(false)) == Some(false),
        truth(JsonView::Text(key)) is None && text(JsonView::Int(n)) is None,
{
}

proof fn lemma_no_escape(t: Seq<char>)
    requires
        !t.contains('~'),
    ensures
        unescape(t) == t,
{
    reveal_strlit("~1");
    reveal_strlit("~0");
    assert forall|j: int| !occurs_at(t, "~1"@, j) && !occurs_at(t, "~0"@, j) by {
        if occurs_at(t, "~1"@, j) {
            assert(t.subrange(j, j + 2)[0] == '~');
            assert(t[j] == '~');
        }
        if occurs_at(t, "~0"@, j) {
            assert(t.subrange(j, j + 2)[0] == '~');
            assert(t[j] == '~');
        }
    }
    lemma_replace(t, "~1"@, "/"@, 0);
    lemma_replace(t, "~0"@, "~"@, 0);
}

/// A pointer leads from value to value: the name behind its first `/` picks a field of an object, or
/// the item of an array at the position that it writes out, and what follows leads on from there.
pub proof fn lemma_pointer_leads(
    v: JsonView,
    t: Seq<char>,
    p: Seq<char>,
    m: Map<Seq<char>, JsonView>,
    s: Seq<JsonView>,
    i: u64,
)
    requires
        !t.contains('/') && !t.contains('~'),
        p.len() == 0 || p[0] == '/',
    ensures
        pointer(v, Seq::empty()) == Some(v),
        pointer(JsonView::Object(m), seq!['/'] + t + p) == if m.contains_key(t) {
            pointer(m[t], p)
        } else {
            None
        },
        t == decimal(i as nat) ==> pointer(JsonView::Array(s), seq!['/'] + t + p) == if i < s.len() {
            pointer(s[i as int], p)
        } else {
            None
        },
        !(v is Object) && !(v is Array) ==> pointer(v, seq!['/'] + t + p) is None,
{
    let q = seq!['/'] + t + p;
    let none = Seq::<char>::empty();
    assert(!none.contains('/'));
    let pieces = split(q, '/').skip(1);
    let behind = split(p, '/').skip(1);
    assert(q =~= none + seq!['/'] + (t + p));
    lemma_split_apart(none, '/', t + p);
    assert(pieces =~= split(t + p, '/'));
    if p.len() == 0 {
        assert(t + p =~= t);
        lemma_split_apart(t, '/', none);
        assert(split(p, '/') =~= seq![p]) by {
            assert(p =~= none);
            lemma_split_apart(none, '/', none);
        }
        assert(pieces =~= seq![t] + behind);
    } else {
        let rest = p.skip(1);
        assert(t + p =~= t + seq!['/'] + rest);
        lemma_split_apart(t, '/', rest);
        assert(p =~= none + seq!['/'] + rest);
        lemma_split_apart(none, '/', rest);
        assert(behind =~= split(rest, '/'));
        assert(pieces =~= seq![t] + behind);
    }
    lemma_no_escape(t);
    let tokens = unescaped(pieces);
    assert(tokens[0] == t);
    assert(tokens.skip(1) =~= unescaped(behind));
    if p.len() == 0 {
        assert(unescaped(behind).len() == 0);
    }
    if t == decimal(i as nat) {
        lemma_number_round_trip(i);
        lemma_decimal_digits(i as nat);
        if i > 0 {
            lemma_decimal_writes(i as nat, 0);
        } else {
            lemma_decimal_writes(1, 0);
        }
        assert(token_index(t) == Some(i));
    }
}

proof fn lemma_tilde_apart(a: Seq<char>, c: char, b: Seq<char>, d: char)
    requires
        c != '~',
        !a.contains('~'),
        !b.contains('~'),
    ensures
        occurs_at(a + seq!['~', c] + b, seq!['~', c], a.len() as int),
        forall|j: int|
            0 <= j < a.len() ==> !occurs_at(a + seq!['~', c] + b, seq!['~', c], j),
        d != c ==> forall|j: int| !occurs_at(a + seq!['~', c] + b, seq!['~', d], j),
{
    let t = a + seq!['~', c] + b;
    let n = a.len() as int;
    assert(t.subrange(n, n + 2) =~= seq!['~', c]);
    assert forall|j: int| 0 <= j < t.len() && j != n && j != n + 1 implies (#[trigger] t[j]) != '~' by {
        if j < n {
            assert(t[j] == a[j]);
            assert(a.contains(a[j]));
        } else {
            assert(t[j] == b[j - n - 2]);
            assert(b.contains(b[j - n - 2]));
        }
    }
    assert forall|j: int| 0 <= j < n implies !occurs_at(t, seq!['~', c], j) by {
        if occurs_at(t, seq!['~', c], j) {
            assert(t.subrange(j, j + 2)[0] == '~');
            assert(t[j] == '~');
        }
    }
    if d != c {
        assert forall|j: int| !occurs_at(t, seq!['~', d], j) by {
            if occurs_at(t, seq!['~', d], j) {
                assert(t.subrange(j, j + 2)[0] == '~');
                assert(t.subrange(j, j + 2)[1] == d);
                assert(t[j] == '~' && t[j + 1] == d);
                assert(t[n + 1] == c);
            }
        }
    }
}

/// The escapes of a pointer: `~1` stands for `/`, and `~0` for `~`.
pub proof fn lemma_pointer_escapes(a: Seq<char>, b: Seq<char>)
    requires
        !a.contains('~'),
        !b.contains('~'),
    ensures
        unescape(a + seq!['~', '1'] + b) == a + seq!['/'] + b,
        unescape(a + seq!['~', '0'] + b) == a + seq!['~'] + b,
        unescape(a) == a,
{
    reveal_strlit("~1");
    reveal_strlit("~0");
    reveal_strlit("/");
    reveal_strlit("~");
    assert("~1"@ =~= seq!['~', '1']);
    assert("~0"@ =~= seq!['~', '0']);
    assert("/"@ =~= seq!['/']);
    assert("~"@ =~= seq!['~']);
    let n = a.len() as int;
    lemma_no_escape(a);
    lemma_no_escape(b);
    assert forall|j: int| !occurs_at(b, "~1"@, j) && !occurs_at(b, "~0"@, j) by {
        if occurs_at(b, "~1"@, j) {
            assert(b.subrange(j, j + 2)[0] == '~');
            assert(b[j] == '~');
        }
        if occurs_at(b, "~0"@, j) {
            assert(b.subrange(j, j + 2)[0] == '~');
            assert(b[j] == '~');
        }
    }
    lemma_replace(b, "~1"@, "/"@, 0);
    lemma_replace(b, "~0"@, "~"@, 0);
    let s = a + seq!['~', '1'] + b;
    lemma_tilde_apart(a, '1', b, '0');
    lemma_replace(s, "~1"@, "/"@, n);
    assert(s.take(n) =~= a);
    assert(s.skip(n + 2) =~= b);
    let u = a + seq!['/'] + b;
    assert(replace(s, "~1"@, "/"@) == u);
    assert forall|j: int| !occurs_at(u, "~0"@, j) by {
        if occurs_at(u, "~0"@, j) {
            assert(u.subrange(j, j + 2)[0] == '~');
            assert(u[j] == '~');
            if j < n {
                assert(u[j] == a[j]);
            } else if j > n {
                assert(u[j] == b[j - n - 1]);
            }
        }
    }
    lemma_replace(u, "~0"@, "~"@, 0);
    let t = a + seq!['~', '0'] + b;
    lemma_tilde_apart(a, '0', b, '1');
    lemma_replace(t, "~1"@, "/"@, 0);
    lemma_replace(t, "~0"@, "~"@, n);
    assert(t.take(n) =~= a);
    assert(t.skip(n + 2) =~= b);
}

/// A position in an array is written without a sign and without leading zeros; nothing else leads
/// into an array.
pub proof fn lemma_no_position(s: Seq<JsonView>, t: Seq<char>)
    requires
        t.len() == 0 || t[0] == '+' || (t[0] == '0' && t.len() > 1) || exists|i: int|
            0 <= i < t.len() && !('0' <= #[trigger] t[i] <= '9'),
    ensures
        step(JsonView::Array(s), t) is None,
{
    if t.len() > 0 && t[0] != '+' && (t[0] != '0' || t.len() == 1) {
        let i = choose|i: int| 0 <= i < t.len() && !('0' <= #[trigger] t[i] <= '9');
        lemma_parse_refuses(t, i);
    }
}

} // verus!
