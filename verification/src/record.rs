//! Records in JSON: objects that are read and written with their fields in order, none of which
//! may occur twice.

use vstd::prelude::*;

use crate::json::Json;
use crate::text::chars::{is_space, owned, same};
use crate::text::pairs::text_pairs;
use crate::text::search::skip_str;

verus! {

/// A JSON value with the fields of its objects in their order, each as often as it stands there.
pub enum DocView {
    Null,
    Bool(bool),
    Int(int),
    Float(Seq<char>),
    Text(Seq<char>),
    Array(Seq<DocView>),
    Object(Seq<(Seq<char>, DocView)>),
}

impl Json {
    /// This value with its fields in their order.
    pub open spec fn doc(self) -> DocView
        decreases self,
    {
        match self {
            Json::Null => DocView::Null,
            Json::Bool(b) => DocView::Bool(b),
            Json::Int(n) => DocView::Int(n as int),
            Json::UInt(n) => DocView::Int(n as int),
            Json::Float(t) => DocView::Float(t@),
            Json::Text(t) => DocView::Text(t@),
            Json::Array(items) => DocView::Array(item_docs(items@)),
            Json::Object(fields) => DocView::Object(field_docs(fields@)),
        }
    }
}

pub open spec fn item_docs(s: Seq<Json>) -> Seq<DocView>
    decreases s,
{
    if s.len() == 0 {
        seq![]
    } else {
        item_docs(s.drop_last()).push(s.last().doc())
    }
}

pub open spec fn field_docs(s: Seq<(String, Json)>) -> Seq<(Seq<char>, DocView)>
    decreases s,
{
    if s.len() == 0 {
        seq![]
    } else {
        field_docs(s.drop_last()).push((s.last().0@, s.last().1.doc()))
    }
}

pub proof fn lemma_item_docs(s: Seq<Json>)
    ensures
        item_docs(s).len() == s.len(),
        forall|i: int| 0 <= i < s.len() ==> #[trigger] item_docs(s)[i] == s[i].doc(),
    decreases s.len(),
{
    if s.len() > 0 {
        lemma_item_docs(s.drop_last());
    }
}

proof fn lemma_field_docs(s: Seq<(String, Json)>)
    ensures
        field_docs(s).len() == s.len(),
        forall|i: int|
            0 <= i < s.len() ==> #[trigger] field_docs(s)[i] == (s[i].0@, s[i].1.doc()),
    decreases s.len(),
{
    if s.len() > 0 {
        lemma_field_docs(s.drop_last());
    }
}

/// No number of `d` but integers, and no more than `depth` arrays and objects inside one another.
pub open spec fn plain_doc(d: DocView, depth: nat) -> bool
    decreases d,
{
    match d {
        DocView::Float(_) => false,
        DocView::Array(s) => depth > 0 && forall|i: int|
            0 <= i < s.len() ==> plain_doc(#[trigger] s[i], (depth - 1) as nat),
        DocView::Object(s) => depth > 0 && forall|i: int|
            0 <= i < s.len() ==> plain_doc((#[trigger] s[i]).1, (depth - 1) as nat),
        _ => true,
    }
}

/// How deep arrays and objects may stand inside one another for `serde_json` to read them.
pub const DEEPEST: u8 = 127;

#[verifier::external_type_specification]
#[verifier::external_body]
pub struct ExOwnedValue(tantivy::schema::OwnedValue);

/// The JSON value that a `tantivy::schema::OwnedValue` is; nothing where it holds a value of one of
/// the kinds that no JSON text gives, or a number that is not finite.
pub uninterp spec fn owned_doc(v: tantivy::schema::OwnedValue) -> Option<DocView>;

/// What `serde_json::from_str` reads out of a text as a `tantivy::schema::OwnedValue`; nothing
/// where it reports an error.
pub uninterp spec fn doc_of_text(t: Seq<char>) -> Option<DocView>;

/// Calls `serde_json::from_str` for a `tantivy::schema::OwnedValue`, whose objects are lists of
/// fields: what it reads is a function of the text, named `doc_of_text`.
#[verifier::external_body]
fn owned_of_text(t: &str) -> (r: Option<tantivy::schema::OwnedValue>)
    ensures
        match r {
            Some(v) => owned_doc(v) is Some && doc_of_text(t@) == owned_doc(v),
            None => doc_of_text(t@) is None,
        },
{
    serde_json::from_str(t).ok()
}

/// Takes a `tantivy::schema::OwnedValue` apart: nothing is said of one that is no JSON value.
#[verifier::external_body]
fn json_of_owned(v: tantivy::schema::OwnedValue) -> (r: Json)
    ensures
        owned_doc(v) matches Some(d) ==> r.doc() == d,
{
    match v {
        tantivy::schema::OwnedValue::Bool(b) => Json::Bool(b),
        tantivy::schema::OwnedValue::I64(n) => Json::Int(n),
        tantivy::schema::OwnedValue::U64(n) => Json::UInt(n),
        tantivy::schema::OwnedValue::F64(x) => Json::Float(serde_json::Value::from(x).to_string()),
        tantivy::schema::OwnedValue::Str(t) => Json::Text(t),
        tantivy::schema::OwnedValue::Array(a) => Json::Array(a.into_iter().map(json_of_owned).collect()),
        tantivy::schema::OwnedValue::Object(m) => Json::Object(m.into_iter().map(|(k, x)| (k, json_of_owned(x))).collect()),
        _ => Json::Null,
    }
}

/// Builds a `tantivy::schema::OwnedValue` with all fields in their order. Nothing is said of one
/// with a float in it.
#[verifier::external_body]
fn owned_of_json(j: &Json) -> (r: tantivy::schema::OwnedValue)
    ensures
        plain_doc(j.doc(), DEEPEST as nat) ==> owned_doc(r) == Some(j.doc()),
{
    match j {
        Json::Null => tantivy::schema::OwnedValue::Null,
        Json::Bool(b) => tantivy::schema::OwnedValue::Bool(*b),
        Json::Int(n) => tantivy::schema::OwnedValue::I64(*n),
        Json::UInt(n) => tantivy::schema::OwnedValue::U64(*n),
        Json::Float(t) => serde_json::from_str(t).unwrap_or(tantivy::schema::OwnedValue::Null),
        Json::Text(t) => tantivy::schema::OwnedValue::Str(t.clone()),
        Json::Array(a) => tantivy::schema::OwnedValue::Array(a.iter().map(owned_of_json).collect()),
        Json::Object(m) => tantivy::schema::OwnedValue::Object(m.iter().map(|(k, x)| (k.clone(), owned_of_json(x))).collect()),
    }
}

/// What `serde_json::to_string` writes for a `tantivy::schema::OwnedValue`.
pub uninterp spec fn doc_text(d: DocView) -> Seq<char>;

/// Calls `serde_json::to_string` on a `tantivy::schema::OwnedValue`. Of a JSON value the text is a
/// function, named `doc_text`. It holds the fields in their order, no control character, and no
/// white space at either end; and where the value has no float and is nested no deeper than the
/// parser's limit, the same value is read back out of it.
#[verifier::external_body]
fn text_of_owned(v: &tantivy::schema::OwnedValue) -> (r: String)
    ensures
        owned_doc(*v) matches Some(d) ==> r@ == doc_text(d),
        owned_doc(*v) is Some ==> forall|i: int|
            0 <= i < r@.len() ==> #[trigger] r@[i] as u32 >= 0x20,
        owned_doc(*v) is Some ==> r@.len() > 0 && !is_space(r@[0]) && !is_space(r@.last()),
        owned_doc(*v) matches Some(d) ==> plain_doc(d, DEEPEST as nat) ==> doc_of_text(r@) == Some(
            d,
        ),
{
    serde_json::to_string(v).unwrap_or_default()
}

/// What `serde_json::to_string_pretty` writes for a `tantivy::schema::OwnedValue`.
pub uninterp spec fn doc_pretty(d: DocView) -> Seq<char>;

/// Calls `serde_json::to_string_pretty` on a `tantivy::schema::OwnedValue`. Of a JSON value the text
/// is a function, named `doc_pretty`. It holds the fields in their order; and where the value has no
/// float and is nested no deeper than the parser's limit, the same value is read back out of it.
#[verifier::external_body]
fn pretty_of_owned(v: &tantivy::schema::OwnedValue) -> (r: String)
    ensures
        owned_doc(*v) matches Some(d) ==> r@ == doc_pretty(d),
        owned_doc(*v) matches Some(d) ==> plain_doc(d, DEEPEST as nat) ==> doc_of_text(r@) == Some(
            d,
        ),
{
    serde_json::to_string_pretty(v).unwrap_or_default()
}

/// The text of the first value in a text, with the white space before it, where
/// `serde_json::StreamDeserializer` finds one.
pub uninterp spec fn first_value(t: Seq<char>) -> Option<Seq<char>>;

/// Calls `StreamDeserializer::next` for a `serde::de::IgnoredAny`, and
/// `StreamDeserializer::byte_offset`: the text up to the end of the first value is a function of
/// the text, named `first_value`. The value is skipped over, not read: it may be nested as deep as
/// it likes, and hold numbers of any size.
#[verifier::external_body]
fn first_value_of(t: &str) -> (r: Option<String>)
    ensures
        match r {
            Some(v) => first_value(t@) == Some(v@) && 0 < v@.len() <= t@.len() && v@ == t@.take(
                v@.len() as int,
            ),
            None => first_value(t@) is None,
        },
{
    let mut values = serde_json::Deserializer::from_str(t).into_iter::<serde::de::IgnoredAny>();
    values.next()?.ok()?;
    t.get(..values.byte_offset()).map(|v| v.to_owned())
}

/// What `serde_json` says of a text that is not JSON; nothing of one that is.
pub uninterp spec fn json_error(t: Seq<char>) -> Option<Seq<char>>;

/// Calls `serde_json::from_str` for a `serde::de::IgnoredAny`: the text of the error is a function
/// of the text, named `json_error`.
#[verifier::external_body]
pub(crate) fn error_of_text(t: &str) -> (r: Option<String>)
    ensures
        r.deep_view() == json_error(t@),
{
    serde_json::from_str::<serde::de::IgnoredAny>(t).err().map(|e| e.to_string())
}

/// Reads a JSON text, with the fields of its objects in their order.
pub fn parse_doc(t: &str) -> (r: Option<Json>)
    ensures
        match r {
            Some(j) => doc_of_text(t@) == Some(j.doc()),
            None => doc_of_text(t@) is None,
        },
{
    match owned_of_text(t) {
        Some(v) => Some(json_of_owned(v)),
        None => None,
    }
}

/// Adds a field behind the fields of an object.
pub fn push_doc(fields: &mut Vec<(String, Json)>, key: &str, value: Json)
    ensures
        field_docs(final(fields)@) == field_docs(old(fields)@).push((key@, value.doc())),
{
    let k: String = owned(key);
    assert(fields@.push((k, value)).drop_last() =~= fields@);
    fields.push((k, value));
}

/// The values of the fields with a key.
pub open spec fn values_at(fields: Seq<(Seq<char>, DocView)>, key: Seq<char>) -> Seq<DocView>
    decreases fields.len(),
{
    if fields.len() == 0 {
        seq![]
    } else if fields.last().0 == key {
        values_at(fields.drop_last(), key).push(fields.last().1)
    } else {
        values_at(fields.drop_last(), key)
    }
}

/// The member of a record: the field with its name, where there is exactly one, or, where the
/// record is written as an array of `n` items, the item at its place.
pub open spec fn sole(d: DocView, key: Seq<char>, i: nat, n: nat) -> Option<DocView> {
    match d {
        DocView::Object(fields) => if values_at(fields, key).len() == 1 {
            Some(values_at(fields, key)[0])
        } else {
            None
        },
        DocView::Array(s) => if s.len() == n && i < n {
            Some(s[i as int])
        } else {
            None
        },
        _ => None,
    }
}

/// A text without the white space of JSON before it.
pub open spec fn unpadded(s: Seq<char>) -> Seq<char>
    decreases s.len(),
{
    if s.len() > 0 && (s[0] == ' ' || s[0] == '\n' || s[0] == '\t' || s[0] == '\r') {
        unpadded(s.skip(1))
    } else {
        s
    }
}

/// What stands behind the first character of a text, where that is `c`.
pub open spec fn behind(s: Seq<char>, c: char) -> Option<Seq<char>> {
    if unpadded(s).len() > 0 && unpadded(s)[0] == c {
        Some(unpadded(s).skip(1))
    } else {
        None
    }
}

/// The key at the start of a text, and what stands behind it and its colon.
pub open spec fn first_key(s: Seq<char>) -> Option<(Seq<char>, Seq<char>)> {
    match first_value(s) {
        Some(k) => match (doc_of_text(k), behind(s.skip(k.len() as int), ':')) {
            (Some(DocView::Text(key)), Some(rest)) => Some((key, rest)),
            _ => None,
        },
        None => None,
    }
}

/// The first of the values that a text lists, with its key where they have keys, and what stands
/// behind it.
pub open spec fn first_part(s: Seq<char>, keyed: bool) -> Option<
    ((Seq<char>, Seq<char>), Seq<char>),
> {
    let start = if keyed {
        first_key(s)
    } else {
        Some((seq![], s))
    };
    match start {
        Some((key, rest)) => match first_value(rest) {
            Some(v) => Some(((key, v), rest.skip(v.len() as int))),
            None => None,
        },
        None => None,
    }
}

/// The values that a text lists up to `end`, with their keys where they have keys.
pub open spec fn parts(s: Seq<char>, keyed: bool, end: char) -> Option<Seq<(Seq<char>, Seq<char>)>>
    decreases s.len(),
{
    match first_part(s, keyed) {
        Some((part, rest)) => if behind(rest, end) is Some {
            Some(seq![part])
        } else {
            match behind(rest, ',') {
                Some(more) => if more.len() < s.len() {
                    match parts(more, keyed, end) {
                        Some(others) => Some(seq![part] + others),
                        None => None,
                    }
                } else {
                    None
                },
                None => None,
            }
        },
        None => None,
    }
}

/// What an object (`{`, `}`) or an array (`[`, `]`) lists.
pub open spec fn listed(t: Seq<char>, keyed: bool, start: char, end: char) -> Option<
    Seq<(Seq<char>, Seq<char>)>,
> {
    match behind(t, start) {
        Some(s) => if behind(s, end) is Some {
            Some(seq![])
        } else {
            parts(s, keyed, end)
        },
        None => None,
    }
}

/// The fields of an object, in their order: the key and the text of each. It is `serde_json` that
/// says whether a text is JSON, and where a value in it ends.
pub open spec fn fields_in(t: Seq<char>) -> Option<Seq<(Seq<char>, Seq<char>)>> {
    if json_error(t) is Some {
        None
    } else {
        listed(t, true, '{', '}')
    }
}

/// The texts of the items of an array.
pub open spec fn items_in(t: Seq<char>) -> Option<Seq<Seq<char>>> {
    if json_error(t) is Some {
        None
    } else {
        match listed(t, false, '[', ']') {
            Some(s) => Some(s.map_values(|p: (Seq<char>, Seq<char>)| p.1)),
            None => None,
        }
    }
}

/// The texts of the fields with a key.
pub open spec fn texts_at(fields: Seq<(Seq<char>, Seq<char>)>, key: Seq<char>) -> Seq<Seq<char>>
    decreases fields.len(),
{
    if fields.len() == 0 {
        seq![]
    } else if fields.last().0 == key {
        texts_at(fields.drop_last(), key).push(fields.last().1)
    } else {
        texts_at(fields.drop_last(), key)
    }
}

/// The text of the field with a key, where an object holds exactly one.
pub open spec fn sole_text(t: Seq<char>, key: Seq<char>) -> Option<Seq<char>> {
    match fields_in(t) {
        Some(fields) => if texts_at(fields, key).len() == 1 {
            Some(texts_at(fields, key)[0])
        } else {
            None
        },
        None => None,
    }
}

/// The member of the record that a text holds. Fields that are no members are skipped over, also
/// where `serde_json` cannot hold what is in them.
pub open spec fn member_in(t: Seq<char>, key: Seq<char>, i: nat, n: nat) -> Option<DocView> {
    match doc_of_text(t) {
        Some(d) => sole(d, key, i, n),
        None => match sole_text(t, key) {
            Some(v) => doc_of_text(v),
            None => None,
        },
    }
}

/// What a value that may be missing is.
pub open spec fn shown_doc(v: Option<&Json>) -> Option<DocView> {
    match v {
        Some(j) => Some(j.doc()),
        None => None,
    }
}

/// The text that a member is.
pub open spec fn member_text(d: Option<DocView>) -> Option<Seq<char>> {
    match d {
        Some(DocView::Text(t)) => Some(t),
        _ => None,
    }
}

/// The number below 2^64 that a member is.
pub open spec fn member_number(d: Option<DocView>) -> Option<u64> {
    match d {
        Some(DocView::Int(n)) => if 0 <= n <= u64::MAX {
            Some(n as u64)
        } else {
            None
        },
        _ => None,
    }
}

/// The truth value that a member is.
pub open spec fn member_truth(d: Option<DocView>) -> Option<bool> {
    match d {
        Some(DocView::Bool(b)) => Some(b),
        _ => None,
    }
}

/// The text that a member is.
pub fn text_in(v: Option<&Json>) -> (r: Option<&str>)
    ensures
        match r {
            Some(t) => member_text(shown_doc(v)) == Some(t@),
            None => member_text(shown_doc(v)) is None,
        },
{
    match v {
        Some(Json::Text(t)) => Some(t.as_str()),
        _ => None,
    }
}

/// The number that a member is.
pub fn number_in(v: Option<&Json>) -> (r: Option<u64>)
    ensures
        r == member_number(shown_doc(v)),
{
    match v {
        Some(Json::UInt(n)) => Some(*n),
        Some(Json::Int(n)) => if *n >= 0 {
            Some(*n as u64)
        } else {
            None
        },
        _ => None,
    }
}

/// The truth value that a member is.
pub fn truth_in(v: Option<&Json>) -> (r: Option<bool>)
    ensures
        r == member_truth(shown_doc(v)),
{
    match v {
        Some(Json::Bool(b)) => Some(*b),
        _ => None,
    }
}

/// The field with a key, out of a text that cannot be read as a whole.
pub fn field_in(t: &str, key: &str) -> (r: Option<Json>)
    requires
        doc_of_text(t@) is None,
    ensures
        match r {
            Some(j) => member_in(t@, key@, 0, 0) == Some(j.doc()),
            None => member_in(t@, key@, 0, 0) is None,
        },
{
    match sole_text_of(t, key) {
        Some(v) => parse_doc(v.as_str()),
        None => None,
    }
}

/// What stands behind the first character of a text, where that is `c`.
fn after(s: &str, c: char) -> (r: Option<String>)
    ensures
        r.deep_view() == behind(s@, c),
{
    let n: usize = s.unicode_len();
    let mut i: usize = 0;
    assert(s@.skip(0) =~= s@);
    while i < n && (s.get_char(i) == ' ' || s.get_char(i) == '\n' || s.get_char(i) == '\t'
        || s.get_char(i) == '\r')
        invariant
            i <= n,
            n == s@.len(),
            unpadded(s@) == unpadded(s@.skip(i as int)),
        decreases n - i,
    {
        assert(s@.skip(i as int).skip(1) =~= s@.skip(i + 1));
        i = i + 1;
    }
    assert(unpadded(s@) == s@.skip(i as int));
    if i < n && s.get_char(i) == c {
        assert(s@.skip(i as int).skip(1) =~= s@.skip(i + 1));
        Some(owned(skip_str(s, i + 1)))
    } else {
        None
    }
}

/// The key at the start of a text, and what stands behind it and its colon.
fn key_of(s: &str) -> (r: Option<(String, String)>)
    ensures
        match r {
            Some((key, rest)) => first_key(s@) == Some((key@, rest@)),
            None => first_key(s@) is None,
        },
{
    let k: String = match first_value_of(s) {
        Some(k) => k,
        None => return None,
    };
    let rest: String = match after(skip_str(s, k.as_str().unicode_len()), ':') {
        Some(rest) => rest,
        None => return None,
    };
    match parse_doc(k.as_str()) {
        Some(Json::Text(key)) => Some((key, rest)),
        _ => None,
    }
}

/// The first of the values that a text lists, with its key where they have keys, and what stands
/// behind it.
fn part_of(s: &str, keyed: bool) -> (r: Option<((String, String), String)>)
    ensures
        match r {
            Some(((key, value), rest)) => first_part(s@, keyed) == Some(((key@, value@), rest@)),
            None => first_part(s@, keyed) is None,
        },
{
    let (key, rest): (String, String) = if keyed {
        match key_of(s) {
            Some(p) => p,
            None => return None,
        }
    } else {
        (String::new(), owned(s))
    };
    match first_value_of(rest.as_str()) {
        Some(v) => {
            let behind: String = owned(skip_str(rest.as_str(), v.as_str().unicode_len()));
            Some(((key, v), behind))
        },
        None => None,
    }
}

/// The values that a text lists up to `end`, with their keys where they have keys.
fn parts_of(s: &str, keyed: bool, end: char) -> (r: Option<Vec<(String, String)>>)
    ensures
        match r {
            Some(v) => parts(s@, keyed, end) == Some(text_pairs(v@)),
            None => parts(s@, keyed, end) is None,
        },
{
    let mut out: Vec<(String, String)> = Vec::new();
    let mut left: String = owned(s);
    loop
        invariant
            parts(s@, keyed, end) == match parts(left@, keyed, end) {
                Some(others) => Some(text_pairs(out@) + others),
                None => None,
            },
        decreases left@.len(),
    {
        let ghost before = text_pairs(out@);
        let (part, rest): ((String, String), String) = match part_of(left.as_str(), keyed) {
            Some(p) => p,
            None => return None,
        };
        let ghost p = (part.0@, part.1@);
        out.push(part);
        assert(text_pairs(out@) =~= before.push(p));
        if after(rest.as_str(), end).is_some() {
            assert(before + seq![p] =~= text_pairs(out@));
            return Some(out);
        }
        match after(rest.as_str(), ',') {
            Some(more) => {
                if more.as_str().unicode_len() >= left.as_str().unicode_len() {
                    return None;
                }
                proof {
                    if let Some(others) = parts(more@, keyed, end) {
                        assert(before + (seq![p] + others) =~= text_pairs(out@) + others);
                    }
                }
                left = more;
            },
            None => return None,
        }
    }
}

/// What an object or an array lists.
fn listed_of(t: &str, keyed: bool, start: char, end: char) -> (r: Option<Vec<(String, String)>>)
    ensures
        match r {
            Some(v) => listed(t@, keyed, start, end) == Some(text_pairs(v@)),
            None => listed(t@, keyed, start, end) is None,
        },
{
    let s: String = match after(t, start) {
        Some(s) => s,
        None => return None,
    };
    if after(s.as_str(), end).is_some() {
        let none: Vec<(String, String)> = Vec::new();
        assert(text_pairs(none@) =~= Seq::empty());
        Some(none)
    } else {
        parts_of(s.as_str(), keyed, end)
    }
}

/// The texts of the items of an array.
pub fn items_of(t: &str) -> (r: Option<Vec<String>>)
    ensures
        r.deep_view() == items_in(t@),
{
    if error_of_text(t).is_some() {
        return None;
    }
    let listed: Vec<(String, String)> = match listed_of(t, false, '[', ']') {
        Some(v) => v,
        None => return None,
    };
    let ghost want = text_pairs(listed@).map_values(|p: (Seq<char>, Seq<char>)| p.1);
    let mut out: Vec<String> = Vec::new();
    let mut i: usize = 0;
    assert(out.deep_view() =~= want.take(0));
    while i < listed.len()
        invariant
            i <= listed@.len(),
            want == text_pairs(listed@).map_values(|p: (Seq<char>, Seq<char>)| p.1),
            out.deep_view() == want.take(i as int),
        decreases listed@.len() - i,
    {
        let ghost before = out.deep_view();
        out.push(owned(listed[i].1.as_str()));
        proof {
            assert(want[i as int] == listed@[i as int].1@);
            assert(out.deep_view() =~= before.push(want[i as int]));
            assert(want.take(i + 1) =~= want.take(i as int).push(want[i as int]));
        }
        i = i + 1;
    }
    assert(want.take(i as int) =~= want);
    Some(out)
}

/// The text of the field with a key, where an object holds exactly one.
pub fn sole_text_of(t: &str, key: &str) -> (r: Option<String>)
    ensures
        r.deep_view() == sole_text(t@, key@),
{
    if error_of_text(t).is_some() {
        return None;
    }
    let fields: Vec<(String, String)> = match listed_of(t, true, '{', '}') {
        Some(v) => v,
        None => return None,
    };
    let ghost all = text_pairs(fields@);
    let mut found: Vec<String> = Vec::new();
    let mut i: usize = 0;
    assert(found.deep_view() =~= texts_at(all.take(0), key@));
    while i < fields.len()
        invariant
            i <= fields@.len(),
            all == text_pairs(fields@),
            found.deep_view() == texts_at(all.take(i as int), key@),
        decreases fields@.len() - i,
    {
        let ghost before = found.deep_view();
        proof {
            assert(all[i as int] == (fields@[i as int].0@, fields@[i as int].1@));
            assert(all.take(i + 1).drop_last() =~= all.take(i as int));
        }
        if same(fields[i].0.as_str(), key) {
            found.push(owned(fields[i].1.as_str()));
            assert(found.deep_view() =~= before.push(fields@[i as int].1@));
        }
        i = i + 1;
    }
    assert(all.take(i as int) =~= all);
    if found.len() == 1 {
        assert(found.deep_view()[0] == found@[0]@);
        Some(owned(found[0].as_str()))
    } else {
        None
    }
}

impl Json {
    /// The member of a record.
    pub fn sole_at(&self, key: &str, i: usize, n: usize) -> (r: Option<&Json>)
        ensures
            shown_doc(r) == sole(self.doc(), key@, i as nat, n as nat),
    {
        match self {
            Json::Array(items) => {
                proof {
                    lemma_item_docs(items@);
                }
                if items.len() == n && i < n {
                    Some(&items[i])
                } else {
                    None
                }
            },
            Json::Object(fields) => {
                let ghost all = field_docs(fields@);
                proof {
                    lemma_field_docs(fields@);
                }
                let len: usize = fields.len();
                let mut found: Option<&Json> = None;
                let mut many: bool = false;
                let mut k: usize = 0;
                while k < len
                    invariant
                        k <= len,
                        len == fields@.len(),
                        len == all.len(),
                        forall|j: int|
                            0 <= j < len ==> #[trigger] all[j] == (
                                fields@[j].0@,
                                fields@[j].1.doc(),
                            ),
                        match found {
                            None => !many && values_at(all.take(k as int), key@).len() == 0,
                            Some(j) => if many {
                                values_at(all.take(k as int), key@).len() > 1
                            } else {
                                values_at(all.take(k as int), key@) == seq![j.doc()]
                            },
                        },
                    decreases len - k,
                {
                    assert(all.take(k + 1).drop_last() =~= all.take(k as int));
                    assert(all.take(k + 1).last() == all[k as int]);
                    if same(fields[k].0.as_str(), key) {
                        if found.is_some() {
                            many = true;
                        } else {
                            found = Some(&fields[k].1);
                            assert(values_at(all.take(k + 1), key@) =~= seq![fields@[k as int].1.doc()]);
                        }
                    }
                    k = k + 1;
                }
                assert(all.take(k as int) =~= all);
                if many {
                    None
                } else {
                    found
                }
            },
            _ => None,
        }
    }

    /// This value as a text in one line, the fields of its objects in their order.
    pub fn to_doc_text(&self) -> (r: String)
        requires
            plain_doc(self.doc(), DEEPEST as nat),
        ensures
            r@ == doc_text(self.doc()),
            forall|i: int| 0 <= i < r@.len() ==> #[trigger] r@[i] as u32 >= 0x20,
            r@.len() > 0 && !is_space(r@[0]) && !is_space(r@.last()),
            doc_of_text(r@) == Some(self.doc()),
    {
        text_of_owned(&owned_of_json(self))
    }

    /// This value as a text in several lines, the fields of its objects in their order.
    pub fn to_doc_pretty(&self) -> (r: String)
        requires
            plain_doc(self.doc(), DEEPEST as nat),
        ensures
            r@ == doc_pretty(self.doc()),
            doc_of_text(r@) == Some(self.doc()),
    {
        pretty_of_owned(&owned_of_json(self))
    }
}

/// Whether the field at `i`, and no other, has a key.
pub open spec fn only_at(fields: Seq<(Seq<char>, DocView)>, key: Seq<char>, i: int) -> bool {
    &&& 0 <= i < fields.len() && fields[i].0 == key
    &&& forall|j: int| 0 <= j < fields.len() && j != i ==> (#[trigger] fields[j]).0 != key
}

proof fn lemma_no_values(fields: Seq<(Seq<char>, DocView)>, key: Seq<char>)
    requires
        forall|j: int| 0 <= j < fields.len() ==> (#[trigger] fields[j]).0 != key,
    ensures
        values_at(fields, key).len() == 0,
    decreases fields.len(),
{
    if fields.len() > 0 {
        let r = fields.drop_last();
        assert(fields[fields.len() - 1].0 != key);
        assert forall|j: int| 0 <= j < r.len() implies (#[trigger] r[j]).0 != key by {
            assert(r[j] == fields[j]);
        }
        lemma_no_values(r, key);
    }
}

proof fn lemma_values_count(fields: Seq<(Seq<char>, DocView)>, key: Seq<char>, i: int)
    requires
        0 <= i < fields.len(),
        fields[i].0 == key,
    ensures
        values_at(fields, key).len() > 0,
    decreases fields.len(),
{
    if i < fields.len() - 1 {
        assert(fields.drop_last()[i] == fields[i]);
        lemma_values_count(fields.drop_last(), key, i);
    }
}

proof fn lemma_only_value(fields: Seq<(Seq<char>, DocView)>, key: Seq<char>, i: int)
    requires
        only_at(fields, key, i),
    ensures
        values_at(fields, key) == seq![fields[i].1],
    decreases fields.len(),
{
    let r = fields.drop_last();
    if i == fields.len() - 1 {
        assert forall|j: int| 0 <= j < r.len() implies (#[trigger] r[j]).0 != key by {
            assert(r[j] == fields[j]);
        }
        lemma_no_values(r, key);
        assert(values_at(r, key) =~= Seq::<DocView>::empty());
        assert(values_at(fields, key) =~= seq![fields[i].1]);
    } else {
        assert(fields[fields.len() - 1].0 != key);
        assert(r[i] == fields[i]);
        assert forall|j: int| 0 <= j < r.len() && j != i implies (#[trigger] r[j]).0 != key by {
            assert(r[j] == fields[j]);
        }
        lemma_only_value(r, key, i);
    }
}

proof fn lemma_two_values(fields: Seq<(Seq<char>, DocView)>, key: Seq<char>, i: int, j: int)
    requires
        0 <= i < j < fields.len(),
        fields[i].0 == key,
        fields[j].0 == key,
    ensures
        values_at(fields, key).len() >= 2,
    decreases fields.len(),
{
    let r = fields.drop_last();
    assert(r[i] == fields[i]);
    if j == fields.len() - 1 {
        lemma_values_count(r, key, i);
    } else {
        assert(r[j] == fields[j]);
        lemma_two_values(r, key, i, j);
    }
}

/// A member of a record: of an object the value of the one field with its name, wherever it stands
/// and whatever other fields there are; none where there is no such field or more than one. Of an
/// array as long as the record has members, the item at its place.
pub proof fn lemma_member(
    fields: Seq<(Seq<char>, DocView)>,
    key: Seq<char>,
    i: int,
    j: int,
    items: Seq<DocView>,
    at: nat,
    n: nat,
)
    ensures
        only_at(fields, key, i) ==> sole(DocView::Object(fields), key, at, n) == Some(fields[i].1),
        (forall|k: int| 0 <= k < fields.len() ==> (#[trigger] fields[k]).0 != key) ==> sole(
            DocView::Object(fields),
            key,
            at,
            n,
        ) is None,
        0 <= i < j < fields.len() && fields[i].0 == key && fields[j].0 == key ==> sole(
            DocView::Object(fields),
            key,
            at,
            n,
        ) is None,
        items.len() == n && at < n ==> sole(DocView::Array(items), key, at, n) == Some(
            items[at as int],
        ),
        items.len() != n ==> sole(DocView::Array(items), key, at, n) is None,
{
    if only_at(fields, key, i) {
        lemma_only_value(fields, key, i);
    }
    if forall|k: int| 0 <= k < fields.len() ==> (#[trigger] fields[k]).0 != key {
        lemma_no_values(fields, key);
    }
    if 0 <= i < j < fields.len() && fields[i].0 == key && fields[j].0 == key {
        lemma_two_values(fields, key, i, j);
    }
}

/// What a member is: a text, a number that is not negative and below 2^64, or a truth value, and
/// never one of these for another.
pub proof fn lemma_member_kinds(t: Seq<char>, n: int, b: bool)
    ensures
        member_text(Some(DocView::Text(t))) == Some(t),
        member_text(Some(DocView::Int(n))) is None && member_text(Some(DocView::Null)) is None
            && member_text(None) is None,
        0 <= n <= u64::MAX ==> member_number(Some(DocView::Int(n))) == Some(n as u64),
        n < 0 || n > u64::MAX ==> member_number(Some(DocView::Int(n))) is None,
        member_number(Some(DocView::Text(t))) is None && member_number(None) is None,
        member_truth(Some(DocView::Bool(b))) == Some(b),
        member_truth(Some(DocView::Int(n))) is None && member_truth(None) is None,
{
}

/// What stands behind a character: white space of JSON before it does not count, and nothing else
/// may stand there.
pub proof fn lemma_behind(pad: char, c: char, other: char, rest: Seq<char>)
    requires
        pad == ' ' || pad == '\n' || pad == '\t' || pad == '\r',
        c != ' ' && c != '\n' && c != '\t' && c != '\r',
        other != ' ' && other != '\n' && other != '\t' && other != '\r' && other != c,
    ensures
        behind(seq![c] + rest, c) == Some(rest),
        behind(seq![pad] + rest, c) == behind(rest, c),
        behind(seq![other] + rest, c) is None,
        behind(Seq::empty(), c) is None,
{
    let a = seq![c] + rest;
    let b = seq![pad] + rest;
    let d = seq![other] + rest;
    assert(a[0] == c && a.skip(1) =~= rest);
    assert(b[0] == pad && b.skip(1) =~= rest);
    assert(d[0] == other);
}

/// What a text lists: a value and the end are that value alone; a value and a comma are that value,
/// and behind it what the rest lists.
pub proof fn lemma_parts(s: Seq<char>, keyed: bool, end: char)
    requires
        first_part(s, keyed) is Some,
        end != ',',
    ensures
        ({
            let (part, rest) = first_part(s, keyed)->0;
            let more = behind(rest, ',');
            &&& behind(rest, end) is Some ==> parts(s, keyed, end) == Some(seq![part])
            &&& behind(rest, end) is None && more is None ==> parts(s, keyed, end) is None
            &&& behind(rest, end) is None && more is Some && more->0.len() < s.len() && parts(
                more->0,
                keyed,
                end,
            ) is Some ==> parts(s, keyed, end) == Some(seq![part] + parts(more->0, keyed, end)->0)
        }),
{
}

/// What a member of a record is that stands in a text: out of the value that the text holds, or,
/// where that cannot be read as a whole, out of the text of the one field with its name.
pub proof fn lemma_member_in(t: Seq<char>, key: Seq<char>, i: nat, n: nat)
    ensures
        doc_of_text(t) is Some ==> member_in(t, key, i, n) == sole(doc_of_text(t)->0, key, i, n),
        doc_of_text(t) is None && sole_text(t, key) is Some ==> member_in(t, key, i, n) == doc_of_text(
            sole_text(t, key)->0,
        ),
        doc_of_text(t) is None && sole_text(t, key) is None ==> member_in(t, key, i, n) is None,
{
}

proof fn lemma_texts_at_push(
    fields: Seq<(Seq<char>, Seq<char>)>,
    key: Seq<char>,
    f: (Seq<char>, Seq<char>),
)
    ensures
        texts_at(fields.push(f), key) == if f.0 == key {
            texts_at(fields, key).push(f.1)
        } else {
            texts_at(fields, key)
        },
{
    assert(fields.push(f).drop_last() =~= fields);
}

/// The texts of the fields with a key, in their order: those with another key are passed over.
pub proof fn lemma_texts_at(
    fields: Seq<(Seq<char>, Seq<char>)>,
    key: Seq<char>,
    other: Seq<char>,
    t: Seq<char>,
)
    requires
        other != key,
    ensures
        texts_at(Seq::empty(), key).len() == 0,
        texts_at(fields.push((key, t)), key) == texts_at(fields, key).push(t),
        texts_at(fields.push((other, t)), key) == texts_at(fields, key),
{
    lemma_texts_at_push(fields, key, (key, t));
    lemma_texts_at_push(fields, key, (other, t));
}

} // verus!
